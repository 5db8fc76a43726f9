//! Which walks end, and how deep they go.

use vstd::prelude::*;

use crate::error::RobotErrorView;
use crate::log::{collisions_log, link_log, visuals_log, Outcome};
use crate::robot::{CollisionView, JointView, LinkView, RobotView, VisualView};
use crate::tree::{find_link, is_child, joints_from, tree_of, TreeView};
use crate::walk::{
    ended, full_walk, robot_log, robot_log_ends, walk, walk_ends, walk_joints,
};

verus! {

/// How a walk ends: with an error or without.
spec fn ending(walked: Outcome) -> Option<RobotErrorView> {
    walked.error
}

proof fn lemma_visuals_error(
    tree: TreeView,
    p: Seq<Seq<char>>,
    q: Seq<Seq<char>>,
    visuals: Seq<VisualView>,
    n: nat,
)
    ensures
        visuals_log(tree, p, visuals, n).error == visuals_log(tree, q, visuals, n).error,
    decreases n,
{
    if n > 0 {
        lemma_visuals_error(tree, p, q, visuals, (n - 1) as nat);
    }
}

proof fn lemma_collisions_error(
    tree: TreeView,
    p: Seq<Seq<char>>,
    q: Seq<Seq<char>>,
    collisions: Seq<CollisionView>,
    n: nat,
)
    ensures
        collisions_log(tree, p, collisions, n).error == collisions_log(
            tree,
            q,
            collisions,
            n,
        ).error,
    decreases n,
{
    if n > 0 {
        lemma_collisions_error(tree, p, q, collisions, (n - 1) as nat);
    }
}

/// Whether a link can be logged does not depend on where it is logged.
proof fn lemma_link_error(tree: TreeView, link: LinkView, p: Seq<Seq<char>>, q: Seq<Seq<char>>)
    ensures
        link_log(tree, link, p).error == link_log(tree, link, q).error,
{
    lemma_visuals_error(tree, p, q, link.visual, link.visual.len());
    lemma_collisions_error(tree, p, q, link.collision, link.collision.len());
}

proof fn lemma_visuals_ended(
    tree: TreeView,
    p: Seq<Seq<char>>,
    visuals: Seq<VisualView>,
    n: nat,
)
    ensures
        ended(visuals_log(tree, p, visuals, n)),
    decreases n,
{
    if n > 0 {
        lemma_visuals_ended(tree, p, visuals, (n - 1) as nat);
    }
}

proof fn lemma_collisions_ended(
    tree: TreeView,
    p: Seq<Seq<char>>,
    collisions: Seq<CollisionView>,
    n: nat,
)
    ensures
        ended(collisions_log(tree, p, collisions, n)),
    decreases n,
{
    if n > 0 {
        lemma_collisions_ended(tree, p, collisions, (n - 1) as nat);
    }
}

/// Logging a link always ends.
proof fn lemma_link_ended(tree: TreeView, link: LinkView, p: Seq<Seq<char>>)
    ensures
        ended(link_log(tree, link, p)),
{
    lemma_visuals_ended(tree, p, link.visual, link.visual.len());
    lemma_collisions_ended(tree, p, link.collision, link.collision.len());
}

/// How a walk ends does not depend on where it starts to log.
proof fn lemma_walk_ending(
    tree: TreeView,
    p: Seq<Seq<char>>,
    q: Seq<Seq<char>>,
    link: Seq<char>,
    depth: nat,
)
    ensures
        ending(walk(tree, p, link, depth)) == ending(walk(tree, q, link, depth)),
    decreases depth, 0nat,
{
    if let Some(found) = tree.link(link) {
        lemma_link_error(tree, found, p.push(link), q.push(link));
        if depth > 0 {
            let joints = tree.children(link);
            lemma_joints_ending(
                tree,
                p.push(link),
                q.push(link),
                joints,
                joints.len(),
                (depth - 1) as nat,
            );
        }
    }
}

proof fn lemma_joints_ending(
    tree: TreeView,
    p: Seq<Seq<char>>,
    q: Seq<Seq<char>>,
    joints: Seq<JointView>,
    n: nat,
    depth: nat,
)
    ensures
        ending(walk_joints(tree, p, joints, n, depth)) == ending(
            walk_joints(tree, q, joints, n, depth),
        ),
    decreases depth, n + 1,
{
    if n > 0 {
        let joint = joints[n - 1];
        lemma_joints_ending(tree, p, q, joints, (n - 1) as nat, depth);
        lemma_walk_ending(tree, p.push(joint.name), q.push(joint.name), joint.child, depth);
    }
}

/// A walk that ends within some depth is the same within any greater depth.
proof fn lemma_walk_deeper(
    tree: TreeView,
    p: Seq<Seq<char>>,
    link: Seq<char>,
    depth: nat,
    deeper: nat,
)
    requires
        ended(walk(tree, p, link, depth)),
        depth <= deeper,
    ensures
        walk(tree, p, link, deeper) == walk(tree, p, link, depth),
    decreases depth, 0nat,
{
    if tree.link(link) is Some && depth > 0 {
        let path = p.push(link);
        let joints = tree.children(link);
        if link_log(tree, tree.link(link)->0, path).error is None {
            lemma_joints_deeper(
                tree,
                path,
                joints,
                joints.len(),
                (depth - 1) as nat,
                (deeper - 1) as nat,
            );
        }
    }
}

proof fn lemma_joints_deeper(
    tree: TreeView,
    p: Seq<Seq<char>>,
    joints: Seq<JointView>,
    n: nat,
    depth: nat,
    deeper: nat,
)
    requires
        ended(walk_joints(tree, p, joints, n, depth)),
        depth <= deeper,
    ensures
        walk_joints(tree, p, joints, n, deeper) == walk_joints(tree, p, joints, n, depth),
    decreases depth, n + 1,
{
    if n > 0 {
        let joint = joints[n - 1];
        lemma_joints_deeper(tree, p, joints, (n - 1) as nat, depth, deeper);
        if walk_joints(tree, p, joints, (n - 1) as nat, depth).error is None {
            lemma_walk_deeper(tree, p.push(joint.name), joint.child, depth, deeper);
        }
    }
}

/// What a walk logs before it is broken off is the beginning of what it logs at any greater depth.
pub proof fn law_broken_walk_is_a_beginning(
    tree: TreeView,
    p: Seq<Seq<char>>,
    link: Seq<char>,
    depth: nat,
    deeper: nat,
)
    requires
        depth <= deeper,
    ensures
        walk(tree, p, link, depth).steps.is_prefix_of(walk(tree, p, link, deeper).steps),
    decreases depth, 0nat,
{
    if tree.link(link) is Some && depth > 0 {
        let joints = tree.children(link);
        lemma_broken_joints(
            tree,
            p.push(link),
            joints,
            joints.len(),
            (depth - 1) as nat,
            (deeper - 1) as nat,
        );
    }
}

proof fn lemma_broken_joints(
    tree: TreeView,
    p: Seq<Seq<char>>,
    joints: Seq<JointView>,
    n: nat,
    depth: nat,
    deeper: nat,
)
    requires
        depth <= deeper,
    ensures
        walk_joints(tree, p, joints, n, depth).steps.is_prefix_of(
            walk_joints(tree, p, joints, n, deeper).steps,
        ),
    decreases depth, n + 1,
{
    if n > 0 {
        let joint = joints[n - 1];
        let before = walk_joints(tree, p, joints, (n - 1) as nat, depth);
        lemma_broken_joints(tree, p, joints, (n - 1) as nat, depth, deeper);
        law_broken_walk_is_a_beginning(tree, p.push(joint.name), joint.child, depth, deeper);
        if ended(before) {
            lemma_joints_deeper(tree, p, joints, (n - 1) as nat, depth, deeper);
        }
    }
}

/// Where looking one level deeper changes the end of no walk, neither does the next level.
proof fn lemma_settled_next(tree: TreeView, depth: nat)
    requires
        forall|link: Seq<char>|
            ending(#[trigger] walk(tree, seq![], link, depth)) == ending(
                walk(tree, seq![], link, depth + 1),
            ),
    ensures
        forall|link: Seq<char>|
            ending(#[trigger] walk(tree, seq![], link, depth + 1)) == ending(
                walk(tree, seq![], link, depth + 2),
            ),
{
    assert forall|link: Seq<char>|
        ending(#[trigger] walk(tree, seq![], link, depth + 1)) == ending(
            walk(tree, seq![], link, depth + 2),
        ) by {
        let path = seq![].push(link);
        let joints = tree.children(link);
        lemma_settled_joints(tree, path, joints, joints.len(), depth);
    }
}

proof fn lemma_settled_joints(
    tree: TreeView,
    p: Seq<Seq<char>>,
    joints: Seq<JointView>,
    n: nat,
    depth: nat,
)
    requires
        forall|link: Seq<char>|
            ending(#[trigger] walk(tree, seq![], link, depth)) == ending(
                walk(tree, seq![], link, depth + 1),
            ),
    ensures
        ending(walk_joints(tree, p, joints, n, depth)) == ending(
            walk_joints(tree, p, joints, n, depth + 1),
        ),
    decreases n,
{
    if n > 0 {
        let joint = joints[n - 1];
        let path = p.push(joint.name);
        lemma_settled_joints(tree, p, joints, (n - 1) as nat, depth);
        lemma_walk_ending(tree, path, seq![], joint.child, depth);
        lemma_walk_ending(tree, path, seq![], joint.child, depth + 1);
        assert(ending(walk(tree, seq![], joint.child, depth)) == ending(
            walk(tree, seq![], joint.child, depth + 1),
        ));
    }
}

/// The links from which the walk does not end within `depth`.
spec fn open_links(tree: TreeView, depth: nat) -> Set<Seq<char>> {
    Set::new(|link: Seq<char>| !ended(walk(tree, seq![], link, depth)))
}

/// The names of the links.
spec fn link_names(links: Seq<LinkView>) -> Seq<Seq<char>> {
    links.map_values(|link: LinkView| link.name)
}

/// A link that is found is one of the robot's, and has the name by which it was found.
pub proof fn law_found_link_has_its_name(links: Seq<LinkView>, name: Seq<char>)
    ensures
        find_link(links, name) matches Some(link) ==> link.name == name && links.contains(link),
    decreases links.len(),
{
    if links.len() > 0 {
        law_found_link_has_its_name(links.drop_last(), name);
        if links.last().name != name && find_link(links, name) is Some {
            let link = find_link(links, name)->0;
            let k = choose|k: int| 0 <= k < links.len() - 1 && links.drop_last()[k] == link;
            assert(links[k] == link);
        } else {
            assert(links[links.len() - 1] == links.last());
        }
    }
}

proof fn lemma_open_links_finite(tree: TreeView, depth: nat)
    ensures
        open_links(tree, depth).finite(),
        open_links(tree, depth).len() <= tree.robot.links.len(),
{
    let names = link_names(tree.robot.links);
    assert forall|link: Seq<char>| open_links(tree, depth).contains(link) implies names.to_set(
    ).contains(link) by {
        law_found_link_has_its_name(tree.robot.links, link);
        let found = tree.link(link)->0;
        let k = choose|k: int|
            0 <= k < tree.robot.links.len() && tree.robot.links[k] == found;
        assert(names[k] == link);
    }
    vstd::seq_lib::seq_to_set_is_finite(names);
    names.lemma_cardinality_of_set();
    vstd::set_lib::lemma_len_subset(open_links(tree, depth), names.to_set());
}

proof fn lemma_open_links_shrink(tree: TreeView, depth: nat)
    ensures
        open_links(tree, depth + 1).subset_of(open_links(tree, depth)),
{
    assert forall|link: Seq<char>| open_links(tree, depth + 1).contains(link) implies open_links(
        tree,
        depth,
    ).contains(link) by {
        if ended(walk(tree, seq![], link, depth)) {
            lemma_walk_deeper(tree, seq![], link, depth, depth + 1);
        }
    }
}

/// Where no walk is settled by looking one level deeper than `depth`, none is settled by looking
/// any deeper.
proof fn lemma_settled(tree: TreeView, depth: nat, deeper: nat)
    requires
        open_links(tree, depth) == open_links(tree, depth + 1),
        depth <= deeper,
    ensures
        open_links(tree, deeper) == open_links(tree, depth),
        forall|link: Seq<char>|
            ending(#[trigger] walk(tree, seq![], link, deeper)) == ending(
                walk(tree, seq![], link, deeper + 1),
            ),
    decreases deeper - depth,
{
    if depth == deeper {
        assert forall|link: Seq<char>|
            ending(#[trigger] walk(tree, seq![], link, depth)) == ending(
                walk(tree, seq![], link, depth + 1),
            ) by {
            if ended(walk(tree, seq![], link, depth)) {
                lemma_walk_deeper(tree, seq![], link, depth, depth + 1);
            } else {
                assert(open_links(tree, depth).contains(link));
                assert(open_links(tree, depth + 1).contains(link));
            }
        }
    } else {
        let previous = (deeper - 1) as nat;
        lemma_settled(tree, depth, previous);
        lemma_settled_next(tree, previous);
        assert(previous + 1 == deeper && previous + 2 == deeper + 1);
        assert forall|link: Seq<char>| open_links(tree, deeper).contains(link) == open_links(
            tree,
            depth,
        ).contains(link) by {
            assert(ending(walk(tree, seq![], link, previous)) == ending(
                walk(tree, seq![], link, previous + 1),
            ));
            assert(open_links(tree, previous).contains(link) == open_links(tree, depth).contains(
                link,
            ));
        }
        assert(open_links(tree, deeper) =~= open_links(tree, depth));
    }
}

/// Each level deeper settles a walk, until none is left to settle.
proof fn lemma_each_level_settles(tree: TreeView, depth: nat)
    ensures
        open_links(tree, depth).len() + depth <= tree.robot.links.len() || exists|k: nat|
            k <= depth && #[trigger] open_links(tree, k) == open_links(tree, k + 1),
    decreases depth,
{
    lemma_open_links_finite(tree, depth);
    if depth > 0 {
        let previous = (depth - 1) as nat;
        lemma_each_level_settles(tree, previous);
        lemma_open_links_finite(tree, previous);
        lemma_open_links_shrink(tree, previous);
        if open_links(tree, previous) != open_links(tree, previous + 1) {
            vstd::set_lib::lemma_len_subset(
                open_links(tree, depth),
                open_links(tree, previous),
            );
            if open_links(tree, depth).len() == open_links(tree, previous).len() {
                vstd::set_lib::lemma_subset_equality(
                    open_links(tree, depth),
                    open_links(tree, previous),
                );
            }
        }
    }
}

/// A walk either ends having passed over no more links one below the other than the robot has,
/// or does not end at all.
pub proof fn law_walk_ends_within_link_count(
    tree: TreeView,
    parent_path: Seq<Seq<char>>,
    link: Seq<char>,
)
    ensures
        ended(full_walk(tree, parent_path, link)) <==> walk_ends(tree, link),
{
    let n = tree.robot.links.len();
    lemma_walk_ending(tree, parent_path, seq![], link, n);
    if walk_ends(tree, link) && !ended(walk(tree, seq![], link, n)) {
        let depth = choose|depth: nat| ended(#[trigger] walk(tree, seq![], link, depth));
        assert(open_links(tree, n).contains(link));
        lemma_open_links_finite(tree, n);
        lemma_each_level_settles(tree, n);
        if open_links(tree, n).len() == 0 {
            open_links(tree, n).lemma_len0_is_empty();
        }
        let k = choose|k: nat|
            k <= n && #[trigger] open_links(tree, k) == open_links(tree, k + 1);
        lemma_settled(tree, k, n);
        if depth <= n {
            lemma_walk_deeper(tree, seq![], link, depth, n);
        } else {
            lemma_settled(tree, k, depth);
            assert(open_links(tree, depth).contains(link));
        }
    }
}

/// Logging a robot ends exactly where the walk from its root does, and then it has an outcome.
pub proof fn law_robot_log_ends(robot: RobotView, urdf_dir: Option<Seq<char>>)
    ensures
        ended(robot_log(robot, urdf_dir)) <==> robot_log_ends(robot, urdf_dir),
{
    if let Ok(tree) = tree_of(robot, urdf_dir) {
        law_walk_ends_within_link_count(tree, seq![robot.name], tree.root);
    }
}

/// A walk that ends is the same whatever depth beyond its own it is allowed.
pub proof fn law_depth_does_not_matter(
    tree: TreeView,
    parent_path: Seq<Seq<char>>,
    link: Seq<char>,
    depth: nat,
)
    requires
        ended(walk(tree, parent_path, link, depth)),
    ensures
        full_walk(tree, parent_path, link) == walk(tree, parent_path, link, depth),
{
    let n = tree.robot.links.len();
    lemma_walk_ending(tree, parent_path, seq![], link, depth);
    law_walk_ends_within_link_count(tree, parent_path, link);
    if depth <= n {
        lemma_walk_deeper(tree, parent_path, link, depth, n);
    } else {
        lemma_walk_deeper(tree, parent_path, link, n, depth);
    }
}

/// Whether a joint leads from the link `a` to the link `b`.
pub open spec fn is_next(tree: TreeView, a: Seq<char>, b: Seq<char>) -> bool {
    exists|k: int|
        0 <= k < tree.children(a).len() && (#[trigger] tree.children(a)[k]).child == b
}

/// Whether joints lead from the first link of `way` over all the others to the last.
pub open spec fn is_way(tree: TreeView, way: Seq<Seq<char>>) -> bool {
    &&& way.len() > 0
    &&& forall|i: int| 0 <= i < way.len() - 1 ==> is_next(tree, #[trigger] way[i], way[i + 1])
}

/// Whether every joint to which joints lead from `link` leads from a link of higher rank to one of
/// lower rank.
pub open spec fn ranked(
    tree: TreeView,
    link: Seq<char>,
    rank: spec_fn(Seq<char>) -> nat,
) -> bool {
    forall|way: Seq<Seq<char>>, k: int|
        #![trigger is_way(tree, way), tree.children(way.last())[k]]
        is_way(tree, way) && way[0] == link && 0 <= k < tree.children(way.last()).len() ==> rank(
            tree.children(way.last())[k].child,
        ) < rank(way.last())
}

/// Where every joint that a walk can come to leads from a link of higher rank to one of lower
/// rank, so that these joints do not lead round in a circle, the walk ends.
pub proof fn law_ranked_walk_ends(
    tree: TreeView,
    link: Seq<char>,
    rank: spec_fn(Seq<char>) -> nat,
)
    requires
        ranked(tree, link, rank),
    ensures
        walk_ends(tree, link),
{
    lemma_ranked_walk(tree, seq![], seq![link], rank, rank(link) + 1);
    assert(ended(walk(tree, seq![], link, rank(link) + 1)));
}

/// The joints that start at a link are joints of the robot.
pub proof fn lemma_joints_from(joints: Seq<JointView>, parent: Seq<char>, k: int)
    requires
        0 <= k < joints_from(joints, parent).len(),
    ensures
        joints_from(joints, parent)[k].parent == parent,
        joints.contains(joints_from(joints, parent)[k]),
    decreases joints.len(),
{
    reveal(Seq::filter);
    let picked = joints_from(joints, parent);
    let before = joints_from(joints.drop_last(), parent);
    if k < before.len() {
        lemma_joints_from(joints.drop_last(), parent, k);
        let i = choose|i: int| 0 <= i < joints.len() - 1 && joints.drop_last()[i] == before[k];
        assert(joints[i] == picked[k]);
    } else {
        assert(joints[joints.len() - 1] == picked[k]);
    }
}

proof fn lemma_ranked_walk(
    tree: TreeView,
    p: Seq<Seq<char>>,
    way: Seq<Seq<char>>,
    rank: spec_fn(Seq<char>) -> nat,
    depth: nat,
)
    requires
        is_way(tree, way),
        ranked(tree, way[0], rank),
        rank(way.last()) < depth,
    ensures
        ended(walk(tree, p, way.last(), depth)),
    decreases depth, 0nat,
{
    let link = way.last();
    if tree.link(link) is Some {
        lemma_link_ended(tree, tree.link(link)->0, p.push(link));
        lemma_ranked_joints(
            tree,
            p.push(link),
            way,
            tree.children(link).len(),
            rank,
            (depth - 1) as nat,
        );
    }
}

proof fn lemma_ranked_joints(
    tree: TreeView,
    p: Seq<Seq<char>>,
    way: Seq<Seq<char>>,
    n: nat,
    rank: spec_fn(Seq<char>) -> nat,
    depth: nat,
)
    requires
        is_way(tree, way),
        ranked(tree, way[0], rank),
        rank(way.last()) <= depth,
        n <= tree.children(way.last()).len(),
    ensures
        ended(walk_joints(tree, p, tree.children(way.last()), n, depth)),
    decreases depth, n + 1,
{
    if n > 0 {
        let joints = tree.children(way.last());
        let joint = joints[n - 1];
        let longer = way.push(joint.child);
        lemma_ranked_joints(tree, p, way, (n - 1) as nat, rank, depth);
        assert forall|i: int| 0 <= i < longer.len() - 1 implies is_next(
            tree,
            #[trigger] longer[i],
            longer[i + 1],
        ) by {
            if i < way.len() - 1 {
                assert(is_next(tree, way[i], way[i + 1]));
            } else {
                assert(tree.children(longer[i])[n - 1].child == longer[i + 1]);
            }
        }
        assert(rank(tree.children(way.last())[n - 1].child) < rank(way.last()));
        lemma_ranked_walk(tree, p.push(joint.name), longer, rank, depth);
    }
}

/// Whether no two joints lead to the same link.
pub open spec fn single_parents(joints: Seq<JointView>) -> bool {
    forall|i: int, k: int|
        0 <= i < joints.len() && 0 <= k < joints.len() && (#[trigger] joints[i]).child == (
        #[trigger] joints[k]).child ==> i == k
}

/// Whether joint `j` leads from the link at position `k` of `chain` to the next.
pub open spec fn leads_on(joints: Seq<JointView>, chain: Seq<Seq<char>>, k: int, j: int) -> bool {
    0 <= j < joints.len() && joints[j].parent == chain[k] && joints[j].child == chain[k + 1]
}

/// Whether some joint leads from the link at position `k` of `chain` to the next.
pub open spec fn some_leads_on(joints: Seq<JointView>, chain: Seq<Seq<char>>, k: int) -> bool {
    exists|j: int| #[trigger] leads_on(joints, chain, k, j)
}

/// Whether joints lead from the root over all the links of `chain`.
pub open spec fn is_chain(tree: TreeView, chain: Seq<Seq<char>>) -> bool {
    &&& chain.len() > 0
    &&& chain[0] == tree.root
    &&& forall|k: int|
        0 <= k < chain.len() - 1 ==> #[trigger] some_leads_on(tree.robot.joints, chain, k)
}

/// A chain from the root does not come to a link twice.
pub proof fn lemma_chain_distinct(tree: TreeView, chain: Seq<Seq<char>>, a: int, b: int)
    requires
        is_chain(tree, chain),
        single_parents(tree.robot.joints),
        !is_child(tree.robot.joints, tree.root),
        0 <= a < b < chain.len(),
    ensures
        chain[a] != chain[b],
    decreases a,
{
    let joints = tree.robot.joints;
    if chain[a] == chain[b] {
        assert(some_leads_on(joints, chain, b - 1));
        let j = choose|j: int| #[trigger] leads_on(joints, chain, b - 1, j);
        if a == 0 {
            assert(joints[j].child == tree.root);
        } else {
            assert(some_leads_on(joints, chain, a - 1));
            let i = choose|i: int| #[trigger] leads_on(joints, chain, a - 1, i);
            assert(joints[i].child == joints[j].child);
            lemma_chain_distinct(tree, chain, a - 1, b - 1);
        }
    }
}

/// A chain from the root over links of the robot is no longer than their number.
proof fn lemma_chain_length(tree: TreeView, chain: Seq<Seq<char>>)
    requires
        is_chain(tree, chain),
        single_parents(tree.robot.joints),
        !is_child(tree.robot.joints, tree.root),
        forall|k: int| 0 <= k < chain.len() ==> tree.link(#[trigger] chain[k]) is Some,
    ensures
        chain.len() <= tree.robot.links.len(),
{
    let names = link_names(tree.robot.links);
    assert forall|a: int, b: int| 0 <= a < chain.len() && 0 <= b < chain.len() && a
        != b implies chain[a] != chain[b] by {
        if a < b {
            lemma_chain_distinct(tree, chain, a, b);
        } else {
            lemma_chain_distinct(tree, chain, b, a);
        }
    }
    assert forall|link: Seq<char>| chain.to_set().contains(link) implies names.to_set().contains(
        link,
    ) by {
        let k = choose|k: int| 0 <= k < chain.len() && chain[k] == link;
        assert(tree.link(chain[k]) is Some);
        law_found_link_has_its_name(tree.robot.links, link);
        let at = choose|at: int|
            0 <= at < tree.robot.links.len() && tree.robot.links[at] == tree.link(link)->0;
        assert(names[at] == link);
    }
    chain.unique_seq_to_set();
    vstd::seq_lib::seq_to_set_is_finite(names);
    names.lemma_cardinality_of_set();
    vstd::set_lib::lemma_len_subset(chain.to_set(), names.to_set());
}

proof fn lemma_tree_walk(tree: TreeView, p: Seq<Seq<char>>, chain: Seq<Seq<char>>, depth: nat)
    requires
        is_chain(tree, chain),
        single_parents(tree.robot.joints),
        !is_child(tree.robot.joints, tree.root),
        forall|k: int| 0 <= k < chain.len() - 1 ==> tree.link(#[trigger] chain[k]) is Some,
        chain.len() + depth > tree.robot.links.len(),
    ensures
        ended(walk(tree, p, chain.last(), depth)),
    decreases depth, 0nat,
{
    let link = chain.last();
    if tree.link(link) is Some {
        assert(forall|k: int| 0 <= k < chain.len() ==> tree.link(#[trigger] chain[k]) is Some);
        lemma_chain_length(tree, chain);
        lemma_link_ended(tree, tree.link(link)->0, p.push(link));
        let joints = tree.children(link);
        lemma_tree_joints(tree, p.push(link), chain, joints.len(), (depth - 1) as nat);
    }
}

proof fn lemma_tree_joints(
    tree: TreeView,
    p: Seq<Seq<char>>,
    chain: Seq<Seq<char>>,
    n: nat,
    depth: nat,
)
    requires
        is_chain(tree, chain),
        single_parents(tree.robot.joints),
        !is_child(tree.robot.joints, tree.root),
        forall|k: int| 0 <= k < chain.len() ==> tree.link(#[trigger] chain[k]) is Some,
        chain.len() + 1 + depth > tree.robot.links.len(),
        n <= tree.children(chain.last()).len(),
    ensures
        ended(walk_joints(tree, p, tree.children(chain.last()), n, depth)),
    decreases depth, n + 1,
{
    if n > 0 {
        let joints = tree.children(chain.last());
        let joint = joints[n - 1];
        lemma_tree_joints(tree, p, chain, (n - 1) as nat, depth);
        lemma_joints_from(tree.robot.joints, chain.last(), n - 1);
        let j = choose|j: int|
            0 <= j < tree.robot.joints.len() && tree.robot.joints[j] == joint;
        let longer = chain.push(joint.child);
        assert forall|k: int| 0 <= k < longer.len() - 1 implies #[trigger] some_leads_on(
            tree.robot.joints,
            longer,
            k,
        ) by {
            if k < chain.len() - 1 {
                assert(some_leads_on(tree.robot.joints, chain, k));
                let i = choose|i: int| #[trigger] leads_on(tree.robot.joints, chain, k, i);
                assert(leads_on(tree.robot.joints, longer, k, i));
            } else {
                assert(leads_on(tree.robot.joints, longer, k, j));
            }
        }
        lemma_tree_walk(tree, p.push(joint.name), longer, depth);
    }
}

/// Where no two joints lead to the same link, logging the robot ends.
pub proof fn law_single_parents_end(robot: RobotView, urdf_dir: Option<Seq<char>>)
    requires
        single_parents(robot.joints),
    ensures
        robot_log_ends(robot, urdf_dir),
{
    if let Ok(tree) = tree_of(robot, urdf_dir) {
        assert(robot.is_root(tree.root));
        let n = robot.links.len();
        lemma_tree_walk(tree, seq![], seq![tree.root], n);
        assert(ended(walk(tree, seq![], tree.root, n)));
    }
}

} // verus!
