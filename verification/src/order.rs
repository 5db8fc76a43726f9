//! How a robot is made a tree, and in which order the tree is walked.

use vstd::prelude::*;

use crate::ends::{law_depth_does_not_matter, law_walk_ends_within_link_count};
use crate::error::RobotErrorView;
use crate::laws::law_root_is_the_only_one;
use crate::log::{joint_log, link_log, Outcome};
use crate::parts::{
    is_row, law_links_are_logged_shape_by_shape, lemma_row_associates, lemma_row_extends,
    lemma_row_starts,
};
use crate::robot::{JointView, LinkView, RobotView};
use crate::step::{PayloadView, StepView};
use crate::tree::{find_link, find_material, is_child, joints_from, tree_of, TreeView};
use crate::walk::{ended, full_walk, robot_log, walk, walk_ends, walk_joints};

verus! {

/// By its name the last link that has it is found, and none only where none has it.
pub proof fn law_links_are_found_by_name(links: Seq<LinkView>, name: Seq<char>) -> (k: int)
    ensures
        match find_link(links, name) {
            Some(link) => {
                &&& 0 <= k < links.len()
                &&& links[k] == link
                &&& link.name == name
                &&& forall|m: int| k < m < links.len() ==> (#[trigger] links[m]).name != name
            },
            None => forall|m: int| 0 <= m < links.len() ==> (#[trigger] links[m]).name != name,
        },
    decreases links.len(),
{
    if links.len() == 0 {
        0
    } else if links.last().name == name {
        links.len() - 1
    } else {
        let rest = links.drop_last();
        let k = law_links_are_found_by_name(rest, name);
        assert forall|m: int|
            (if find_link(rest, name) is Some {
                k + 1
            } else {
                0
            }) <= m < links.len() implies (#[trigger] links[m]).name != name by {
            if m < rest.len() {
                assert(rest[m].name != name);
            }
        }
        k
    }
}

/// In a tree the links, the joints and the materials of its robot are found, each for itself.
pub proof fn law_trees_hold_their_robot(tree: TreeView, name: Seq<char>)
    ensures
        tree.link(name) == find_link(tree.robot.links, name),
        tree.children(name) == joints_from(tree.robot.joints, name),
        tree.material(name) == find_material(tree.robot.materials, name),
{
}

/// Whether some joint leads to the link `name`.
pub open spec fn hangs_on_a_joint(robot: RobotView, name: Seq<char>) -> bool {
    exists|j: int| 0 <= j < robot.joints.len() && (#[trigger] robot.joints[j]).child == name
}

/// Whether link `i` hangs on nothing.
pub open spec fn is_top(robot: RobotView, i: int) -> bool {
    0 <= i < robot.links.len() && !hangs_on_a_joint(robot, robot.links[i].name)
}

/// Whether all links that hang on nothing have one name.
pub open spec fn one_top(robot: RobotView) -> bool {
    forall|i: int, k: int|
        #[trigger] is_top(robot, i) && #[trigger] is_top(robot, k) ==> robot.links[i].name
            == robot.links[k].name
}

proof fn lemma_top(robot: RobotView, name: Seq<char>) -> (i: int)
    ensures
        robot.is_root(name) ==> is_top(robot, i) && robot.links[i].name == name,
{
    let i = law_links_are_found_by_name(robot.links, name);
    if robot.is_root(name) {
        if hangs_on_a_joint(robot, name) {
            let j = choose|j: int|
                0 <= j < robot.joints.len() && (#[trigger] robot.joints[j]).child == name;
            assert(robot.joints[j].child == name);
        }
    }
    i
}

proof fn lemma_top_is_root(robot: RobotView, i: int)
    ensures
        is_top(robot, i) ==> robot.is_root(robot.links[i].name),
{
    if is_top(robot, i) {
        let name = robot.links[i].name;
        let k = law_links_are_found_by_name(robot.links, name);
        if is_child(robot.joints, name) {
            let j = choose|j: int| 0 <= j < robot.joints.len() && #[trigger] robot.joints[j].child
                == name;
            assert(robot.joints[j].child == name);
            assert(hangs_on_a_joint(robot, name));
        }
    }
}

/// A robot is a tree exactly if some link hangs on no joint, and no other of another name. Where
/// every link hangs on a joint it has no root, where two do not it has more than one, and there is
/// no other error. The root of the tree is that link, and the tree keeps all of the robot.
pub proof fn law_a_tree_has_one_root(
    robot: RobotView,
    urdf_dir: Option<Seq<char>>,
    i: int,
)
    ensures
        match tree_of(robot, urdf_dir) {
            Ok(tree) => {
                &&& (exists|k: int| #[trigger] is_top(robot, k) && robot.links[k].name == tree.root)
                &&& is_top(robot, i) ==> robot.links[i].name == tree.root
                &&& tree.robot == robot
                &&& tree.urdf_dir == urdf_dir
            },
            Err(e) => e == if exists|k: int| #[trigger] is_top(robot, k) {
                RobotErrorView::MultipleRoots
            } else {
                RobotErrorView::NoRoot
            },
        },
        tree_of(robot, urdf_dir) is Ok <==> (exists|k: int| #[trigger] is_top(robot, k))
            && one_top(robot),
{
    assert forall|k: int| #[trigger] is_top(robot, k) implies robot.is_root(
        robot.links[k].name,
    ) by {
        lemma_top_is_root(robot, k);
    }
    match tree_of(robot, urdf_dir) {
        Ok(tree) => {
            law_root_is_the_only_one(robot, urdf_dir, tree.root);
            let k = lemma_top(robot, tree.root);
            assert(is_top(robot, k));
            assert forall|a: int, b: int| #[trigger]
                is_top(robot, a) && #[trigger] is_top(robot, b) implies robot.links[a].name
                == robot.links[b].name by {
                law_root_is_the_only_one(robot, urdf_dir, robot.links[a].name);
                law_root_is_the_only_one(robot, urdf_dir, robot.links[b].name);
            }
            if is_top(robot, i) {
                assert(robot.links[i].name == robot.links[k].name);
            }
        },
        Err(e) => {
            if exists|name: Seq<char>| robot.is_root(name) {
                let (x, y) = choose|x: Seq<char>, y: Seq<char>|
                    x != y && #[trigger] robot.is_root(x) && #[trigger] robot.is_root(y);
                let a = lemma_top(robot, x);
                let b = lemma_top(robot, y);
                assert(is_top(robot, a) && is_top(robot, b));
            }
        },
    }
}

/// The joints that start at a link are all joints of the robot that name it as their parent, in the
/// order in which the robot lists them. `at` are their positions.
pub proof fn law_joints_are_found_in_order(joints: Seq<JointView>, parent: Seq<char>) -> (at: Seq<
    int,
>)
    ensures
        at.len() == joints_from(joints, parent).len(),
        forall|k: int|
            0 <= k < at.len() ==> {
                &&& 0 <= #[trigger] at[k] < joints.len()
                &&& joints_from(joints, parent)[k] == joints[at[k]]
                &&& joints[at[k]].parent == parent
            },
        forall|a: int, b: int| 0 <= a < b < at.len() ==> #[trigger] at[a] < #[trigger] at[b],
        forall|j: int|
            0 <= j < joints.len() && (#[trigger] joints[j]).parent == parent ==> at.contains(j),
    decreases joints.len(),
{
    reveal(Seq::filter);
    if joints.len() == 0 {
        seq![]
    } else {
        let before = joints.drop_last();
        let n = joints.len() - 1;
        let found = law_joints_are_found_in_order(before, parent);
        let at = if joints.last().parent == parent {
            found.push(n)
        } else {
            found
        };
        assert forall|k: int| 0 <= k < at.len() implies {
            &&& 0 <= #[trigger] at[k] < joints.len()
            &&& joints_from(joints, parent)[k] == joints[at[k]]
            &&& joints[at[k]].parent == parent
        } by {
            if k < found.len() {
                assert(0 <= found[k] < before.len());
                assert(before[found[k]] == joints[found[k]]);
            }
        }
        assert forall|j: int|
            0 <= j < joints.len() && (#[trigger] joints[j]).parent == parent implies at.contains(
            j,
        ) by {
            if j < n {
                assert(before[j].parent == parent);
                let k = choose|k: int| 0 <= k < found.len() && found[k] == j;
                assert(at[k] == j);
            } else {
                assert(at[found.len() as int] == j);
            }
        }
        at
    }
}

/// What a joint adds to the walk: its own steps, for an entity under that of the link it starts at,
/// and behind them the walk from the link it leads to, under the entity of the joint.
pub open spec fn branch(
    tree: TreeView,
    link_path: Seq<Seq<char>>,
    joint: JointView,
    depth: nat,
) -> Outcome {
    let path = link_path + seq![joint.name];
    let below = walk(tree, path, joint.child, depth);
    Outcome { steps: joint_log(path, joint) + below.steps, error: below.error }
}

proof fn lemma_joints_row(
    tree: TreeView,
    p: Seq<Seq<char>>,
    joints: Seq<JointView>,
    n: nat,
    depth: nat,
    first: Outcome,
) -> (cuts: Seq<int>)
    requires
        first.error is None,
        n <= joints.len(),
    ensures
        is_row(
            first.and_next(walk_joints(tree, p, joints, n, depth)),
            first.steps.len() as int,
            Seq::new(joints.len(), |k: int| branch(tree, p, joints[k], depth)).take(n as int),
            cuts,
        ),
    decreases n,
{
    let parts = Seq::new(joints.len(), |k: int| branch(tree, p, joints[k], depth));
    if n == 0 {
        assert(parts.take(0) =~= seq![]);
        lemma_row_starts(first)
    } else {
        let k = (n - 1) as nat;
        let joint = joints[k as int];
        let path = p.push(joint.name);
        assert(path =~= p + seq![joint.name]);
        let cuts = lemma_joints_row(tree, p, joints, k, depth, first);
        let before = walk_joints(tree, p, joints, k, depth);
        let own = Outcome::fine(joint_log(path, joint));
        let below = walk(tree, path, joint.child, depth);
        let next = branch(tree, p, joint, depth);
        assert(own.and_next(below) == next);
        lemma_row_associates(before, own, below);
        lemma_row_associates(first, before, next);
        let longer = lemma_row_extends(
            first.and_next(before),
            first.steps.len() as int,
            parts.take(k as int),
            next,
            cuts,
        );
        assert(parts.take(n as int) =~= parts.take(k as int).push(next));
        longer
    }
}

/// A walk that would pass over more links than it is allowed says so behind its first link, one
/// whose link is missing says that, and one whose link goes wrong ends there.
pub proof fn law_walks_end_where_they_must(
    tree: TreeView,
    parent_path: Seq<Seq<char>>,
    link: Seq<char>,
    depth: nat,
)
    ensures
        ({
            let whole = walk(tree, parent_path, link, depth);
            match tree.link(link) {
                None => whole.steps.len() == 0 && whole.error == Some(
                    RobotErrorView::MissingLink(link),
                ),
                Some(found) => {
                    let own = link_log(tree, found, parent_path + seq![link]);
                    &&& own.error is Some ==> whole == own
                    &&& own.error is None && depth == 0 ==> whole.steps == own.steps && whole.error
                        == Some(RobotErrorView::EndlessWalk)
                },
            }
        }),
{
    assert(parent_path.push(link) =~= parent_path + seq![link]);
    if let Some(found) = tree.link(link) {
        let own = link_log(tree, found, parent_path + seq![link]);
        assert(own.steps + Seq::<StepView>::empty() =~= own.steps);
    }
}

/// A walk is the steps of its link, for an entity that has the name of the link, and then of all
/// joints that start there, one behind the other in their order, each with the walk from the link
/// it leads to, up to the first that goes wrong. There is nothing else.
pub proof fn law_walks_go_joint_by_joint(
    tree: TreeView,
    parent_path: Seq<Seq<char>>,
    link: Seq<char>,
    depth: nat,
) -> (cuts: Seq<int>)
    requires
        tree.link(link) is Some,
        link_log(tree, tree.link(link)->0, parent_path + seq![link]).error is None,
    ensures
        ({
            let path = parent_path + seq![link];
            let own = link_log(tree, tree.link(link)->0, path).steps;
            let whole = walk(tree, parent_path, link, depth + 1);
            &&& own.len() <= whole.steps.len()
            &&& whole.steps.take(own.len() as int) == own
            &&& is_row(
                whole,
                own.len() as int,
                Seq::new(
                    tree.children(link).len(),
                    |k: int| branch(tree, path, tree.children(link)[k], depth),
                ),
                cuts,
            )
        }),
{
    let path = parent_path + seq![link];
    assert(parent_path.push(link) =~= path);
    let own = link_log(tree, tree.link(link)->0, path);
    let joints = tree.children(link);
    let parts = Seq::new(joints.len(), |k: int| branch(tree, path, joints[k], depth));
    let cuts = lemma_joints_row(tree, path, joints, joints.len(), depth, own);
    let whole = walk(tree, parent_path, link, depth + 1);
    assert(whole.steps.take(own.steps.len() as int) =~= own.steps);
    assert(parts.take(joints.len() as int) =~= parts);
    cuts
}

/// As `branch`, where no bound is set to how deep the walk goes.
pub open spec fn full_branch(
    tree: TreeView,
    link_path: Seq<Seq<char>>,
    joint: JointView,
) -> Outcome {
    let path = link_path + seq![joint.name];
    let below = full_walk(tree, path, joint.child);
    Outcome { steps: joint_log(path, joint) + below.steps, error: below.error }
}

/// A walk that ends is the steps of its link and then of all joints that start there, one behind
/// the other in their order, each with the walk from the link it leads to, up to the first that
/// goes wrong.
pub proof fn law_full_walks_go_joint_by_joint(
    tree: TreeView,
    parent_path: Seq<Seq<char>>,
    link: Seq<char>,
) -> (cuts: Seq<int>)
    requires
        ended(full_walk(tree, parent_path, link)),
        tree.link(link) is Some,
        link_log(tree, tree.link(link)->0, parent_path + seq![link]).error is None,
    ensures
        ({
            let path = parent_path + seq![link];
            let own = link_log(tree, tree.link(link)->0, path).steps;
            let whole = full_walk(tree, parent_path, link);
            &&& own.len() <= whole.steps.len()
            &&& whole.steps.take(own.len() as int) == own
            &&& is_row(
                whole,
                own.len() as int,
                Seq::new(
                    tree.children(link).len(),
                    |k: int| full_branch(tree, path, tree.children(link)[k]),
                ),
                cuts,
            )
        }),
{
    let path = parent_path + seq![link];
    let joints = tree.children(link);
    let k = law_links_are_found_by_name(tree.robot.links, link);
    let depth = (tree.robot.links.len() - 1) as nat;
    let cuts = law_walks_go_joint_by_joint(tree, parent_path, link, depth);
    let whole = full_walk(tree, parent_path, link);
    let own = link_log(tree, tree.link(link)->0, path).steps;
    let a = Seq::new(joints.len(), |k: int| branch(tree, path, joints[k], depth));
    let b = Seq::new(joints.len(), |k: int| full_branch(tree, path, joints[k]));
    let n = cuts.len() - 1;
    reveal(is_row);
    assert forall|k: int| 0 <= k < n implies #[trigger] a[k] == b[k] by {
        assert(own.len() <= cuts[k]);
        assert(ended(a[k]));
        law_depth_does_not_matter(tree, path + seq![joints[k].name], joints[k].child, depth);
    }
    assert forall|k: int| 0 <= k < n implies {
        &&& own.len() <= #[trigger] cuts[k] <= cuts[k + 1] <= whole.steps.len()
        &&& whole.steps.subrange(cuts[k], cuts[k + 1]) == b[k].steps
        &&& k < n - 1 ==> b[k].error is None
    } by {
        assert(a[k] == b[k]);
    }
    if n > 0 {
        assert(a[n - 1] == b[n - 1]);
    }
    assert(is_row(whole, own.len() as int, b, cuts));
    cuts
}

/// Logging a robot is the walk from the link that hangs on nothing, under an entity that has the
/// name of the robot. A robot that is no tree is not walked.
pub proof fn law_robots_are_walked_from_their_root(
    robot: RobotView,
    urdf_dir: Option<Seq<char>>,
)
    ensures
        match tree_of(robot, urdf_dir) {
            Ok(tree) => {
                let whole = robot_log(robot, urdf_dir);
                &&& whole == full_walk(tree, seq![robot.name], tree.root)
                &&& whole.steps.len() > 0
                &&& find_link(robot.links, tree.root) is Some
                &&& whole.steps[0] == (StepView::Send {
                    entity_path: seq![robot.name, tree.root],
                    payload: PayloadView::DebugText {
                        component: "inertial"@,
                        text: find_link(robot.links, tree.root)->0.inertial,
                    },
                })
            },
            Err(e) => robot_log(robot, urdf_dir).steps.len() == 0 && robot_log(
                robot,
                urdf_dir,
            ).error == Some(e),
        },
{
    if let Ok(tree) = tree_of(robot, urdf_dir) {
        law_root_is_the_only_one(robot, urdf_dir, tree.root);
        let path = seq![robot.name].push(tree.root);
        assert(path =~= seq![robot.name, tree.root]);
        let found = find_link(robot.links, tree.root)->0;
        let own = link_log(tree, found, path).steps;
        let cuts = law_links_are_logged_shape_by_shape(tree, found, path);
        assert(robot_log(robot, urdf_dir).steps[0] == own[0]);
    }
}

/// A walk is allowed to pass over as many links one below the other as the robot lists. More than
/// that is never needed: whatever ends at all ends within that.
pub proof fn law_walks_are_deep_enough(
    tree: TreeView,
    parent_path: Seq<Seq<char>>,
    link: Seq<char>,
    depth: nat,
)
    ensures
        walk(tree, parent_path, link, depth).error != Some(RobotErrorView::EndlessWalk)
            ==> full_walk(tree, parent_path, link) == walk(tree, parent_path, link, depth)
            && walk_ends(tree, link),
{
    if ended(walk(tree, parent_path, link, depth)) {
        law_depth_does_not_matter(tree, parent_path, link, depth);
        law_walk_ends_within_link_count(tree, parent_path, link);
    }
}

} // verus!
