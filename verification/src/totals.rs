//! How much a walk logs in all.

use vstd::prelude::*;

use crate::ends::{is_next, is_way, law_found_link_has_its_name, single_parents};
use crate::laws::{
    distinct_names, law_distinct_links_are_found, law_every_reached_link_is_logged,
    law_root_is_the_only_one,
};
use crate::log::{joint_log, link_log, text_sent, transform_log};
use crate::once::{
    is_text_of, law_reached_links_are_logged_once, leads_to, lemma_at_least_once,
    lemma_joint_texts, lemma_link_texts, lemma_never, lemma_times_add, no_text, of_joint, of_link,
    times,
};
use crate::robot::{JointView, LinkView, RobotView};
use crate::step::{PayloadView, StepView};
use crate::tree::{is_child, joints_from, tree_of, TreeView};
use crate::walk::{full_walk, robot_log, walk, walk_joints};

verus! {

/// Whether a step sends a text under the name of a component.
pub open spec fn is_text(step: StepView, component: Seq<char>) -> bool {
    step matches StepView::Send { payload: PayloadView::DebugText { component: own, .. }, .. }
        && own == component
}

/// Tells the steps that log a link.
pub open spec fn of_links() -> spec_fn(StepView) -> bool {
    |step: StepView| is_text(step, "inertial"@)
}

/// Tells the steps that log a joint.
pub open spec fn of_joints() -> spec_fn(StepView) -> bool {
    |step: StepView| is_text(step, "joint_type"@)
}

/// Tells the steps that log a link with one of the given names.
spec fn of_named(names: Seq<Seq<char>>) -> spec_fn(StepView) -> bool {
    |step: StepView|
        exists|i: int| 0 <= i < names.len() && is_text_of(step, "inertial"@, #[trigger] names[i])
}

proof fn lemma_same_times(
    steps: Seq<StepView>,
    a: spec_fn(StepView) -> bool,
    b: spec_fn(StepView) -> bool,
)
    requires
        forall|i: int| 0 <= i < steps.len() ==> a(#[trigger] steps[i]) == b(steps[i]),
    ensures
        times(steps, a) == times(steps, b),
    decreases steps.len(),
{
    reveal(Seq::filter);
    if steps.len() > 0 {
        assert(forall|i: int|
            0 <= i < steps.len() - 1 ==> #[trigger] steps.drop_last()[i] == steps[i]);
        lemma_same_times(steps.drop_last(), a, b);
        assert(a(steps[steps.len() - 1]) == b(steps[steps.len() - 1]));
    }
}

proof fn lemma_times_either(
    steps: Seq<StepView>,
    whole: spec_fn(StepView) -> bool,
    a: spec_fn(StepView) -> bool,
    b: spec_fn(StepView) -> bool,
)
    requires
        forall|step: StepView| #[trigger] whole(step) <==> a(step) || b(step),
        forall|step: StepView| !(#[trigger] a(step) && b(step)),
    ensures
        times(steps, whole) == times(steps, a) + times(steps, b),
    decreases steps.len(),
{
    reveal(Seq::filter);
    if steps.len() > 0 {
        lemma_times_either(steps.drop_last(), whole, a, b);
        assert(whole(steps.last()) <==> a(steps.last()) || b(steps.last()));
    }
}

/// Names that are each logged once are logged as often as there are names.
proof fn lemma_named_total(steps: Seq<StepView>, names: Seq<Seq<char>>)
    requires
        names.no_duplicates(),
        forall|i: int| 0 <= i < names.len() ==> times(steps, of_link(#[trigger] names[i])) == 1,
    ensures
        times(steps, of_named(names)) == names.len(),
    decreases names.len(),
{
    if names.len() == 0 {
        lemma_never(steps, of_named(names));
    } else {
        let rest = names.drop_last();
        let last = names.last();
        assert(last == names[names.len() - 1]);
        assert forall|i: int| 0 <= i < rest.len() implies times(
            steps,
            of_link(#[trigger] rest[i]),
        ) == 1 by {
            assert(rest[i] == names[i]);
        }
        lemma_named_total(steps, rest);
        assert forall|step: StepView| #[trigger] of_named(names)(step) <==> of_named(rest)(step)
            || of_link(last)(step) by {
            if of_named(names)(step) {
                let i = choose|i: int|
                    0 <= i < names.len() && is_text_of(step, "inertial"@, #[trigger] names[i]);
                if i < rest.len() {
                    assert(is_text_of(step, "inertial"@, rest[i]));
                }
            }
            if of_named(rest)(step) {
                let i = choose|i: int|
                    0 <= i < rest.len() && is_text_of(step, "inertial"@, #[trigger] rest[i]);
                assert(is_text_of(step, "inertial"@, names[i]));
            }
        }
        assert forall|step: StepView| !(#[trigger] of_named(rest)(step) && of_link(last)(step)) by {
            if of_named(rest)(step) && of_link(last)(step) {
                let i = choose|i: int|
                    0 <= i < rest.len() && is_text_of(step, "inertial"@, #[trigger] rest[i]);
                assert(names[i] == names[names.len() - 1]);
            }
        }
        lemma_times_either(steps, of_named(names), of_named(rest), of_link(last));
    }
}

/// What is logged of a joint is one joint and no link.
proof fn lemma_joint_totals(path: Seq<Seq<char>>, joint: JointView)
    requires
        path.len() > 0,
    ensures
        times(joint_log(path, joint), of_joints()) == 1,
        times(joint_log(path, joint), of_links()) == 0,
{
    let steps = joint_log(path, joint);
    assert forall|i: int| 0 <= i < steps.len() implies of_joints()(#[trigger] steps[i])
        == of_joint(path.last())(steps[i]) && of_links()(steps[i]) == of_link(path.last())(
        steps[i],
    ) by {
        assert(no_text(steps[i]) || steps[i]->entity_path == path);
    }
    lemma_same_times(steps, of_joints(), of_joint(path.last()));
    lemma_same_times(steps, of_links(), of_link(path.last()));
    lemma_joint_texts(path, joint, "joint_type"@, path.last());
    lemma_joint_texts(path, joint, "inertial"@, path.last());
    lemma_at_least_once(
        steps,
        of_joint(path.last()),
        transform_log(path, joint.origin).len() as int,
    );
    assert("inertial"@ != "joint_type"@) by {
        reveal_strlit("inertial");
        reveal_strlit("joint_type");
        assert("inertial"@[0] != "joint_type"@[0]);
    }
}

/// What is logged of a link is one link and no joint.
proof fn lemma_link_totals(tree: TreeView, link: LinkView, path: Seq<Seq<char>>)
    ensures
        times(link_log(tree, link, path).steps, of_links()) == 1,
        times(link_log(tree, link, path).steps, of_joints()) == 0,
{
    let steps = link_log(tree, link, path).steps;
    let first = text_sent(path, "inertial"@, link.inertial);
    lemma_link_texts(tree, link, path, of_links());
    lemma_link_texts(tree, link, path, of_joints());
    assert(steps[0] == first);
    lemma_at_least_once(steps, of_links(), 0);
    assert("inertial"@ != "joint_type"@) by {
        reveal_strlit("inertial");
        reveal_strlit("joint_type");
        assert("inertial"@[0] != "joint_type"@[0]);
    }
}

proof fn lemma_walk_totals(tree: TreeView, p: Seq<Seq<char>>, link: Seq<char>, depth: nat)
    requires
        walk(tree, p, link, depth).error is None,
    ensures
        times(walk(tree, p, link, depth).steps, of_links()) == times(
            walk(tree, p, link, depth).steps,
            of_joints(),
        ) + 1,
    decreases depth, 0nat,
{
    let path = p.push(link);
    let own = link_log(tree, tree.link(link)->0, path);
    let joints = tree.children(link);
    let below = walk_joints(tree, path, joints, joints.len(), (depth - 1) as nat);
    lemma_link_totals(tree, tree.link(link)->0, path);
    lemma_joints_totals(tree, path, joints, joints.len(), (depth - 1) as nat);
    lemma_times_add(own.steps, below.steps, of_links());
    lemma_times_add(own.steps, below.steps, of_joints());
}

proof fn lemma_joints_totals(
    tree: TreeView,
    p: Seq<Seq<char>>,
    joints: Seq<JointView>,
    n: nat,
    depth: nat,
)
    requires
        walk_joints(tree, p, joints, n, depth).error is None,
    ensures
        times(walk_joints(tree, p, joints, n, depth).steps, of_links()) == times(
            walk_joints(tree, p, joints, n, depth).steps,
            of_joints(),
        ),
    decreases depth, n + 1,
{
    lemma_never(seq![], of_links());
    lemma_never(seq![], of_joints());
    if n > 0 {
        let joint = joints[n - 1];
        let path = p.push(joint.name);
        let before = walk_joints(tree, p, joints, (n - 1) as nat, depth).steps;
        let own = joint_log(path, joint);
        let below = walk(tree, path, joint.child, depth).steps;
        lemma_joints_totals(tree, p, joints, (n - 1) as nat, depth);
        lemma_joint_totals(path, joint);
        lemma_walk_totals(tree, path, joint.child, depth);
        lemma_times_add(before, own, of_links());
        lemma_times_add(before, own, of_joints());
        lemma_times_add(before + own, below, of_links());
        lemma_times_add(before + own, below, of_joints());
    }
}

/// A walk that does not break off logs one link more than joints.
pub proof fn law_one_link_more_than_joints(
    tree: TreeView,
    parent_path: Seq<Seq<char>>,
    link: Seq<char>,
)
    requires
        full_walk(tree, parent_path, link).error is None,
    ensures
        times(full_walk(tree, parent_path, link).steps, of_links()) == times(
            full_walk(tree, parent_path, link).steps,
            of_joints(),
        ) + 1,
{
    lemma_walk_totals(tree, parent_path, link, tree.robot.links.len());
}

/// Whether a step that logs a link logs one that the robot has.
spec fn names_a_link(tree: TreeView, step: StepView) -> bool {
    is_text(step, "inertial"@) ==> step->entity_path.len() > 0 && tree.link(
        step->entity_path.last(),
    ) is Some
}

spec fn name_links(tree: TreeView, steps: Seq<StepView>) -> bool {
    forall|i: int| 0 <= i < steps.len() ==> names_a_link(tree, #[trigger] steps[i])
}

proof fn lemma_walk_names(tree: TreeView, p: Seq<Seq<char>>, link: Seq<char>, depth: nat)
    ensures
        name_links(tree, walk(tree, p, link, depth).steps),
    decreases depth, 0nat,
{
    if let Some(found) = tree.link(link) {
        let path = p.push(link);
        let joints = tree.children(link);
        lemma_link_names(tree, found, path);
        if depth > 0 {
            lemma_joints_names(tree, path, joints, joints.len(), (depth - 1) as nat);
        }
    }
}

proof fn lemma_link_names(tree: TreeView, link: LinkView, path: Seq<Seq<char>>)
    requires
        path.len() > 0,
        tree.link(path.last()) is Some,
    ensures
        name_links(tree, link_log(tree, link, path).steps),
{
    let steps = link_log(tree, link, path).steps;
    lemma_link_totals(tree, link, path);
    assert forall|i: int| 0 <= i < steps.len() implies names_a_link(tree, #[trigger] steps[i]) by {
        assert(steps[0] == text_sent(path, "inertial"@, link.inertial));
        if i > 0 && of_links()(steps[i]) {
            let head = steps.take(i);
            let tail = steps.skip(i);
            assert(steps =~= head + tail);
            assert(head[0] == steps[0]);
            assert(tail[0] == steps[i]);
            lemma_times_add(head, tail, of_links());
            lemma_at_least_once(head, of_links(), 0);
            lemma_at_least_once(tail, of_links(), 0);
        }
    }
}

proof fn lemma_joints_names(
    tree: TreeView,
    p: Seq<Seq<char>>,
    joints: Seq<JointView>,
    n: nat,
    depth: nat,
)
    ensures
        name_links(tree, walk_joints(tree, p, joints, n, depth).steps),
    decreases depth, n + 1,
{
    if n > 0 {
        let joint = joints[n - 1];
        let path = p.push(joint.name);
        let own = joint_log(path, joint);
        lemma_joints_names(tree, p, joints, (n - 1) as nat, depth);
        lemma_walk_names(tree, path, joint.child, depth);
        lemma_joint_totals(path, joint);
        assert forall|i: int| 0 <= i < own.len() implies names_a_link(tree, #[trigger] own[i]) by {
            if of_links()(own[i]) {
                lemma_at_least_once(own, of_links(), i);
            }
        }
    }
}

/// Whether joints lead from the root of a robot to all its links, and every joint starts at one of
/// them.
pub open spec fn hangs_together(tree: TreeView) -> bool {
    &&& forall|i: int|
        0 <= i < tree.robot.links.len() ==> leads_to(
            tree,
            tree.root,
            (#[trigger] tree.robot.links[i]).name,
        )
    &&& forall|j: int|
        0 <= j < tree.robot.joints.len() ==> tree.link((#[trigger] tree.robot.joints[j]).parent)
            is Some
}

proof fn lemma_joint_starts(joints: Seq<JointView>, j: int) -> (k: int)
    requires
        0 <= j < joints.len(),
    ensures
        0 <= k < joints_from(joints, joints[j].parent).len(),
        joints_from(joints, joints[j].parent)[k] == joints[j],
    decreases joints.len(),
{
    reveal(Seq::filter);
    let before = joints.drop_last();
    if j == joints.len() - 1 {
        joints_from(before, joints[j].parent).len() as int
    } else {
        assert(before[j] == joints[j]);
        lemma_joint_starts(before, j)
    }
}

/// A joint that starts at a link that is reached leads to a link that the robot has.
proof fn lemma_child_is_a_link(robot: RobotView, urdf_dir: Option<Seq<char>>, j: int)
    requires
        robot_log(robot, urdf_dir).error is None,
        hangs_together(tree_of(robot, urdf_dir)->Ok_0),
        0 <= j < robot.joints.len(),
    ensures
        tree_of(robot, urdf_dir)->Ok_0.link(robot.joints[j].child) is Some,
{
    let tree = tree_of(robot, urdf_dir)->Ok_0;
    let joint = robot.joints[j];
    assert(tree.link(tree.robot.joints[j].parent) is Some);
    law_found_link_has_its_name(robot.links, joint.parent);
    let i = choose|i: int| 0 <= i < robot.links.len() && robot.links[i].name == joint.parent;
    assert(leads_to(tree, tree.root, tree.robot.links[i].name));
    let way = choose|way: Seq<Seq<char>>| #[trigger]
        is_way(tree, way) && way[0] == tree.root && way.last() == joint.parent;
    let k = lemma_joint_starts(robot.joints, j);
    assert(tree.children(joint.parent)[k] == joint);
    let longer = way.push(joint.child);
    assert forall|m: int| 0 <= m < longer.len() - 1 implies is_next(
        tree,
        #[trigger] longer[m],
        longer[m + 1],
    ) by {
        if m < way.len() - 1 {
            assert(is_next(tree, way[m], way[m + 1]));
        }
    }
    assert(is_way(tree, longer));
    let at = law_every_reached_link_is_logged(tree, seq![robot.name], longer);
}

/// A tree has one link more than joints.
proof fn lemma_one_joint_less(robot: RobotView, urdf_dir: Option<Seq<char>>)
    requires
        single_parents(robot.joints),
        distinct_names(robot.links),
        robot_log(robot, urdf_dir).error is None,
        hangs_together(tree_of(robot, urdf_dir)->Ok_0),
    ensures
        robot.links.len() == robot.joints.len() + 1,
{
    let tree = tree_of(robot, urdf_dir)->Ok_0;
    let names = robot.links.map_values(|link: LinkView| link.name);
    let children = robot.joints.map_values(|joint: JointView| joint.child);
    let ends = children.push(tree.root);
    law_root_is_the_only_one(robot, urdf_dir, tree.root);
    assert(names.no_duplicates()) by {
        assert forall|a: int, b: int| 0 <= a < b < names.len() implies names[a] != names[b] by {
            assert(robot.links[a].name == names[a] && robot.links[b].name == names[b]);
        }
    }
    assert(ends.no_duplicates()) by {
        assert forall|a: int, b: int| 0 <= a < b < ends.len() implies ends[a] != ends[b] by {
            assert(robot.joints[a].child == ends[a]);
            if b < children.len() {
                assert(robot.joints[b].child == ends[b]);
            }
        }
    }
    assert forall|name: Seq<char>| ends.contains(name) implies names.contains(name) by {
        let a = choose|a: int| 0 <= a < ends.len() && ends[a] == name;
        if a < children.len() {
            lemma_child_is_a_link(robot, urdf_dir, a);
        }
        law_found_link_has_its_name(robot.links, name);
        let i = choose|i: int| 0 <= i < robot.links.len() && robot.links[i].name == name;
        assert(names[i] == name);
    }
    assert forall|name: Seq<char>| names.contains(name) implies ends.contains(name) by {
        let i = choose|i: int| 0 <= i < names.len() && names[i] == name;
        law_distinct_links_are_found(robot.links, i);
        if is_child(robot.joints, name) {
            let j = choose|j: int|
                0 <= j < robot.joints.len() && #[trigger] robot.joints[j].child == name;
            assert(ends[j] == name);
        } else {
            law_root_is_the_only_one(robot, urdf_dir, name);
            assert(ends[children.len() as int] == name);
        }
    }
    assert(names.to_set() =~= ends.to_set());
    names.unique_seq_to_set();
    ends.unique_seq_to_set();
}

/// Of a robot that is a tree, logged to its end, as many links are logged as the robot has, and as
/// many joints: no two links have the same name, no two joints lead to the same link, joints lead
/// from the root to every link, and every joint starts at a link.
pub proof fn law_a_tree_is_logged_in_full(robot: RobotView, urdf_dir: Option<Seq<char>>)
    requires
        single_parents(robot.joints),
        distinct_names(robot.links),
        robot_log(robot, urdf_dir).error is None,
        hangs_together(tree_of(robot, urdf_dir)->Ok_0),
    ensures
        times(robot_log(robot, urdf_dir).steps, of_links()) == robot.links.len(),
        times(robot_log(robot, urdf_dir).steps, of_joints()) == robot.joints.len(),
{
    let tree = tree_of(robot, urdf_dir)->Ok_0;
    let steps = robot_log(robot, urdf_dir).steps;
    let names = robot.links.map_values(|link: LinkView| link.name);
    assert forall|a: int, b: int| 0 <= a < b < names.len() implies names[a] != names[b] by {
        assert(robot.links[a].name == names[a] && robot.links[b].name == names[b]);
    }
    assert forall|i: int| 0 <= i < names.len() implies times(
        steps,
        of_link(#[trigger] names[i]),
    ) == 1 by {
        assert(leads_to(tree, tree.root, tree.robot.links[i].name));
        let way = choose|way: Seq<Seq<char>>| #[trigger]
            is_way(tree, way) && way[0] == tree.root && way.last() == names[i];
        law_reached_links_are_logged_once(robot, urdf_dir, way);
    }
    lemma_named_total(steps, names);
    lemma_walk_names(tree, seq![robot.name], tree.root, robot.links.len());
    assert forall|i: int| 0 <= i < steps.len() implies of_links()(#[trigger] steps[i])
        == of_named(names)(steps[i]) by {
        assert(names_a_link(tree, steps[i]));
        if of_links()(steps[i]) {
            let name = steps[i]->entity_path.last();
            law_found_link_has_its_name(robot.links, name);
            let k = choose|k: int| 0 <= k < robot.links.len() && robot.links[k].name == name;
            assert(is_text_of(steps[i], "inertial"@, names[k]));
        }
    }
    lemma_same_times(steps, of_links(), of_named(names));
    law_one_link_more_than_joints(tree, seq![robot.name], tree.root);
    lemma_one_joint_less(robot, urdf_dir);
}

} // verus!
