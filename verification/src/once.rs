//! How often a walk logs one thing.

use vstd::prelude::*;

use crate::ends::{
    is_chain, is_next, is_way, leads_on, lemma_chain_distinct, lemma_joints_from, single_parents,
    some_leads_on,
};
use crate::error::RobotErrorView;
use crate::laws::{law_every_joint_is_walked, law_every_reached_link_is_logged};
use crate::log::{
    collision_log, collisions_log, joint_log, link_log, text_sent, text_sent_if_any,
    transform_log, visual_log, visuals_log, Outcome,
};
use crate::robot::{CollisionView, JointView, LinkView, RobotView, VisualView};
use crate::step::{PayloadView, StepView};
use crate::tree::{is_child, joints_from, tree_of, TreeView};
use crate::walk::{full_walk, robot_log, walk, walk_joints};

verus! {

/// The number of steps that are `good`.
pub open spec fn times(steps: Seq<StepView>, good: spec_fn(StepView) -> bool) -> nat {
    steps.filter(good).len()
}

/// Whether a step sends a text under the name of a component, for an entity with the given name.
pub open spec fn is_text_of(step: StepView, component: Seq<char>, name: Seq<char>) -> bool {
    match step {
        StepView::Send { entity_path, payload: PayloadView::DebugText { component: own, .. } } => {
            own == component && entity_path.len() > 0 && entity_path.last() == name
        },
        _ => false,
    }
}

/// Tells the steps that log the link `link`.
pub open spec fn of_link(link: Seq<char>) -> spec_fn(StepView) -> bool {
    |step: StepView| is_text_of(step, "inertial"@, link)
}

/// Tells the steps that log a joint with the name `joint`.
pub open spec fn of_joint(joint: Seq<char>) -> spec_fn(StepView) -> bool {
    |step: StepView| is_text_of(step, "joint_type"@, joint)
}

/// Whether no two joints have the same name.
pub open spec fn distinct_joints(joints: Seq<JointView>) -> bool {
    forall|i: int, k: int|
        0 <= i < joints.len() && 0 <= k < joints.len() && (#[trigger] joints[i]).name == (
        #[trigger] joints[k]).name ==> i == k
}

pub(crate) proof fn lemma_times_add(
    a: Seq<StepView>,
    b: Seq<StepView>,
    good: spec_fn(StepView) -> bool,
)
    ensures
        times(a + b, good) == times(a, good) + times(b, good),
{
    Seq::filter_distributes_over_add(a, b, good);
}

proof fn lemma_times_next(a: Outcome, b: Outcome, good: spec_fn(StepView) -> bool)
    ensures
        times(a.and_next(b).steps, good) <= times(a.steps, good) + times(b.steps, good),
{
    lemma_times_add(a.steps, b.steps, good);
}

pub(crate) proof fn lemma_never(steps: Seq<StepView>, good: spec_fn(StepView) -> bool)
    requires
        forall|i: int| 0 <= i < steps.len() ==> !good(#[trigger] steps[i]),
    ensures
        times(steps, good) == 0,
    decreases steps.len(),
{
    reveal(Seq::filter);
    if steps.len() > 0 {
        assert(forall|i: int|
            0 <= i < steps.len() - 1 ==> steps.drop_last()[i] == steps[i]);
        lemma_never(steps.drop_last(), good);
        assert(!good(steps[steps.len() - 1]));
    }
}

pub(crate) proof fn lemma_at_least_once(
    steps: Seq<StepView>,
    good: spec_fn(StepView) -> bool,
    i: int,
)
    requires
        0 <= i < steps.len(),
        good(steps[i]),
    ensures
        times(steps, good) >= 1,
    decreases steps.len(),
{
    reveal(Seq::filter);
    if i < steps.len() - 1 {
        assert(steps.drop_last()[i] == steps[i]);
        lemma_at_least_once(steps.drop_last(), good, i);
    }
}

/// Whether a step sends no text.
pub open spec fn no_text(step: StepView) -> bool {
    !(step matches StepView::Send { payload: PayloadView::DebugText { .. }, .. })
}

spec fn no_texts(steps: Seq<StepView>) -> bool {
    forall|i: int| 0 <= i < steps.len() ==> no_text(#[trigger] steps[i])
}

proof fn lemma_visuals_no_texts(
    tree: TreeView,
    path: Seq<Seq<char>>,
    visuals: Seq<VisualView>,
    n: nat,
)
    ensures
        no_texts(visuals_log(tree, path, visuals, n).steps),
    decreases n,
{
    if n > 0 {
        lemma_visuals_no_texts(tree, path, visuals, (n - 1) as nat);
        assert(no_texts(visual_log(tree, path, visuals[n - 1], (n - 1) as nat).steps));
    }
}

proof fn lemma_collisions_no_texts(
    tree: TreeView,
    path: Seq<Seq<char>>,
    collisions: Seq<CollisionView>,
    n: nat,
)
    ensures
        no_texts(collisions_log(tree, path, collisions, n).steps),
    decreases n,
{
    if n > 0 {
        lemma_collisions_no_texts(tree, path, collisions, (n - 1) as nat);
        assert(no_texts(collision_log(tree, path, collisions[n - 1], (n - 1) as nat).steps));
    }
}

/// The first step that logs a link is its only text.
pub(crate) proof fn lemma_link_texts(
    tree: TreeView,
    link: LinkView,
    path: Seq<Seq<char>>,
    good: spec_fn(StepView) -> bool,
)
    requires
        forall|step: StepView| #[trigger] good(step) ==> !no_text(step),
    ensures
        times(link_log(tree, link, path).steps, good) <= if good(
            text_sent(path, "inertial"@, link.inertial),
        ) {
            1nat
        } else {
            0nat
        },
{
    let first = seq![text_sent(path, "inertial"@, link.inertial)];
    let visuals = visuals_log(tree, path, link.visual, link.visual.len());
    let collisions = collisions_log(tree, path, link.collision, link.collision.len());
    lemma_visuals_no_texts(tree, path, link.visual, link.visual.len());
    lemma_collisions_no_texts(tree, path, link.collision, link.collision.len());
    lemma_never(visuals.steps, good);
    lemma_never(collisions.steps, good);
    reveal(Seq::filter);
    assert(first.drop_last() =~= seq![]);
    assert(times(first.drop_last(), good) == 0);
    lemma_times_next(Outcome::fine(first), visuals, good);
    lemma_times_next(Outcome::fine(first).and_next(visuals), collisions, good);
}

/// Whether joints lead from the link `from` to the link `to`.
pub open spec fn leads_to(tree: TreeView, from: Seq<char>, to: Seq<char>) -> bool {
    exists|way: Seq<Seq<char>>| #[trigger] is_way(tree, way) && way[0] == from && way.last() == to
}

/// What makes a robot a tree: no two joints lead to the same link, and none to the root.
spec fn is_tree(tree: TreeView) -> bool {
    single_parents(tree.robot.joints) && !is_child(tree.robot.joints, tree.root)
}

proof fn lemma_chain_way(tree: TreeView, chain: Seq<Seq<char>>, way: Seq<Seq<char>>)
    requires
        is_chain(tree, chain),
        is_way(tree, way),
        is_next(tree, chain.last(), way[0]),
    ensures
        is_chain(tree, chain + way),
{
    let joints = tree.robot.joints;
    let both = chain + way;
    assert forall|k: int| 0 <= k < both.len() - 1 implies #[trigger] some_leads_on(
        joints,
        both,
        k,
    ) by {
        if k < chain.len() - 1 {
            assert(some_leads_on(joints, chain, k));
            let j = choose|j: int| #[trigger] leads_on(joints, chain, k, j);
            assert(leads_on(joints, both, k, j));
        } else {
            if k >= chain.len() {
                let i = k - chain.len();
                assert(is_next(tree, way[i], way[i + 1]));
            }
            assert(is_next(tree, both[k], both[k + 1]));
            let m = choose|m: int|
                0 <= m < tree.children(both[k]).len() && (#[trigger] tree.children(
                    both[k],
                )[m]).child == both[k + 1];
            lemma_joints_from(joints, both[k], m);
            let j = choose|j: int|
                0 <= j < joints.len() && joints[j] == tree.children(both[k])[m];
            assert(leads_on(joints, both, k, j));
        }
    }
}

proof fn lemma_chain_shorter(tree: TreeView, chain: Seq<Seq<char>>)
    requires
        is_chain(tree, chain),
        chain.len() > 1,
    ensures
        is_chain(tree, chain.drop_last()),
{
    let shorter = chain.drop_last();
    assert forall|k: int| 0 <= k < shorter.len() - 1 implies #[trigger] some_leads_on(
        tree.robot.joints,
        shorter,
        k,
    ) by {
        assert(some_leads_on(tree.robot.joints, chain, k));
        let j = choose|j: int| #[trigger] leads_on(tree.robot.joints, chain, k, j);
        assert(leads_on(tree.robot.joints, shorter, k, j));
    }
}

/// Only one chain leads from the root of a tree to a link.
proof fn lemma_chain_unique(tree: TreeView, a: Seq<Seq<char>>, b: Seq<Seq<char>>)
    requires
        is_tree(tree),
        is_chain(tree, a),
        is_chain(tree, b),
        a.last() == b.last(),
    ensures
        a == b,
    decreases a.len(),
{
    let joints = tree.robot.joints;
    if a.len() > 1 {
        assert(some_leads_on(joints, a, a.len() - 2));
    }
    if b.len() > 1 {
        assert(some_leads_on(joints, b, b.len() - 2));
    }
    if a.len() > 1 && b.len() > 1 {
        let i = choose|i: int| #[trigger] leads_on(joints, a, a.len() - 2, i);
        let k = choose|k: int| #[trigger] leads_on(joints, b, b.len() - 2, k);
        assert(joints[i].child == joints[k].child);
        lemma_chain_shorter(tree, a);
        lemma_chain_shorter(tree, b);
        lemma_chain_unique(tree, a.drop_last(), b.drop_last());
        assert(a =~= a.drop_last().push(a.last()));
        assert(b =~= b.drop_last().push(b.last()));
    } else if a.len() > 1 {
        let i = choose|i: int| #[trigger] leads_on(joints, a, a.len() - 2, i);
        assert(joints[i].child == tree.root);
    } else if b.len() > 1 {
        let k = choose|k: int| #[trigger] leads_on(joints, b, b.len() - 2, k);
        assert(joints[k].child == tree.root);
    } else {
        assert(a =~= b);
    }
}

/// No two joints that start at a link lead to the same link.
proof fn lemma_children_distinct(
    joints: Seq<JointView>,
    parent: Seq<char>,
    a: int,
    b: int,
)
    requires
        single_parents(joints),
        0 <= a < b < joints_from(joints, parent).len(),
    ensures
        joints_from(joints, parent)[a].child != joints_from(joints, parent)[b].child,
    decreases joints.len(),
{
    reveal(Seq::filter);
    let before = joints.drop_last();
    let picked = joints_from(before, parent);
    assert forall|i: int, k: int|
        0 <= i < before.len() && 0 <= k < before.len() && (#[trigger] before[i]).child == (
        #[trigger] before[k]).child implies i == k by {
        assert(joints[i].child == joints[k].child);
    }
    if b < picked.len() {
        lemma_children_distinct(before, parent, a, b);
    } else {
        lemma_joints_from(before, parent, a);
        let i = choose|i: int| 0 <= i < before.len() && before[i] == picked[a];
        assert(joints[i] == picked[a]);
        assert(joints[joints.len() - 1] == joints.last());
    }
}

/// Of two links right under one link of a tree, not both lead to the same link.
proof fn lemma_one_way(
    tree: TreeView,
    chain: Seq<Seq<char>>,
    a: int,
    b: int,
    target: Seq<char>,
)
    requires
        is_tree(tree),
        is_chain(tree, chain),
        0 <= a < b < tree.children(chain.last()).len(),
        leads_to(tree, tree.children(chain.last())[a].child, target),
    ensures
        !leads_to(tree, tree.children(chain.last())[b].child, target),
{
    let joints = tree.children(chain.last());
    if leads_to(tree, joints[b].child, target) {
        let x = choose|way: Seq<Seq<char>>| #[trigger]
            is_way(tree, way) && way[0] == joints[a].child && way.last() == target;
        let y = choose|way: Seq<Seq<char>>| #[trigger]
            is_way(tree, way) && way[0] == joints[b].child && way.last() == target;
        assert(is_next(tree, chain.last(), x[0]));
        assert(is_next(tree, chain.last(), y[0]));
        lemma_chain_way(tree, chain, x);
        lemma_chain_way(tree, chain, y);
        lemma_chain_unique(tree, chain + x, chain + y);
        assert((chain + x)[chain.len() as int] == x[0]);
        assert((chain + y)[chain.len() as int] == y[0]);
        lemma_children_distinct(tree.robot.joints, chain.last(), a, b);
    }
}

/// In a tree no link leads back to itself.
proof fn lemma_no_way_back(tree: TreeView, chain: Seq<Seq<char>>, a: int)
    requires
        is_tree(tree),
        is_chain(tree, chain),
        0 <= a < tree.children(chain.last()).len(),
    ensures
        !leads_to(tree, tree.children(chain.last())[a].child, chain.last()),
{
    let joints = tree.children(chain.last());
    if leads_to(tree, joints[a].child, chain.last()) {
        let x = choose|way: Seq<Seq<char>>| #[trigger]
            is_way(tree, way) && way[0] == joints[a].child && way.last() == chain.last();
        assert(is_next(tree, chain.last(), x[0]));
        lemma_chain_way(tree, chain, x);
        lemma_chain_distinct(tree, chain + x, chain.len() - 1, (chain + x).len() - 1);
    }
}

proof fn lemma_leads_on(tree: TreeView, link: Seq<char>, k: int, target: Seq<char>)
    requires
        0 <= k < tree.children(link).len(),
        leads_to(tree, tree.children(link)[k].child, target),
    ensures
        leads_to(tree, link, target),
{
    let way = choose|way: Seq<Seq<char>>| #[trigger]
        is_way(tree, way) && way[0] == tree.children(link)[k].child && way.last() == target;
    let longer = seq![link] + way;
    assert forall|i: int| 0 <= i < longer.len() - 1 implies is_next(
        tree,
        #[trigger] longer[i],
        longer[i + 1],
    ) by {
        if i > 0 {
            assert(is_next(tree, way[i - 1], way[i]));
        }
    }
    assert(is_way(tree, longer));
}

/// Whether `good` tells steps that are only taken where the walk comes to the link `target`: with
/// the joint that leads there, or with the link itself, but not with both.
spec fn only_at(tree: TreeView, good: spec_fn(StepView) -> bool, target: Seq<char>) -> bool {
    &&& forall|step: StepView| #[trigger] good(step) ==> !no_text(step)
    &&& forall|p: Seq<Seq<char>>, link: Seq<char>, text: Seq<char>|
        link != target ==> !good(#[trigger] text_sent(p.push(link), "inertial"@, text))
    &&& forall|p: Seq<Seq<char>>, j: int|
        0 <= j < tree.robot.joints.len() ==> times(
            #[trigger] joint_log(p.push(tree.robot.joints[j].name), tree.robot.joints[j]),
            good,
        ) <= if tree.robot.joints[j].child == target {
            1nat
        } else {
            0nat
        }
    &&& never_with_link(good) || never_with_joint(tree, good)
}

spec fn never_with_link(good: spec_fn(StepView) -> bool) -> bool {
    forall|p: Seq<Seq<char>>, text: Seq<char>| !good(#[trigger] text_sent(p, "inertial"@, text))
}

spec fn never_with_joint(tree: TreeView, good: spec_fn(StepView) -> bool) -> bool {
    forall|p: Seq<Seq<char>>, j: int|
        0 <= j < tree.robot.joints.len() ==> times(
            #[trigger] joint_log(p.push(tree.robot.joints[j].name), tree.robot.joints[j]),
            good,
        ) == 0
}

proof fn lemma_walk_times(
    tree: TreeView,
    p: Seq<Seq<char>>,
    chain: Seq<Seq<char>>,
    depth: nat,
    good: spec_fn(StepView) -> bool,
    target: Seq<char>,
)
    requires
        is_tree(tree),
        is_chain(tree, chain),
        only_at(tree, good, target),
    ensures
        times(walk(tree, p, chain.last(), depth).steps, good) <= 1,
        times(walk(tree, p, chain.last(), depth).steps, good) > 0 ==> leads_to(
            tree,
            chain.last(),
            target,
        ),
        chain.last() == target && never_with_link(good) ==> times(
            walk(tree, p, chain.last(), depth).steps,
            good,
        ) == 0,
    decreases depth, 0nat,
{
    let link = chain.last();
    lemma_never(seq![], good);
    if let Some(found) = tree.link(link) {
        let path = p.push(link);
        let own = link_log(tree, found, path);
        let inertial = text_sent(path, "inertial"@, found.inertial);
        lemma_link_texts(tree, found, path, good);
        assert(link != target ==> !good(inertial));
        assert(never_with_link(good) ==> !good(inertial));
        if depth > 0 {
            let joints = tree.children(link);
            let n = joints.len();
            let below = walk_joints(tree, path, joints, n, (depth - 1) as nat);
            lemma_joints_times(tree, path, chain, n, (depth - 1) as nat, good, target);
            lemma_times_next(own, below, good);
            if times(below.steps, good) > 0 {
                let k = choose|k: int|
                    0 <= k < n && leads_to(tree, (#[trigger] joints[k]).child, target);
                lemma_leads_on(tree, link, k, target);
                if link == target {
                    lemma_no_way_back(tree, chain, k);
                }
            }
        } else {
            let broken = Outcome {
                steps: seq![],
                error: Some(RobotErrorView::EndlessWalk),
            };
            lemma_times_next(own, broken, good);
        }
        if link == target {
            assert(is_way(tree, seq![link]));
            assert(seq![link].last() == link);
        }
    }
}

proof fn lemma_joints_times(
    tree: TreeView,
    p: Seq<Seq<char>>,
    chain: Seq<Seq<char>>,
    n: nat,
    depth: nat,
    good: spec_fn(StepView) -> bool,
    target: Seq<char>,
)
    requires
        is_tree(tree),
        is_chain(tree, chain),
        only_at(tree, good, target),
        n <= tree.children(chain.last()).len(),
    ensures
        times(walk_joints(tree, p, tree.children(chain.last()), n, depth).steps, good) <= 1,
        times(walk_joints(tree, p, tree.children(chain.last()), n, depth).steps, good) > 0
            ==> exists|k: int|
            0 <= k < n && leads_to(
                tree,
                (#[trigger] tree.children(chain.last())[k]).child,
                target,
            ),
    decreases depth, n + 1,
{
    lemma_never(seq![], good);
    if n > 0 {
        let joints = tree.children(chain.last());
        let joint = joints[n - 1];
        let path = p.push(joint.name);
        let before = walk_joints(tree, p, joints, (n - 1) as nat, depth);
        let own = Outcome::fine(joint_log(path, joint));
        let below = walk(tree, path, joint.child, depth);
        lemma_joints_times(tree, p, chain, (n - 1) as nat, depth, good, target);
        assert(is_way(tree, seq![joint.child]));
        assert(seq![joint.child].last() == joint.child);
        assert(is_next(tree, chain.last(), joint.child));
        lemma_chain_way(tree, chain, seq![joint.child]);
        let longer = chain + seq![joint.child];
        assert(longer.last() == joint.child);
        lemma_walk_times(tree, path, longer, depth, good, target);
        lemma_joints_from(tree.robot.joints, chain.last(), n - 1);
        let j = choose|j: int|
            0 <= j < tree.robot.joints.len() && tree.robot.joints[j] == joint;
        let j_log = joint_log(p.push(tree.robot.joints[j].name), tree.robot.joints[j]);
        assert(j_log == own.steps);
        lemma_times_next(before, own, good);
        lemma_times_next(before.and_next(own), below, good);
        let here = times(own.steps, good) + times(below.steps, good);
        assert(here <= 1);
        if here > 0 {
            assert(leads_to(tree, joints[n - 1].child, target));
        }
        if times(before.steps, good) > 0 {
            let k = choose|k: int|
                0 <= k < n - 1 && leads_to(tree, (#[trigger] joints[k]).child, target);
            assert(leads_to(tree, joints[k].child, target));
            if here > 0 {
                lemma_one_way(tree, chain, k, n - 1, target);
            }
        }
    }
}

proof fn lemma_optional_text(
    path: Seq<Seq<char>>,
    component: Seq<char>,
    text: Option<Seq<char>>,
    good: spec_fn(StepView) -> bool,
)
    requires
        forall|t: Seq<char>| !good(#[trigger] text_sent(path, component, t)),
    ensures
        times(text_sent_if_any(path, component, text), good) == 0,
{
    lemma_never(text_sent_if_any(path, component, text), good);
}

/// What is logged of a joint has one text of each component.
pub(crate) proof fn lemma_joint_texts(
    path: Seq<Seq<char>>,
    joint: JointView,
    component: Seq<char>,
    name: Seq<char>,
)
    requires
        component == "inertial"@ || component == "joint_type"@,
        path.len() > 0,
    ensures
        times(joint_log(path, joint), |step: StepView| is_text_of(step, component, name))
            <= if component == "joint_type"@ && path.last() == name {
            1nat
        } else {
            0nat
        },
        component == "joint_type"@ && path.last() == name ==> is_text_of(
            joint_log(path, joint)[transform_log(path, joint.origin).len() as int],
            component,
            name,
        ),
{
    reveal_strlit("inertial");
    reveal_strlit("joint_type");
    reveal_strlit("axis");
    reveal_strlit("limit");
    reveal_strlit("calibration");
    reveal_strlit("dynamics");
    reveal_strlit("mimic");
    reveal_strlit("safety_controller");
    let good = |step: StepView| is_text_of(step, component, name);
    let transform = transform_log(path, joint.origin);
    let first = seq![text_sent(path, "joint_type"@, joint.joint_type)];
    let more = seq![
        text_sent(path, "axis"@, joint.axis),
        text_sent(path, "limit"@, joint.limit),
    ];
    let always = seq![
        text_sent(path, "joint_type"@, joint.joint_type),
        text_sent(path, "axis"@, joint.axis),
        text_sent(path, "limit"@, joint.limit),
    ];
    let b = text_sent_if_any(path, "calibration"@, joint.calibration);
    let c = text_sent_if_any(path, "dynamics"@, joint.dynamics);
    let d = text_sent_if_any(path, "mimic"@, joint.mimic);
    let e = text_sent_if_any(path, "safety_controller"@, joint.safety_controller);
    assert(component[0] == 'i' || component[0] == 'j');
    assert("axis"@[0] == 'a' && "limit"@[0] == 'l' && "calibration"@[0] == 'c');
    assert("dynamics"@[0] == 'd' && "mimic"@[0] == 'm' && "safety_controller"@[0] == 's');
    assert("inertial"@[0] == 'i' && "joint_type"@[0] == 'j');
    lemma_never(transform, good);
    lemma_never(more, good);
    lemma_optional_text(path, "calibration"@, joint.calibration, good);
    lemma_optional_text(path, "dynamics"@, joint.dynamics, good);
    lemma_optional_text(path, "mimic"@, joint.mimic, good);
    lemma_optional_text(path, "safety_controller"@, joint.safety_controller, good);
    assert(times(first, good) <= if component == "joint_type"@ && path.last() == name {
        1nat
    } else {
        0nat
    }) by {
        reveal(Seq::filter);
        assert(first.drop_last() =~= seq![]);
        assert(first.drop_last().filter(good) =~= seq![]);
    }
    assert(always =~= first + more);
    lemma_times_add(first, more, good);
    lemma_times_add(transform, always, good);
    lemma_times_add(transform + always, b, good);
    lemma_times_add(transform + always + b, c, good);
    lemma_times_add(transform + always + b + c, d, good);
    lemma_times_add(transform + always + b + c + d, e, good);
    assert(joint_log(path, joint) == transform + always + b + c + d + e);
    assert(joint_log(path, joint)[transform.len() as int] == always[0]);
}

proof fn lemma_robot_times(
    robot: RobotView,
    urdf_dir: Option<Seq<char>>,
    good: spec_fn(StepView) -> bool,
    target: Seq<char>,
)
    requires
        single_parents(robot.joints),
        tree_of(robot, urdf_dir) matches Ok(tree) ==> only_at(tree, good, target),
    ensures
        times(robot_log(robot, urdf_dir).steps, good) <= 1,
{
    lemma_never(seq![], good);
    if let Ok(tree) = tree_of(robot, urdf_dir) {
        assert(robot.is_root(tree.root));
        lemma_walk_times(
            tree,
            seq![robot.name],
            seq![tree.root],
            robot.links.len(),
            good,
            target,
        );
    }
}

/// Where no two joints lead to the same link, no link is logged twice.
pub proof fn law_no_link_is_logged_twice(
    robot: RobotView,
    urdf_dir: Option<Seq<char>>,
    link: Seq<char>,
)
    requires
        single_parents(robot.joints),
    ensures
        times(robot_log(robot, urdf_dir).steps, of_link(link)) <= 1,
{
    let good = of_link(link);
    if let Ok(tree) = tree_of(robot, urdf_dir) {
        assert forall|p: Seq<Seq<char>>, j: int| 0 <= j < tree.robot.joints.len() implies times(
            #[trigger] joint_log(p.push(tree.robot.joints[j].name), tree.robot.joints[j]),
            good,
        ) == 0 by {
            reveal_strlit("inertial");
            reveal_strlit("joint_type");
            let joint = tree.robot.joints[j];
            lemma_joint_texts(p.push(joint.name), joint, "inertial"@, link);
            assert("inertial"@[0] != "joint_type"@[0]);
        }
        assert(never_with_joint(tree, good));
        assert(only_at(tree, good, link));
    }
    lemma_robot_times(robot, urdf_dir, good, link);
}

/// Where no two joints lead to the same link or have the same name, no joint is logged twice.
pub proof fn law_no_joint_is_logged_twice(
    robot: RobotView,
    urdf_dir: Option<Seq<char>>,
    k: int,
)
    requires
        single_parents(robot.joints),
        distinct_joints(robot.joints),
        0 <= k < robot.joints.len(),
    ensures
        times(robot_log(robot, urdf_dir).steps, of_joint(robot.joints[k].name)) <= 1,
{
    let target = robot.joints[k].child;
    let good = of_joint(robot.joints[k].name);
    if let Ok(tree) = tree_of(robot, urdf_dir) {
        assert forall|p: Seq<Seq<char>>, j: int| 0 <= j < tree.robot.joints.len() implies times(
            #[trigger] joint_log(p.push(tree.robot.joints[j].name), tree.robot.joints[j]),
            good,
        ) <= if tree.robot.joints[j].child == target {
            1nat
        } else {
            0nat
        } by {
            let joint = tree.robot.joints[j];
            lemma_joint_texts(p.push(joint.name), joint, "joint_type"@, robot.joints[k].name);
            if joint.name == robot.joints[k].name {
                assert(j == k);
            }
        }
        assert(never_with_link(good)) by {
            reveal_strlit("inertial");
            reveal_strlit("joint_type");
            assert("inertial"@[0] != "joint_type"@[0]);
        }
        assert(only_at(tree, good, target));
    }
    lemma_robot_times(robot, urdf_dir, good, target);
}

/// Where no two joints lead to the same link, logging a robot to its end logs each link to which
/// joints lead from the root exactly once.
pub proof fn law_reached_links_are_logged_once(
    robot: RobotView,
    urdf_dir: Option<Seq<char>>,
    way: Seq<Seq<char>>,
)
    requires
        single_parents(robot.joints),
        robot_log(robot, urdf_dir).error is None,
        is_way(tree_of(robot, urdf_dir)->Ok_0, way),
        way[0] == tree_of(robot, urdf_dir)->Ok_0.root,
    ensures
        times(robot_log(robot, urdf_dir).steps, of_link(way.last())) == 1,
{
    let tree = tree_of(robot, urdf_dir)->Ok_0;
    let i = law_every_reached_link_is_logged(tree, seq![robot.name], way);
    lemma_at_least_once(robot_log(robot, urdf_dir).steps, of_link(way.last()), i);
    law_no_link_is_logged_twice(robot, urdf_dir, way.last());
}

proof fn lemma_reached_joint_is_logged(
    tree: TreeView,
    parent_path: Seq<Seq<char>>,
    way: Seq<Seq<char>>,
    k: int,
) -> (i: int)
    requires
        is_way(tree, way),
        full_walk(tree, parent_path, way[0]).error is None,
        0 <= k < tree.children(way.last()).len(),
    ensures
        0 <= i < full_walk(tree, parent_path, way[0]).steps.len(),
        is_text_of(
            full_walk(tree, parent_path, way[0]).steps[i],
            "joint_type"@,
            tree.children(way.last())[k].name,
        ),
    decreases way.len(),
{
    let link = way[0];
    let whole = full_walk(tree, parent_path, link).steps;
    if way.len() == 1 {
        let joint = tree.children(link)[k];
        let path = parent_path.push(link).push(joint.name);
        let at = law_every_joint_is_walked(tree, parent_path, link, k);
        let run = joint_log(path, joint) + full_walk(tree, path, joint.child).steps;
        let n = transform_log(path, joint.origin).len() as int;
        lemma_joint_texts(path, joint, "joint_type"@, joint.name);
        assert(whole.subrange(at, at + run.len())[n] == run[n]);
        at + n
    } else {
        assert(is_next(tree, way[0], way[1]));
        let m = choose|m: int|
            0 <= m < tree.children(link).len() && (#[trigger] tree.children(link)[m]).child
                == way[1];
        let joint = tree.children(link)[m];
        let path = parent_path.push(link).push(joint.name);
        let at = law_every_joint_is_walked(tree, parent_path, link, m);
        let rest = way.skip(1);
        assert forall|i: int| 0 <= i < rest.len() - 1 implies is_next(
            tree,
            #[trigger] rest[i],
            rest[i + 1],
        ) by {
            assert(is_next(tree, way[i + 1], way[i + 2]));
        }
        assert(rest.last() == way.last());
        let inner = lemma_reached_joint_is_logged(tree, path, rest, k);
        let below = full_walk(tree, path, joint.child).steps;
        let run = joint_log(path, joint) + below;
        let i = at + joint_log(path, joint).len() + inner;
        assert(whole.subrange(at, at + run.len())[i - at] == run[i - at]);
        i
    }
}

/// Where no two joints lead to the same link or have the same name, logging a robot to its end logs
/// each joint to which joints lead from the root exactly once.
pub proof fn law_reached_joints_are_logged_once(
    robot: RobotView,
    urdf_dir: Option<Seq<char>>,
    way: Seq<Seq<char>>,
    k: int,
)
    requires
        single_parents(robot.joints),
        distinct_joints(robot.joints),
        robot_log(robot, urdf_dir).error is None,
        is_way(tree_of(robot, urdf_dir)->Ok_0, way),
        way[0] == tree_of(robot, urdf_dir)->Ok_0.root,
        0 <= k < joints_from(robot.joints, way.last()).len(),
    ensures
        times(
            robot_log(robot, urdf_dir).steps,
            of_joint(joints_from(robot.joints, way.last())[k].name),
        ) == 1,
{
    let tree = tree_of(robot, urdf_dir)->Ok_0;
    let joint = joints_from(robot.joints, way.last())[k];
    let i = lemma_reached_joint_is_logged(tree, seq![robot.name], way, k);
    lemma_at_least_once(robot_log(robot, urdf_dir).steps, of_joint(joint.name), i);
    lemma_joints_from(robot.joints, way.last(), k);
    let j = choose|j: int| 0 <= j < robot.joints.len() && robot.joints[j] == joint;
    law_no_joint_is_logged_twice(robot, urdf_dir, j);
}

} // verus!
