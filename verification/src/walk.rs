//! The walk from the root of a robot over its joints to all its links.

use vstd::prelude::*;

use crate::ends::law_walk_ends_within_link_count;
use crate::error::{RobotError, RobotErrorView};
use crate::log::{joint_log, link_log, log_joint, log_link, reports, Outcome};
use crate::robot::{views, Joint, JointView, RobotView, UrdfRobot};
use crate::step::{EntityPath, Step, StepView};
use crate::text::opt_chars;
use crate::tree::{tree_of, TreeView, UrdfTree};

verus! {

/// What the walk from the link `link` comes to: the link itself, then for each joint that starts
/// there the joint and the walk from the link it leads to. The entity of a link stands under that
/// of the joint that leads to it, and the entity of a joint under that of the link it starts at.
/// The walk ends at the first thing that goes wrong, and breaks off where it would pass over more
/// than `depth` links one below the other.
pub open spec fn walk(
    tree: TreeView,
    parent_path: Seq<Seq<char>>,
    link: Seq<char>,
    depth: nat,
) -> Outcome
    decreases depth, 0nat,
{
    match tree.link(link) {
        None => Outcome { steps: seq![], error: Some(RobotErrorView::MissingLink(link)) },
        Some(found) => {
            let path = parent_path.push(link);
            let joints = tree.children(link);
            link_log(tree, found, path).and_next(
                if depth == 0 {
                    Outcome { steps: seq![], error: Some(RobotErrorView::EndlessWalk) }
                } else {
                    walk_joints(tree, path, joints, joints.len(), (depth - 1) as nat)
                },
            )
        },
    }
}

/// What the walk over the first `n` of `joints` comes to, if below them it may pass over `depth`
/// links one below the other.
pub open spec fn walk_joints(
    tree: TreeView,
    link_path: Seq<Seq<char>>,
    joints: Seq<JointView>,
    n: nat,
    depth: nat,
) -> Outcome
    decreases depth, n + 1,
{
    if n == 0 {
        Outcome::fine(seq![])
    } else {
        let joint = joints[n - 1];
        let path = link_path.push(joint.name);
        walk_joints(tree, link_path, joints, (n - 1) as nat, depth).and_next(
            Outcome::fine(joint_log(path, joint)),
        ).and_next(walk(tree, path, joint.child, depth))
    }
}

/// Whether a walk was not broken off.
pub open spec fn ended(outcome: Outcome) -> bool {
    outcome.error != Some(RobotErrorView::EndlessWalk)
}

/// Whether the walk from `link` ends at all. It does not where joints lead round in a circle.
pub open spec fn walk_ends(tree: TreeView, link: Seq<char>) -> bool {
    exists|depth: nat| ended(#[trigger] walk(tree, seq![], link, depth))
}

/// What the walk from `link` comes to. No walk that ends passes over more links one below the
/// other than the robot has, so one that does is broken off there.
pub open spec fn full_walk(
    tree: TreeView,
    parent_path: Seq<Seq<char>>,
    link: Seq<char>,
) -> Outcome {
    walk(tree, parent_path, link, tree.robot.links.len())
}

/// Once something went wrong, later joints add nothing.
proof fn lemma_joints_stop(
    tree: TreeView,
    link_path: Seq<Seq<char>>,
    joints: Seq<JointView>,
    k: nat,
    n: nat,
    depth: nat,
)
    requires
        k <= n,
        walk_joints(tree, link_path, joints, k, depth).error is Some,
    ensures
        walk_joints(tree, link_path, joints, n, depth) == walk_joints(
            tree,
            link_path,
            joints,
            k,
            depth,
        ),
    decreases n,
{
    if k < n {
        lemma_joints_stop(tree, link_path, joints, k, (n - 1) as nat, depth);
    }
}

/// Walks from the link `link_name`, and breaks off where that would pass over more than `depth`
/// links one below the other.
fn walk_within(
    tree: &UrdfTree,
    tx: &mut Vec<Step>,
    parent_path: &EntityPath,
    link_name: &str,
    depth: usize,
) -> (result: Result<(), RobotError>)
    ensures
        reports(
            old(tx)@,
            final(tx)@,
            result,
            walk(tree@, parent_path@, link_name@, depth as nat),
        ),
    decreases depth,
{
    let ghost start = views(tx@);
    let link = match tree.link(link_name) {
        Some(link) => link,
        None => {
            assert(views(tx@) =~= start + Seq::<StepView>::empty());
            return Err(RobotError::MissingLink(link_name.to_owned()));
        },
    };
    let link_path: EntityPath = parent_path.join(link_name);
    let result: Result<(), RobotError> = log_link(tree, tx, link, &link_path);
    if result.is_err() {
        return result;
    }
    let ghost own = link_log(tree@, link@, link_path@);
    if depth == 0 {
        assert(own.steps + Seq::<StepView>::empty() =~= own.steps);
        return Err(RobotError::EndlessWalk);
    }
    let joints: Vec<&Joint> = tree.children(link_name);
    let ghost model = tree@;
    let ghost path = link_path@;
    let ghost all = views(joints@);
    let ghost below = (depth - 1) as nat;
    let mut i: usize = 0;
    assert(views(tx@) =~= start + own.and_next(Outcome::fine(seq![])).steps);
    while i < joints.len()
        invariant
            i <= joints.len(),
            depth > 0,
            below == depth - 1,
            model == tree@,
            path == link_path@,
            all == views(joints@),
            own.error is None,
            walk(model, parent_path@, link_name@, depth as nat) == own.and_next(
                walk_joints(model, path, all, all.len(), below),
            ),
            start == views(old(tx)@),
            walk_joints(model, path, all, i as nat, below).error is None,
            views(tx@) == start + own.and_next(
                walk_joints(model, path, all, i as nat, below),
            ).steps,
        decreases joints.len() - i,
    {
        let joint: &Joint = joints[i];
        assert(all[i as int] == joint@);
        let joint_path: EntityPath = link_path.join(joint.name.as_str());
        log_joint(tx, &joint_path, joint);
        let result: Result<(), RobotError> = walk_within(
            tree,
            tx,
            &joint_path,
            joint.child.as_str(),
            depth - 1,
        );
        proof {
            let more = walk_joints(model, path, all, (i + 1) as nat, below);
            assert(views(tx@) =~= start + own.and_next(more).steps);
            if result is Err {
                lemma_joints_stop(model, path, all, (i + 1) as nat, all.len(), below);
            }
        }
        if result.is_err() {
            return result;
        }
        i = i + 1;
    }
    Ok(())
}

/// Logs the link `link_name` and all that hangs on it, under the entity at `parent_path`.
pub fn walk_tree(
    tree: &UrdfTree,
    tx: &mut Vec<Step>,
    parent_path: &EntityPath,
    link_name: &str,
) -> (result: Result<(), RobotError>)
    requires
        walk_ends(tree@, link_name@),
    ensures
        ended(full_walk(tree@, parent_path@, link_name@)),
        reports(old(tx)@, final(tx)@, result, full_walk(tree@, parent_path@, link_name@)),
{
    proof {
        law_walk_ends_within_link_count(tree@, parent_path@, link_name@);
    }
    walk_within(tree, tx, parent_path, link_name, tree.link_count())
}

/// What logging a robot comes to: the walk from its root, under an entity that has the name of the
/// robot; or, where the robot is no tree, the error.
pub open spec fn robot_log(robot: RobotView, urdf_dir: Option<Seq<char>>) -> Outcome {
    match tree_of(robot, urdf_dir) {
        Ok(tree) => full_walk(tree, seq![robot.name], tree.root),
        Err(e) => Outcome { steps: seq![], error: Some(e) },
    }
}

/// Whether logging a robot ends. It does not where the walk from its root leads round in a circle.
pub open spec fn robot_log_ends(robot: RobotView, urdf_dir: Option<Seq<char>>) -> bool {
    tree_of(robot, urdf_dir) matches Ok(tree) ==> walk_ends(tree, tree.root)
}

/// Logs a robot, and breaks off a walk that does not end, once that has passed over more links one
/// below the other than the robot has. `urdf_dir` is the directory of the robot's file.
pub fn try_log_robot(
    robot: UrdfRobot,
    urdf_dir: Option<String>,
    tx: &mut Vec<Step>,
) -> (result: Result<(), RobotError>)
    ensures
        reports(old(tx)@, final(tx)@, result, robot_log(robot@, opt_chars(urdf_dir))),
{
    let tree: UrdfTree = match UrdfTree::new(robot, urdf_dir) {
        Ok(tree) => tree,
        Err(e) => {
            assert(views(tx@) =~= views(old(tx)@) + Seq::<StepView>::empty());
            return Err(e);
        },
    };
    walk_within(
        &tree,
        tx,
        &EntityPath::from_single_string(tree.name()),
        tree.root().name.as_str(),
        tree.link_count(),
    )
}

/// Logs a robot. `urdf_dir` is the directory of the robot's file.
pub fn log_robot(
    robot: UrdfRobot,
    urdf_dir: Option<String>,
    tx: &mut Vec<Step>,
) -> (result: Result<(), RobotError>)
    requires
        robot_log_ends(robot@, opt_chars(urdf_dir)),
    ensures
        ended(robot_log(robot@, opt_chars(urdf_dir))),
        reports(old(tx)@, final(tx)@, result, robot_log(robot@, opt_chars(urdf_dir))),
{
    let tree: UrdfTree = match UrdfTree::new(robot, urdf_dir) {
        Ok(tree) => tree,
        Err(e) => {
            assert(views(tx@) =~= views(old(tx)@) + Seq::<StepView>::empty());
            return Err(e);
        },
    };
    walk_tree(
        &tree,
        tx,
        &EntityPath::from_single_string(tree.name()),
        tree.root().name.as_str(),
    )
}

} // verus!
