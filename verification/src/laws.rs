//! What holds of every robot and of all that is logged of it.

use vstd::prelude::*;

use crate::ends::{
    is_next, is_way, law_depth_does_not_matter, law_found_link_has_its_name,
    law_walk_ends_within_link_count,
};
use crate::error::RobotErrorView;
use crate::log::{
    collision_log, collisions_log, geometry_log, joint_log, link_log, mesh_log, name_or_numbered,
    text_sent, text_sent_if_any, transform_log, visual_log, visuals_log, Outcome,
};
use crate::path::urdf_extension;
use crate::resource::{ros_resource, ResourceFileView};
use crate::robot::{
    CollisionView, GeometryView, JointView, LinkView, MaterialView, Pose, RobotView, VisualView,
};
use crate::step::{PayloadView, StepView};
use crate::text::{ascii_lower, decimal, digit, lemma_split_at, occurs_at, split_at_first};
use crate::tree::{find_link, is_child, joints_from, tree_of, TreeView};
use crate::walk::{full_walk, robot_log, walk, walk_ends, walk_joints};

verus! {

/// Whether the entity at `path` is the one at `top` or stands under it.
pub open spec fn lies_under(path: Seq<Seq<char>>, top: Seq<Seq<char>>) -> bool {
    top.is_prefix_of(path)
}

/// Whether a payload says something: it is neither a transform that moves nothing nor a scale
/// that leaves sizes as they are.
pub open spec fn says_something(payload: PayloadView) -> bool {
    match payload {
        PayloadView::Transform(pose) => !pose.identity(),
        PayloadView::Scale(scale) => !scale.one(),
        _ => true,
    }
}

/// Whether a step sends the scale of the entity at `path`.
pub open spec fn scales(step: StepView, path: Seq<Seq<char>>) -> bool {
    match step {
        StepView::Send { entity_path, payload: PayloadView::Scale(_) } => entity_path == path,
        _ => false,
    }
}

/// Whether the mesh that step `i` sends is made of the file that was read last, and that is the
/// file the mesh stands for: the file is read by the step before, or by the one before that with
/// only the scale of the same entity in between.
pub open spec fn mesh_is_read(tree: TreeView, steps: Seq<StepView>, i: int) -> bool {
    steps[i] matches StepView::Send {
        entity_path,
        payload: PayloadView::Mesh { filename, .. },
    } ==> {
        let file = ros_resource(tree.urdf_dir, filename);
        &&& file is Ok
        &&& {
            ||| i >= 1 && steps[i - 1] == StepView::ReadFile(file->Ok_0)
            ||| i >= 2 && steps[i - 2] == StepView::ReadFile(file->Ok_0) && scales(
                steps[i - 1],
                entity_path,
            )
        }
    }
}

/// What holds of each step that is logged under the entity at `top`.
spec fn sound_step(tree: TreeView, top: Seq<Seq<char>>, steps: Seq<StepView>, i: int) -> bool {
    &&& steps[i] matches StepView::Send { entity_path, payload } ==> lies_under(entity_path, top)
        && says_something(payload)
    &&& mesh_is_read(tree, steps, i)
}

/// Whether `error` is owed to a link that is missing or to a mesh that cannot be found.
pub open spec fn has_a_cause(tree: TreeView, error: RobotErrorView) -> bool {
    ||| error matches RobotErrorView::MissingLink(link) && tree.link(link) is None
    ||| exists|filename: Seq<char>|
        #[trigger] ros_resource(tree.urdf_dir, filename) == Err::<ResourceFileView, RobotErrorView>(
            error,
        )
}

spec fn sound_steps(tree: TreeView, top: Seq<Seq<char>>, steps: Seq<StepView>) -> bool {
    forall|i: int| 0 <= i < steps.len() ==> #[trigger] sound_step(tree, top, steps, i)
}

spec fn sound(tree: TreeView, top: Seq<Seq<char>>, outcome: Outcome) -> bool {
    &&& sound_steps(tree, top, outcome.steps)
    &&& outcome.error matches Some(e) ==> e is EndlessWalk || has_a_cause(tree, e)
}

proof fn lemma_sound_add(
    tree: TreeView,
    top: Seq<Seq<char>>,
    a: Seq<StepView>,
    b: Seq<StepView>,
)
    requires
        sound_steps(tree, top, a),
        sound_steps(tree, top, b),
    ensures
        sound_steps(tree, top, a + b),
{
    assert forall|i: int| 0 <= i < (a + b).len() implies #[trigger] sound_step(
        tree,
        top,
        a + b,
        i,
    ) by {
        let n = a.len() as int;
        if i < n {
            assert(sound_step(tree, top, a, i));
            assert((a + b)[i] == a[i]);
        } else {
            let k = i - n;
            assert(sound_step(tree, top, b, k));
            assert((a + b)[i] == b[k]);
            if k >= 1 {
                assert((a + b)[i - 1] == b[k - 1]);
            }
            if k >= 2 {
                assert((a + b)[i - 2] == b[k - 2]);
            }
        }
    }
}

proof fn lemma_sound_next(tree: TreeView, top: Seq<Seq<char>>, a: Outcome, b: Outcome)
    requires
        sound(tree, top, a),
        sound(tree, top, b),
    ensures
        sound(tree, top, a.and_next(b)),
{
    lemma_sound_add(tree, top, a.steps, b.steps);
}

proof fn lemma_sound_higher(
    tree: TreeView,
    top: Seq<Seq<char>>,
    higher: Seq<Seq<char>>,
    outcome: Outcome,
)
    requires
        sound(tree, top, outcome),
        lies_under(top, higher),
    ensures
        sound(tree, higher, outcome),
{
    assert forall|i: int| 0 <= i < outcome.steps.len() implies #[trigger] sound_step(
        tree,
        higher,
        outcome.steps,
        i,
    ) by {
        assert(sound_step(tree, top, outcome.steps, i));
    }
}

proof fn lemma_transform_sound(tree: TreeView, path: Seq<Seq<char>>, origin: Pose)
    ensures
        sound_steps(tree, path, transform_log(path, origin)),
{
}

proof fn lemma_geometry_sound(
    tree: TreeView,
    path: Seq<Seq<char>>,
    geometry: GeometryView,
    material: Option<MaterialView>,
)
    ensures
        sound(tree, path, geometry_log(tree, path, geometry, material)),
{
    let outcome = geometry_log(tree, path, geometry, material);
    if let GeometryView::Mesh { filename, scale } = geometry {
        if let Ok(file) = ros_resource(tree.urdf_dir, filename) {
            let sends = mesh_log(path, filename, scale, material);
            assert(outcome.steps.len() == 1 + sends.len());
            assert(outcome.steps[0] == StepView::ReadFile(file));
            assert(forall|k: int| 0 <= k < sends.len() ==> outcome.steps[k + 1] == sends[k]);
            if sends.len() == 1 {
                assert(outcome.steps[1] == sends[0]);
            } else {
                assert(sends.len() == 2);
                assert(outcome.steps[1] == sends[0]);
                assert(outcome.steps[2] == sends[1]);
            }
        }
    }
}

proof fn lemma_visuals_sound(
    tree: TreeView,
    path: Seq<Seq<char>>,
    visuals: Seq<VisualView>,
    n: nat,
)
    ensures
        sound(tree, path, visuals_log(tree, path, visuals, n)),
    decreases n,
{
    if n > 0 {
        let k = (n - 1) as nat;
        lemma_visuals_sound(tree, path, visuals, k);
        lemma_visual_sound(tree, path, visuals[k as int], k);
        lemma_sound_next(
            tree,
            path,
            visuals_log(tree, path, visuals, k),
            visual_log(tree, path, visuals[k as int], k),
        );
    }
}

proof fn lemma_visual_sound(tree: TreeView, path: Seq<Seq<char>>, visual: VisualView, i: nat)
    ensures
        sound(tree, path, visual_log(tree, path, visual, i)),
{
    let own = path.push(name_or_numbered(visual.name, "visual_"@, i));
    let material = match visual.material {
        Some(name) => tree.material(name),
        None => None,
    };
    lemma_transform_sound(tree, own, visual.origin);
    lemma_geometry_sound(tree, own, visual.geometry, material);
    lemma_sound_next(
        tree,
        own,
        Outcome::fine(transform_log(own, visual.origin)),
        geometry_log(tree, own, visual.geometry, material),
    );
    lemma_sound_higher(tree, own, path, visual_log(tree, path, visual, i));
}

proof fn lemma_collisions_sound(
    tree: TreeView,
    path: Seq<Seq<char>>,
    collisions: Seq<CollisionView>,
    n: nat,
)
    ensures
        sound(tree, path, collisions_log(tree, path, collisions, n)),
    decreases n,
{
    if n > 0 {
        let k = (n - 1) as nat;
        let collision = collisions[k as int];
        let own = path.push(name_or_numbered(collision.name, "collision_"@, k));
        lemma_collisions_sound(tree, path, collisions, k);
        lemma_transform_sound(tree, own, collision.origin);
        lemma_geometry_sound(tree, own, collision.geometry, None);
        lemma_sound_next(
            tree,
            own,
            Outcome::fine(transform_log(own, collision.origin)),
            geometry_log(tree, own, collision.geometry, None),
        );
        lemma_sound_higher(tree, own, path, collision_log(tree, path, collision, k));
        lemma_sound_next(
            tree,
            path,
            collisions_log(tree, path, collisions, k),
            collision_log(tree, path, collision, k),
        );
    }
}

proof fn lemma_link_sound(tree: TreeView, link: LinkView, path: Seq<Seq<char>>)
    ensures
        sound(tree, path, link_log(tree, link, path)),
{
    let first = Outcome::fine(seq![text_sent(path, "inertial"@, link.inertial)]);
    let visuals = visuals_log(tree, path, link.visual, link.visual.len());
    let collisions = collisions_log(tree, path, link.collision, link.collision.len());
    lemma_visuals_sound(tree, path, link.visual, link.visual.len());
    lemma_collisions_sound(tree, path, link.collision, link.collision.len());
    assert(sound(tree, path, first));
    lemma_sound_next(tree, path, first, visuals);
    lemma_sound_next(tree, path, first.and_next(visuals), collisions);
}

proof fn lemma_joint_sound(tree: TreeView, path: Seq<Seq<char>>, joint: JointView)
    ensures
        sound(tree, path, Outcome::fine(joint_log(path, joint))),
{
    let always = seq![
        text_sent(path, "joint_type"@, joint.joint_type),
        text_sent(path, "axis"@, joint.axis),
        text_sent(path, "limit"@, joint.limit),
    ];
    let a = transform_log(path, joint.origin);
    let b = text_sent_if_any(path, "calibration"@, joint.calibration);
    let c = text_sent_if_any(path, "dynamics"@, joint.dynamics);
    let d = text_sent_if_any(path, "mimic"@, joint.mimic);
    let e = text_sent_if_any(path, "safety_controller"@, joint.safety_controller);
    lemma_transform_sound(tree, path, joint.origin);
    assert(sound_steps(tree, path, always));
    lemma_sound_add(tree, path, a, always);
    lemma_sound_add(tree, path, a + always, b);
    lemma_sound_add(tree, path, a + always + b, c);
    lemma_sound_add(tree, path, a + always + b + c, d);
    lemma_sound_add(tree, path, a + always + b + c + d, e);
}

proof fn lemma_walk_sound(tree: TreeView, p: Seq<Seq<char>>, link: Seq<char>, depth: nat)
    ensures
        sound(tree, p.push(link), walk(tree, p, link, depth)),
    decreases depth, 0nat,
{
    if let Some(found) = tree.link(link) {
        let path = p.push(link);
        let own = link_log(tree, found, path);
        lemma_link_sound(tree, found, path);
        if depth > 0 {
            let joints = tree.children(link);
            let below = (depth - 1) as nat;
            lemma_joints_sound(tree, path, joints, joints.len(), below);
            lemma_sound_next(
                tree,
                path,
                own,
                walk_joints(tree, path, joints, joints.len(), below),
            );
        } else {
            let broken = Outcome { steps: seq![], error: Some(RobotErrorView::EndlessWalk) };
            lemma_sound_next(tree, path, own, broken);
        }
    }
}

proof fn lemma_joints_sound(
    tree: TreeView,
    p: Seq<Seq<char>>,
    joints: Seq<JointView>,
    n: nat,
    depth: nat,
)
    ensures
        sound(tree, p, walk_joints(tree, p, joints, n, depth)),
    decreases depth, n + 1,
{
    if n > 0 {
        let joint = joints[n - 1];
        let path = p.push(joint.name);
        let before = walk_joints(tree, p, joints, (n - 1) as nat, depth);
        let own = Outcome::fine(joint_log(path, joint));
        let below = walk(tree, path, joint.child, depth);
        lemma_joints_sound(tree, p, joints, (n - 1) as nat, depth);
        lemma_walk_sound(tree, path, joint.child, depth);
        lemma_joint_sound(tree, path, joint);
        lemma_sound_higher(tree, path.push(joint.child), p, below);
        lemma_sound_higher(tree, path, p, own);
        lemma_sound_next(tree, p, before, own);
        lemma_sound_next(tree, p, before.and_next(own), below);
    }
}

/// All that a walk logs is logged of the entity of its first link, or of entities under it.
pub proof fn law_entities_stand_under_their_link(
    tree: TreeView,
    parent_path: Seq<Seq<char>>,
    link: Seq<char>,
    i: int,
)
    requires
        0 <= i < full_walk(tree, parent_path, link).steps.len(),
    ensures
        full_walk(tree, parent_path, link).steps[i] matches StepView::Send { entity_path, .. }
            ==> lies_under(entity_path, parent_path.push(link)),
{
    lemma_walk_sound(tree, parent_path, link, tree.robot.links.len());
    assert(sound_step(
        tree,
        parent_path.push(link),
        full_walk(tree, parent_path, link).steps,
        i,
    ));
}

/// All that is logged of a robot is logged under an entity that has its name.
pub proof fn law_entities_stand_under_the_robot(
    robot: RobotView,
    urdf_dir: Option<Seq<char>>,
    i: int,
)
    requires
        0 <= i < robot_log(robot, urdf_dir).steps.len(),
    ensures
        robot_log(robot, urdf_dir).steps[i] matches StepView::Send { entity_path, .. }
            ==> lies_under(entity_path, seq![robot.name]),
{
    if let Ok(tree) = tree_of(robot, urdf_dir) {
        law_entities_stand_under_their_link(tree, seq![robot.name], tree.root, i);
    }
}

/// No walk sends a transform that moves nothing, or a scale of one.
pub proof fn law_nothing_idle_is_sent(
    tree: TreeView,
    parent_path: Seq<Seq<char>>,
    link: Seq<char>,
    i: int,
)
    requires
        0 <= i < full_walk(tree, parent_path, link).steps.len(),
    ensures
        full_walk(tree, parent_path, link).steps[i] matches StepView::Send { payload, .. }
            ==> says_something(payload),
{
    lemma_walk_sound(tree, parent_path, link, tree.robot.links.len());
    assert(sound_step(
        tree,
        parent_path.push(link),
        full_walk(tree, parent_path, link).steps,
        i,
    ));
}

/// When a walk sends a mesh, the file read last is the one that the mesh stands for.
pub proof fn law_meshes_are_read_first(
    tree: TreeView,
    parent_path: Seq<Seq<char>>,
    link: Seq<char>,
    i: int,
)
    requires
        0 <= i < full_walk(tree, parent_path, link).steps.len(),
    ensures
        mesh_is_read(tree, full_walk(tree, parent_path, link).steps, i),
{
    lemma_walk_sound(tree, parent_path, link, tree.robot.links.len());
    assert(sound_step(
        tree,
        parent_path.push(link),
        full_walk(tree, parent_path, link).steps,
        i,
    ));
}

/// A walk breaks off only at a link that is missing, at a mesh that cannot be found, or where it
/// does not end.
pub proof fn law_errors_have_a_cause(
    tree: TreeView,
    parent_path: Seq<Seq<char>>,
    link: Seq<char>,
)
    ensures
        full_walk(tree, parent_path, link).error matches Some(e) ==> if e is EndlessWalk {
            !walk_ends(tree, link)
        } else {
            has_a_cause(tree, e)
        },
{
    lemma_walk_sound(tree, parent_path, link, tree.robot.links.len());
    law_walk_ends_within_link_count(tree, parent_path, link);
}

/// Where the directory of the robot's file is known, nothing fails for want of it.
pub proof fn law_known_directory_suffices(
    robot: RobotView,
    urdf_dir: Option<Seq<char>>,
    resource: Seq<char>,
)
    requires
        urdf_dir is Some,
    ensures
        robot_log(robot, urdf_dir).error != Some(RobotErrorView::NoRootDirectory(resource)),
{
    if let Ok(tree) = tree_of(robot, urdf_dir) {
        law_errors_have_a_cause(tree, seq![robot.name], tree.root);
    }
}

/// The root of a tree is a link of the robot and no joint's child, and no other link is such.
pub proof fn law_root_is_the_only_one(
    robot: RobotView,
    urdf_dir: Option<Seq<char>>,
    name: Seq<char>,
)
    requires
        tree_of(robot, urdf_dir) is Ok,
    ensures
        robot.is_root(name) <==> name == tree_of(robot, urdf_dir)->Ok_0.root,
{
    let tree = tree_of(robot, urdf_dir)->Ok_0;
    assert(robot.is_root(tree.root));
}

/// Whether a robot is a tree does not depend on where its file stands.
pub proof fn law_tree_ignores_directory(
    robot: RobotView,
    a: Option<Seq<char>>,
    b: Option<Seq<char>>,
)
    ensures
        tree_of(robot, a) is Ok <==> tree_of(robot, b) is Ok,
        tree_of(robot, a) is Ok ==> tree_of(robot, a)->Ok_0.root == tree_of(robot, b)->Ok_0.root,
        tree_of(robot, a) is Err ==> tree_of(robot, a)->Err_0 == tree_of(robot, b)->Err_0,
{
}

/// Where no two links have the same name, each link is found by its name.
pub proof fn law_distinct_links_are_found(links: Seq<LinkView>, i: int)
    requires
        distinct_names(links),
        0 <= i < links.len(),
    ensures
        find_link(links, links[i].name) == Some(links[i]),
    decreases links.len(),
{
    if i < links.len() - 1 {
        let rest = links.drop_last();
        assert(links.last() == links[links.len() - 1]);
        assert forall|a: int, b: int|
            0 <= a < rest.len() && 0 <= b < rest.len() && (#[trigger] rest[a]).name == (
            #[trigger] rest[b]).name implies a == b by {
            assert(links[a].name == links[b].name);
        }
        law_distinct_links_are_found(rest, i);
    }
}

/// Shapes to collide with are never coloured.
pub proof fn law_collisions_have_no_colour(
    tree: TreeView,
    link_path: Seq<Seq<char>>,
    collision: CollisionView,
    n: nat,
    i: int,
)
    requires
        0 <= i < collision_log(tree, link_path, collision, n).steps.len(),
    ensures
        collision_log(tree, link_path, collision, n).steps[i] matches StepView::Send {
            payload: PayloadView::Mesh { albedo, textured, .. },
            ..
        } ==> albedo is None && !textured,
{
}

/// Shapes other than meshes are logged alike, whatever their material.
pub proof fn law_only_meshes_take_a_material(
    tree: TreeView,
    path: Seq<Seq<char>>,
    geometry: GeometryView,
    a: Option<MaterialView>,
    b: Option<MaterialView>,
)
    requires
        !(geometry is Mesh),
    ensures
        geometry_log(tree, path, geometry, a) == geometry_log(tree, path, geometry, b),
{
}

proof fn lemma_decimal_injective(i: nat, k: nat)
    requires
        decimal(i) == decimal(k),
    ensures
        i == k,
    decreases i,
{
    if i < 10 && k < 10 {
        assert(decimal(i)[0] == digit(i));
        assert(decimal(k)[0] == digit(k));
    } else if i >= 10 && k >= 10 {
        assert(decimal(i).drop_last() =~= decimal(i / 10));
        assert(decimal(k).drop_last() =~= decimal(k / 10));
        assert(decimal(i).last() == digit(i % 10));
        assert(decimal(k).last() == digit(k % 10));
        lemma_decimal_injective(i / 10, k / 10);
    } else {
        let (small, large) = if i < 10 {
            (i, k)
        } else {
            (k, i)
        };
        lemma_decimal_not_empty(large / 10);
        assert(decimal(small).len() == 1);
        assert(decimal(large).len() == decimal(large / 10).len() + 1);
    }
}

proof fn lemma_decimal_not_empty(n: nat)
    ensures
        decimal(n).len() > 0,
{
}

/// Two visual shapes of a link that both have no name are logged of different entities, and so
/// are two shapes to collide with, or one of each.
pub proof fn law_unnamed_shapes_are_distinct(i: nat, k: nat)
    ensures
        name_or_numbered(None, "visual_"@, i) == name_or_numbered(None, "visual_"@, k) ==> i == k,
        name_or_numbered(None, "collision_"@, i) == name_or_numbered(None, "collision_"@, k) ==> i
            == k,
        name_or_numbered(None, "visual_"@, i) != name_or_numbered(None, "collision_"@, k),
{
    reveal_strlit("visual_");
    reveal_strlit("collision_");
    assert forall|kind: Seq<char>| kind + decimal(i) == kind + decimal(k) implies i == k by {
        assert((kind + decimal(i)).skip(kind.len() as int) =~= decimal(i));
        assert((kind + decimal(k)).skip(kind.len() as int) =~= decimal(k));
        lemma_decimal_injective(i, k);
    }
    assert(("visual_"@ + decimal(i))[0] == 'v');
    assert(("collision_"@ + decimal(k))[0] == 'c');
}

proof fn lemma_first_occurrence(s: Seq<char>, delimiter: Seq<char>, at: int) -> (first: int)
    requires
        occurs_at(s, delimiter, at),
    ensures
        occurs_at(s, delimiter, first),
        forall|k: int| k < first ==> !occurs_at(s, delimiter, k),
    decreases at,
{
    if exists|k: int| k < at && occurs_at(s, delimiter, k) {
        let k = choose|k: int| k < at && occurs_at(s, delimiter, k);
        lemma_first_occurrence(s, delimiter, k)
    } else {
        at
    }
}

/// The two parts of a text that is split at a delimiter make up the text again with the delimiter
/// in between, and the delimiter occurs nowhere before.
pub proof fn law_split_parts_rejoin(s: Seq<char>, delimiter: Seq<char>)
    ensures
        split_at_first(s, delimiter) matches Some((before, behind)) ==> s == before + delimiter
            + behind && forall|k: int| k < before.len() ==> !occurs_at(s, delimiter, k),
        split_at_first(s, delimiter) is None <==> forall|k: int| !occurs_at(s, delimiter, k),
{
    if exists|at: int| occurs_at(s, delimiter, at) {
        let at = choose|at: int| occurs_at(s, delimiter, at);
        let first = lemma_first_occurrence(s, delimiter, at);
        lemma_split_at(s, delimiter, first);
        assert(s =~= s.take(first) + s.subrange(first, first + delimiter.len()) + s.skip(
            first + delimiter.len(),
        ));
    }
}

/// A `file://` resource is read from the path behind the scheme, wherever the robot's file is.
pub proof fn law_file_scheme(root_dir: Option<Seq<char>>, path: Seq<char>)
    ensures
        ros_resource(root_dir, "file://"@ + path) == Ok::<ResourceFileView, RobotErrorView>(
            ResourceFileView::At(path),
        ),
{
    reveal_strlit("file://");
    reveal_strlit("file");
    reveal_strlit("://");
    let s = "file://"@ + path;
    let d = "://"@;
    assert(s.subrange(4, 7) =~= d);
    assert forall|k: int| k < 4 implies !occurs_at(s, d, k) by {
        if occurs_at(s, d, k) {
            assert(s.subrange(k, k + 3)[0] == ':');
            assert(s[k] == "file://"@[k]);
        }
    }
    lemma_split_at(s, d, 4);
    assert(s.take(4) =~= "file"@);
    assert(s.skip(7) =~= path);
}

/// A `package://` resource is never read.
pub proof fn law_package_scheme(root_dir: Option<Seq<char>>, path: Seq<char>)
    ensures
        ros_resource(root_dir, "package://"@ + path) == Err::<ResourceFileView, RobotErrorView>(
            RobotErrorView::RosPackage("package://"@ + path),
        ),
{
    reveal_strlit("package://");
    reveal_strlit("package");
    reveal_strlit("file");
    reveal_strlit("://");
    let s = "package://"@ + path;
    let d = "://"@;
    assert(s.subrange(7, 10) =~= d);
    assert forall|k: int| k < 7 implies !occurs_at(s, d, k) by {
        if occurs_at(s, d, k) {
            assert(s.subrange(k, k + 3)[0] == ':');
            assert(s[k] == "package://"@[k]);
        }
    }
    lemma_split_at(s, d, 7);
    assert(s.take(7) =~= "package"@);
    assert("package"@.len() != "file"@.len());
}

/// A resource without a scheme is read from the directory of the robot's file, or not at all.
pub proof fn law_relative_resource(root_dir: Option<Seq<char>>, path: Seq<char>)
    requires
        forall|k: int| !occurs_at(path, "://"@, k),
    ensures
        root_dir matches Some(dir) ==> ros_resource(root_dir, path) == Ok::<
            ResourceFileView,
            RobotErrorView,
        >(ResourceFileView::InDir { dir, path }),
        root_dir is None ==> ros_resource(root_dir, path) == Err::<
            ResourceFileView,
            RobotErrorView,
        >(RobotErrorView::NoRootDirectory(path)),
{
    law_split_parts_rejoin(path, "://"@);
}

/// Whether an extension is that of URDF files does not depend on the case of its letters.
pub proof fn law_extension_ignores_case(a: Seq<char>, b: Seq<char>)
    requires
        ascii_lower(a) == ascii_lower(b),
    ensures
        urdf_extension(Some(a)) == urdf_extension(Some(b)),
{
}

/// Whether `run` stands in `steps` from position `at` on.
pub open spec fn run_at(steps: Seq<StepView>, run: Seq<StepView>, at: int) -> bool {
    0 <= at && at + run.len() <= steps.len() && steps.subrange(at, at + run.len()) == run
}

/// The first thing that a walk logs is its link.
pub proof fn law_link_is_logged_first(
    tree: TreeView,
    parent_path: Seq<Seq<char>>,
    link: Seq<char>,
)
    requires
        tree.link(link) is Some,
    ensures
        run_at(
            full_walk(tree, parent_path, link).steps,
            link_log(tree, tree.link(link)->0, parent_path.push(link)).steps,
            0,
        ),
{
    let own = link_log(tree, tree.link(link)->0, parent_path.push(link));
    let whole = full_walk(tree, parent_path, link);
    assert(whole.steps.subrange(0, own.steps.len() as int) =~= own.steps);
}

proof fn lemma_joint_is_walked(
    tree: TreeView,
    p: Seq<Seq<char>>,
    joints: Seq<JointView>,
    n: nat,
    depth: nat,
    k: int,
) -> (at: int)
    requires
        walk_joints(tree, p, joints, n, depth).error is None,
        0 <= k < n <= joints.len(),
    ensures
        walk(tree, p.push(joints[k].name), joints[k].child, depth).error is None,
        run_at(
            walk_joints(tree, p, joints, n, depth).steps,
            joint_log(p.push(joints[k].name), joints[k]) + walk(
                tree,
                p.push(joints[k].name),
                joints[k].child,
                depth,
            ).steps,
            at,
        ),
    decreases n,
{
    let whole = walk_joints(tree, p, joints, n, depth).steps;
    let before = walk_joints(tree, p, joints, (n - 1) as nat, depth).steps;
    let path = p.push(joints[k].name);
    let run = joint_log(path, joints[k]) + walk(tree, path, joints[k].child, depth).steps;
    let at: int;
    if k == n - 1 {
        at = before.len() as int;
        assert(whole =~= before + run);
        assert(whole.subrange(at, at + run.len()) =~= run);
    } else {
        at = lemma_joint_is_walked(tree, p, joints, (n - 1) as nat, depth, k);
        assert(whole.subrange(at, at + run.len()) =~= before.subrange(at, at + run.len()));
    }
    at
}

/// A walk that does not break off logs each joint that starts at its link, and right behind it the
/// walk from the link that the joint leads to, which does not break off either.
pub proof fn law_every_joint_is_walked(
    tree: TreeView,
    parent_path: Seq<Seq<char>>,
    link: Seq<char>,
    k: int,
) -> (at: int)
    requires
        full_walk(tree, parent_path, link).error is None,
        0 <= k < tree.children(link).len(),
    ensures
        ({
            let joint = tree.children(link)[k];
            let path = parent_path.push(link).push(joint.name);
            let below = full_walk(tree, path, joint.child);
            &&& below.error is None
            &&& run_at(
                full_walk(tree, parent_path, link).steps,
                joint_log(path, joint) + below.steps,
                at,
            )
        }),
{
    let n = tree.robot.links.len();
    let joints = tree.children(link);
    let joint = joints[k];
    let link_path = parent_path.push(link);
    let path = link_path.push(joint.name);
    let depth = (n - 1) as nat;
    let own = link_log(tree, tree.link(link)->0, link_path).steps;
    let rest = walk_joints(tree, link_path, joints, joints.len(), depth).steps;
    let whole = full_walk(tree, parent_path, link).steps;
    let inner = lemma_joint_is_walked(tree, link_path, joints, joints.len(), depth, k);
    law_depth_does_not_matter(tree, path, joint.child, depth);
    let run = joint_log(path, joint) + full_walk(tree, path, joint.child).steps;
    let at = own.len() + inner;
    assert(whole =~= own + rest);
    assert(whole.subrange(at, at + run.len()) =~= rest.subrange(inner, inner + run.len()));
    at
}

/// Whether a step logs the link `link`.
pub open spec fn logs_link(tree: TreeView, step: StepView, link: Seq<char>) -> bool {
    &&& tree.link(link) is Some
    &&& step matches StepView::Send { entity_path, payload }
    &&& entity_path.len() > 0
    &&& entity_path.last() == link
    &&& payload == (PayloadView::DebugText {
        component: "inertial"@,
        text: tree.link(link)->0.inertial,
    })
}

/// A walk that does not break off logs every link to which joints lead from its own.
pub proof fn law_every_reached_link_is_logged(
    tree: TreeView,
    parent_path: Seq<Seq<char>>,
    way: Seq<Seq<char>>,
) -> (i: int)
    requires
        is_way(tree, way),
        full_walk(tree, parent_path, way[0]).error is None,
    ensures
        0 <= i < full_walk(tree, parent_path, way[0]).steps.len(),
        logs_link(tree, full_walk(tree, parent_path, way[0]).steps[i], way.last()),
    decreases way.len(),
{
    let link = way[0];
    let whole = full_walk(tree, parent_path, link).steps;
    if way.len() == 1 {
        law_link_is_logged_first(tree, parent_path, link);
        let own = link_log(tree, tree.link(link)->0, parent_path.push(link)).steps;
        assert(own[0] == text_sent(
            parent_path.push(link),
            "inertial"@,
            tree.link(link)->0.inertial,
        ));
        assert(whole.subrange(0, own.len() as int)[0] == own[0]);
        0
    } else {
        assert(is_next(tree, way[0], way[1]));
        let k = choose|k: int|
            0 <= k < tree.children(link).len() && (#[trigger] tree.children(link)[k]).child
                == way[1];
        let joint = tree.children(link)[k];
        let path = parent_path.push(link).push(joint.name);
        let at = law_every_joint_is_walked(tree, parent_path, link, k);
        let rest = way.skip(1);
        assert forall|i: int| 0 <= i < rest.len() - 1 implies is_next(
            tree,
            #[trigger] rest[i],
            rest[i + 1],
        ) by {
            assert(is_next(tree, way[i + 1], way[i + 2]));
        }
        let inner = law_every_reached_link_is_logged(tree, path, rest);
        let below = full_walk(tree, path, joint.child).steps;
        let run = joint_log(path, joint) + below;
        let i = at + joint_log(path, joint).len() + inner;
        assert(whole.subrange(at, at + run.len())[i - at] == run[i - at]);
        assert(rest.last() == way.last());
        i
    }
}

/// Whether no two links have the same name.
pub open spec fn distinct_names(links: Seq<LinkView>) -> bool {
    forall|a: int, b: int|
        0 <= a < links.len() && 0 <= b < links.len() && (#[trigger] links[a]).name == (
        #[trigger] links[b]).name ==> a == b
}

proof fn lemma_same_elements<A>(a: Seq<A>, b: Seq<A>, x: A)
    requires
        a.to_multiset() == b.to_multiset(),
    ensures
        a.contains(x) <==> b.contains(x),
{
    vstd::seq_lib::to_multiset_contains(a, x);
    vstd::seq_lib::to_multiset_contains(b, x);
}

proof fn lemma_distinct_in_any_order(a: Seq<LinkView>, b: Seq<LinkView>)
    requires
        a.to_multiset() == b.to_multiset(),
        distinct_names(a),
    ensures
        distinct_names(b),
{
    a.lemma_multiset_has_no_duplicates();
    b.lemma_multiset_has_no_duplicates_conv();
    assert forall|i: int, k: int|
        0 <= i < b.len() && 0 <= k < b.len() && (#[trigger] b[i]).name == (
        #[trigger] b[k]).name implies i == k by {
        lemma_same_elements(a, b, b[i]);
        lemma_same_elements(a, b, b[k]);
        let x = choose|x: int| 0 <= x < a.len() && a[x] == b[i];
        let y = choose|y: int| 0 <= y < a.len() && a[y] == b[k];
        assert(a[x].name == a[y].name);
    }
}

proof fn lemma_found_in_any_order(a: Seq<LinkView>, b: Seq<LinkView>, name: Seq<char>)
    requires
        a.to_multiset() == b.to_multiset(),
        distinct_names(b),
        find_link(a, name) is Some,
    ensures
        find_link(b, name) == find_link(a, name),
{
    law_found_link_has_its_name(a, name);
    let link = find_link(a, name)->0;
    lemma_same_elements(a, b, link);
    let k = choose|k: int| 0 <= k < b.len() && b[k] == link;
    law_distinct_links_are_found(b, k);
}

proof fn lemma_joints_count(joints: Seq<JointView>, parent: Seq<char>, joint: JointView)
    ensures
        joints_from(joints, parent).to_multiset().count(joint) == if joint.parent == parent {
            joints.to_multiset().count(joint)
        } else {
            0
        },
    decreases joints.len(),
{
    broadcast use vstd::seq_lib::group_to_multiset_ensures;

    reveal(Seq::filter);
    if joints.len() > 0 {
        let before = joints.drop_last();
        lemma_joints_count(before, parent, joint);
        assert(joints =~= before.push(joints.last()));
        if joints.last().parent == parent {
            assert(joints_from(joints, parent) == joints_from(before, parent).push(joints.last()));
        } else {
            assert(joints_from(joints, parent) == joints_from(before, parent));
        }
    } else {
        assert(joints_from(joints, parent) =~= joints);
    }
}

/// Where no two links have the same name, the order in which links and joints are listed makes no
/// difference to the tree: there is the same error or the same root, and by each name the same link
/// is found and the same joints but for their order.
pub proof fn law_order_does_not_matter(
    a: RobotView,
    b: RobotView,
    urdf_dir: Option<Seq<char>>,
    name: Seq<char>,
)
    requires
        a.links.to_multiset() == b.links.to_multiset(),
        a.joints.to_multiset() == b.joints.to_multiset(),
        distinct_names(a.links),
    ensures
        tree_of(a, urdf_dir) is Ok <==> tree_of(b, urdf_dir) is Ok,
        tree_of(a, urdf_dir) is Ok ==> tree_of(a, urdf_dir)->Ok_0.root == tree_of(
            b,
            urdf_dir,
        )->Ok_0.root,
        tree_of(a, urdf_dir) is Err ==> tree_of(a, urdf_dir)->Err_0 == tree_of(
            b,
            urdf_dir,
        )->Err_0,
        find_link(a.links, name) == find_link(b.links, name),
        joints_from(a.joints, name).to_multiset() == joints_from(b.joints, name).to_multiset(),
{
    lemma_distinct_in_any_order(a.links, b.links);
    assert forall|n: Seq<char>| #[trigger] find_link(a.links, n) == find_link(b.links, n) by {
        if find_link(a.links, n) is Some {
            lemma_found_in_any_order(a.links, b.links, n);
        } else if find_link(b.links, n) is Some {
            lemma_found_in_any_order(b.links, a.links, n);
        }
    }
    assert forall|n: Seq<char>| #[trigger] is_child(a.joints, n) == is_child(b.joints, n) by {
        if is_child(a.joints, n) {
            lemma_child_in_any_order(a.joints, b.joints, n);
        }
        if is_child(b.joints, n) {
            lemma_child_in_any_order(b.joints, a.joints, n);
        }
    }
    assert forall|n: Seq<char>| #[trigger] a.is_root(n) == b.is_root(n) by {
        assert(find_link(a.links, n) == find_link(b.links, n));
        assert(is_child(a.joints, n) == is_child(b.joints, n));
    }
    if tree_of(a, urdf_dir) is Ok {
        let root = tree_of(a, urdf_dir)->Ok_0.root;
        assert(a.is_root(root));
        assert(b.is_root(root));
        assert forall|n: Seq<char>| b.is_root(n) implies n == root by {
            assert(a.is_root(n));
        }
        law_root_is_the_only_one(b, urdf_dir, root);
    } else {
        if exists|n: Seq<char>| a.is_root(n) {
            let (x, y) = choose|x: Seq<char>, y: Seq<char>|
                x != y && #[trigger] a.is_root(x) && #[trigger] a.is_root(y);
            assert(b.is_root(x) && b.is_root(y));
        } else {
            assert forall|n: Seq<char>| !b.is_root(n) by {
                assert(a.is_root(n) == b.is_root(n));
            }
        }
    }
    let ja = joints_from(a.joints, name).to_multiset();
    let jb = joints_from(b.joints, name).to_multiset();
    assert forall|joint: JointView| ja.count(joint) == jb.count(joint) by {
        lemma_joints_count(a.joints, name, joint);
        lemma_joints_count(b.joints, name, joint);
    }
    assert(ja =~= jb);
}

proof fn lemma_child_in_any_order(a: Seq<JointView>, b: Seq<JointView>, name: Seq<char>)
    requires
        a.to_multiset() == b.to_multiset(),
        is_child(a, name),
    ensures
        is_child(b, name),
{
    let i = choose|i: int| 0 <= i < a.len() && #[trigger] a[i].child == name;
    lemma_same_elements(a, b, a[i]);
    let k = choose|k: int| 0 <= k < b.len() && b[k] == a[i];
    assert(b[k].child == name);
}

} // verus!
