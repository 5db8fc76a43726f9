//! What is logged of a joint, of a link and of its shapes.
//!
//! Each function adds its steps to a list, up to the first thing that goes wrong.

use vstd::prelude::*;

use crate::error::{RobotError, RobotErrorView};
use crate::resource::{
    load_ros_resource, media_type_of, mesh_media_type, ros_resource, ResourceFile,
};
use crate::robot::{
    views, Collision, CollisionView, Geometry, GeometryView, Joint, JointView, Link, LinkView,
    Material, MaterialView, Pose, Rgba, Vec3, Visual, VisualView,
};
use crate::step::{if_common, EntityPath, Payload, PayloadView, Step, StepView};
use crate::text::{decimal, joined, opt_chars, to_decimal};
use crate::tree::{TreeView, UrdfTree};

verus! {

/// Steps, and what went wrong behind the last of them.
pub struct Outcome {
    pub steps: Seq<StepView>,
    pub error: Option<RobotErrorView>,
}

impl Outcome {
    /// Steps behind which nothing went wrong.
    pub open spec fn fine(steps: Seq<StepView>) -> Outcome {
        Outcome { steps, error: None }
    }

    /// This outcome and, unless something went wrong, the next one behind it.
    pub open spec fn and_next(self, next: Outcome) -> Outcome {
        if self.error is Some {
            self
        } else {
            Outcome { steps: self.steps + next.steps, error: next.error }
        }
    }
}

/// Whether a function that found the steps `before` and left the steps `after` added the steps of
/// `outcome`, and gave back its error.
pub open spec fn reports(
    before: Seq<Step>,
    after: Seq<Step>,
    result: Result<(), RobotError>,
    outcome: Outcome,
) -> bool {
    &&& views(after) == views(before) + outcome.steps
    &&& match result {
        Ok(_) => outcome.error is None,
        Err(e) => outcome.error == Some(e@),
    }
}

/// The step that sends `payload` for the entity at `path`.
pub open spec fn sent(path: Seq<Seq<char>>, payload: PayloadView) -> StepView {
    StepView::Send { entity_path: path, payload }
}

/// The step that sends a text under the name of a component.
pub open spec fn text_sent(
    path: Seq<Seq<char>>,
    component: Seq<char>,
    text: Seq<char>,
) -> StepView {
    sent(path, PayloadView::DebugText { component, text })
}

/// As `text_sent`, where there is a text.
pub open spec fn text_sent_if_any(
    path: Seq<Seq<char>>,
    component: Seq<char>,
    text: Option<Seq<char>>,
) -> Seq<StepView> {
    match text {
        Some(text) => seq![text_sent(path, component, text)],
        None => seq![],
    }
}

/// The steps that send a transform: none where it moves nothing.
pub open spec fn transform_log(path: Seq<Seq<char>>, origin: Pose) -> Seq<StepView> {
    if origin.identity() {
        seq![]
    } else {
        seq![sent(path, PayloadView::Transform(origin))]
    }
}

/// The steps that log a joint.
pub open spec fn joint_log(path: Seq<Seq<char>>, joint: JointView) -> Seq<StepView> {
    transform_log(path, joint.origin) + seq![
        text_sent(path, "joint_type"@, joint.joint_type),
        text_sent(path, "axis"@, joint.axis),
        text_sent(path, "limit"@, joint.limit),
    ] + text_sent_if_any(path, "calibration"@, joint.calibration) + text_sent_if_any(
        path,
        "dynamics"@,
        joint.dynamics,
    ) + text_sent_if_any(path, "mimic"@, joint.mimic) + text_sent_if_any(
        path,
        "safety_controller"@,
        joint.safety_controller,
    )
}

/// The steps that send a mesh, once its file is read: its scale unless that is one, then itself,
/// with the media type that its name suggests, in the colour of its material if that has one.
pub open spec fn mesh_log(
    path: Seq<Seq<char>>,
    filename: Seq<char>,
    scale: Option<Vec3>,
    material: Option<MaterialView>,
) -> Seq<StepView> {
    let scaled = match scale {
        Some(scale) => if scale.one() {
            seq![]
        } else {
            seq![sent(path, PayloadView::Scale(scale))]
        },
        None => seq![],
    };
    let (albedo, textured) = match material {
        Some(material) => (material.color, material.textured),
        None => (None, false),
    };
    let media_type = if_common(filename, media_type_of(filename));
    scaled.push(sent(path, PayloadView::Mesh { filename, media_type, albedo, textured }))
}

/// What logging a shape comes to.
pub open spec fn geometry_log(
    tree: TreeView,
    path: Seq<Seq<char>>,
    geometry: GeometryView,
    material: Option<MaterialView>,
) -> Outcome {
    match geometry {
        GeometryView::Mesh { filename, scale } => match ros_resource(tree.urdf_dir, filename) {
            Ok(file) => Outcome::fine(
                seq![StepView::ReadFile(file)] + mesh_log(path, filename, scale, material),
            ),
            Err(e) => Outcome { steps: seq![], error: Some(e) },
        },
        GeometryView::Box { size } => Outcome::fine(seq![sent(path, PayloadView::Box(size))]),
        GeometryView::Cylinder { radius, length } => Outcome::fine(
            seq![sent(path, PayloadView::Cylinder { radius, length })],
        ),
        GeometryView::Capsule { radius, length } => Outcome::fine(
            seq![sent(path, PayloadView::Capsule { radius, length })],
        ),
        GeometryView::Sphere { radius } => Outcome::fine(
            seq![sent(path, PayloadView::Sphere { radius })],
        ),
    }
}

/// A name, or where there is none the name `kind` with a number.
pub open spec fn name_or_numbered(
    name: Option<Seq<char>>,
    kind: Seq<char>,
    i: nat,
) -> Seq<char> {
    match name {
        Some(name) => name,
        None => kind + decimal(i),
    }
}

/// What logging the shape `visual` comes to, the one at position `i` of its link.
pub open spec fn visual_log(
    tree: TreeView,
    link_path: Seq<Seq<char>>,
    visual: VisualView,
    i: nat,
) -> Outcome {
    let path = link_path.push(name_or_numbered(visual.name, "visual_"@, i));
    let material = match visual.material {
        Some(name) => tree.material(name),
        None => None,
    };
    Outcome::fine(transform_log(path, visual.origin)).and_next(
        geometry_log(tree, path, visual.geometry, material),
    )
}

/// What logging the shape `collision` comes to, the one at position `i` of its link.
pub open spec fn collision_log(
    tree: TreeView,
    link_path: Seq<Seq<char>>,
    collision: CollisionView,
    i: nat,
) -> Outcome {
    let path = link_path.push(name_or_numbered(collision.name, "collision_"@, i));
    Outcome::fine(transform_log(path, collision.origin)).and_next(
        geometry_log(tree, path, collision.geometry, None),
    )
}

/// What logging the first `n` of `visuals` comes to.
pub open spec fn visuals_log(
    tree: TreeView,
    link_path: Seq<Seq<char>>,
    visuals: Seq<VisualView>,
    n: nat,
) -> Outcome
    decreases n,
{
    if n == 0 {
        Outcome::fine(seq![])
    } else {
        let k = (n - 1) as nat;
        visuals_log(tree, link_path, visuals, k).and_next(
            visual_log(tree, link_path, visuals[k as int], k),
        )
    }
}

/// What logging the first `n` of `collisions` comes to.
pub open spec fn collisions_log(
    tree: TreeView,
    link_path: Seq<Seq<char>>,
    collisions: Seq<CollisionView>,
    n: nat,
) -> Outcome
    decreases n,
{
    if n == 0 {
        Outcome::fine(seq![])
    } else {
        let k = (n - 1) as nat;
        collisions_log(tree, link_path, collisions, k).and_next(
            collision_log(tree, link_path, collisions[k as int], k),
        )
    }
}

/// What logging a link comes to: its inertia, then its visual shapes, then those it collides with.
pub open spec fn link_log(tree: TreeView, link: LinkView, link_path: Seq<Seq<char>>) -> Outcome {
    Outcome::fine(seq![text_sent(link_path, "inertial"@, link.inertial)]).and_next(
        visuals_log(tree, link_path, link.visual, link.visual.len()),
    ).and_next(collisions_log(tree, link_path, link.collision, link.collision.len()))
}

/// Adds a step.
fn push_step(tx: &mut Vec<Step>, step: Step)
    ensures
        views(final(tx)@) == views(old(tx)@).push(step@),
{
    tx.push(step);
    assert(views(tx@) =~= views(old(tx)@).push(step@));
}

/// Logs a text under the name of a component.
pub fn log_debug_format(tx: &mut Vec<Step>, entity_path: EntityPath, name: &str, value: &str)
    ensures
        views(final(tx)@) == views(old(tx)@).push(text_sent(entity_path@, name@, value@)),
{
    push_step(
        tx,
        Step::Send {
            entity_path,
            payload: Payload::DebugText { component: name.to_owned(), text: value.to_owned() },
        },
    );
}

fn log_debug_format_if_any(
    tx: &mut Vec<Step>,
    entity_path: EntityPath,
    name: &str,
    value: &Option<String>,
)
    ensures
        views(final(tx)@) == views(old(tx)@) + text_sent_if_any(
            entity_path@,
            name@,
            opt_chars(*value),
        ),
{
    if let Some(value) = value {
        log_debug_format(tx, entity_path, name, value.as_str());
    }
    assert(views(tx@) =~= views(old(tx)@) + text_sent_if_any(
        entity_path@,
        name@,
        opt_chars(*value),
    ));
}

/// Logs a transform, unless it moves nothing.
pub fn send_transform(tx: &mut Vec<Step>, entity_path: EntityPath, origin: &Pose)
    ensures
        views(final(tx)@) == views(old(tx)@) + transform_log(entity_path@, *origin),
{
    if !origin.is_identity() {
        push_step(tx, Step::Send { entity_path, payload: Payload::Transform(*origin) });
    }
    assert(views(tx@) =~= views(old(tx)@) + transform_log(entity_path@, *origin));
}

/// Logs a joint.
pub fn log_joint(tx: &mut Vec<Step>, joint_path: &EntityPath, joint: &Joint)
    ensures
        views(final(tx)@) == views(old(tx)@) + joint_log(joint_path@, joint@),
{
    send_transform(tx, joint_path.clone(), &joint.origin);
    log_debug_format(tx, joint_path.clone(), "joint_type", joint.joint_type.as_str());
    log_debug_format(tx, joint_path.clone(), "axis", joint.axis.as_str());
    log_debug_format(tx, joint_path.clone(), "limit", joint.limit.as_str());
    log_debug_format_if_any(tx, joint_path.clone(), "calibration", &joint.calibration);
    log_debug_format_if_any(tx, joint_path.clone(), "dynamics", &joint.dynamics);
    log_debug_format_if_any(tx, joint_path.clone(), "mimic", &joint.mimic);
    log_debug_format_if_any(tx, joint_path.clone(), "safety_controller", &joint.safety_controller);
    assert(views(tx@) =~= views(old(tx)@) + joint_log(joint_path@, joint@));
}

/// Logs a shape. Only a mesh takes on a material.
pub fn log_geometry(
    tree: &UrdfTree,
    tx: &mut Vec<Step>,
    entity_path: EntityPath,
    geometry: &Geometry,
    material: Option<&Material>,
) -> (result: Result<(), RobotError>)
    ensures
        reports(
            old(tx)@,
            final(tx)@,
            result,
            geometry_log(
                tree@,
                entity_path@,
                geometry@,
                match material {
                    Some(material) => Some(material@),
                    None => None,
                },
            ),
        ),
{
    match geometry {
        Geometry::Mesh { filename, scale } => {
            let file: ResourceFile = match load_ros_resource(tree.urdf_dir(), filename.as_str()) {
                Ok(file) => file,
                Err(e) => {
                    assert(views(tx@) =~= views(old(tx)@) + seq![]);
                    return Err(e);
                },
            };
            push_step(tx, Step::ReadFile(file));
            let media_type: Option<String> = mesh_media_type(filename.as_str());
            if let Some(scale) = scale {
                if !scale.is_one() {
                    push_step(
                        tx,
                        Step::Send {
                            entity_path: entity_path.clone(),
                            payload: Payload::Scale(*scale),
                        },
                    );
                }
            }
            let albedo: Option<Rgba> = match material {
                Some(material) => material.color,
                None => None,
            };
            let textured: bool = match material {
                Some(material) => material.textured,
                None => false,
            };
            push_step(
                tx,
                Step::Send {
                    entity_path,
                    payload: Payload::Mesh {
                        filename: filename.clone(),
                        media_type,
                        albedo,
                        textured,
                    },
                },
            );
        },
        Geometry::Box { size } => {
            push_step(tx, Step::Send { entity_path, payload: Payload::Box(*size) });
        },
        Geometry::Cylinder { radius, length } => {
            push_step(
                tx,
                Step::Send {
                    entity_path,
                    payload: Payload::Cylinder { radius: *radius, length: *length },
                },
            );
        },
        Geometry::Capsule { radius, length } => {
            push_step(
                tx,
                Step::Send {
                    entity_path,
                    payload: Payload::Capsule { radius: *radius, length: *length },
                },
            );
        },
        Geometry::Sphere { radius } => {
            push_step(
                tx,
                Step::Send { entity_path, payload: Payload::Sphere { radius: *radius } },
            );
        },
    }
    proof {
        let m = match material {
            Some(material) => Some(material@),
            None => None,
        };
        assert(views(tx@) =~= views(old(tx)@) + geometry_log(
            tree@,
            entity_path@,
            geometry@,
            m,
        ).steps);
    }
    Ok(())
}

/// Once something went wrong, later shapes add nothing.
proof fn lemma_visuals_stop(
    tree: TreeView,
    link_path: Seq<Seq<char>>,
    visuals: Seq<VisualView>,
    k: nat,
    n: nat,
)
    requires
        k <= n,
        visuals_log(tree, link_path, visuals, k).error is Some,
    ensures
        visuals_log(tree, link_path, visuals, n) == visuals_log(tree, link_path, visuals, k),
    decreases n,
{
    if k < n {
        lemma_visuals_stop(tree, link_path, visuals, k, (n - 1) as nat);
    }
}

/// Once something went wrong, later shapes add nothing.
proof fn lemma_collisions_stop(
    tree: TreeView,
    link_path: Seq<Seq<char>>,
    collisions: Seq<CollisionView>,
    k: nat,
    n: nat,
)
    requires
        k <= n,
        collisions_log(tree, link_path, collisions, k).error is Some,
    ensures
        collisions_log(tree, link_path, collisions, n) == collisions_log(
            tree,
            link_path,
            collisions,
            k,
        ),
    decreases n,
{
    if k < n {
        lemma_collisions_stop(tree, link_path, collisions, k, (n - 1) as nat);
    }
}

fn name_or_number(name: &Option<String>, kind: &str, i: usize) -> (s: String)
    ensures
        s@ == name_or_numbered(opt_chars(*name), kind@, i as nat),
{
    match name {
        Some(name) => name.clone(),
        None => joined(kind, to_decimal(i).as_str()),
    }
}

fn log_visual(
    tree: &UrdfTree,
    tx: &mut Vec<Step>,
    visual: &Visual,
    i: usize,
    link_entity: &EntityPath,
) -> (result: Result<(), RobotError>)
    ensures
        reports(
            old(tx)@,
            final(tx)@,
            result,
            visual_log(tree@, link_entity@, visual@, i as nat),
        ),
{
    let name: String = name_or_number(&visual.name, "visual_", i);
    let vis_entity: EntityPath = link_entity.join(name.as_str());
    let material: Option<&Material> = match &visual.material {
        Some(name) => tree.material(name.as_str()),
        None => None,
    };
    send_transform(tx, vis_entity.clone(), &visual.origin);
    let result: Result<(), RobotError> = log_geometry(
        tree,
        tx,
        vis_entity,
        &visual.geometry,
        material,
    );
    assert(views(tx@) =~= views(old(tx)@) + visual_log(
        tree@,
        link_entity@,
        visual@,
        i as nat,
    ).steps);
    result
}

fn log_collision(
    tree: &UrdfTree,
    tx: &mut Vec<Step>,
    collision: &Collision,
    i: usize,
    link_entity: &EntityPath,
) -> (result: Result<(), RobotError>)
    ensures
        reports(
            old(tx)@,
            final(tx)@,
            result,
            collision_log(tree@, link_entity@, collision@, i as nat),
        ),
{
    let name: String = name_or_number(&collision.name, "collision_", i);
    let collision_entity: EntityPath = link_entity.join(name.as_str());
    send_transform(tx, collision_entity.clone(), &collision.origin);
    let result: Result<(), RobotError> = log_geometry(
        tree,
        tx,
        collision_entity,
        &collision.geometry,
        None,
    );
    assert(views(tx@) =~= views(old(tx)@) + collision_log(
        tree@,
        link_entity@,
        collision@,
        i as nat,
    ).steps);
    result
}

/// Logs a link and its shapes.
pub fn log_link(
    tree: &UrdfTree,
    tx: &mut Vec<Step>,
    link: &Link,
    link_entity: &EntityPath,
) -> (result: Result<(), RobotError>)
    ensures
        reports(old(tx)@, final(tx)@, result, link_log(tree@, link@, link_entity@)),
{
    let ghost start = views(tx@);
    let ghost path = link_entity@;
    let ghost visuals = link@.visual;
    let ghost collisions = link@.collision;
    let ghost first = Outcome::fine(seq![text_sent(path, "inertial"@, link@.inertial)]);
    log_debug_format(tx, link_entity.clone(), "inertial", link.inertial.as_str());

    let mut i: usize = 0;
    assert(views(tx@) =~= start + first.and_next(visuals_log(tree@, path, visuals, 0)).steps);
    while i < link.visual.len()
        invariant
            i <= link.visual.len(),
            path == link_entity@,
            visuals == link@.visual,
            collisions == link@.collision,
            first == Outcome::fine(seq![text_sent(path, "inertial"@, link@.inertial)]),
            start == views(old(tx)@),
            visuals_log(tree@, path, visuals, i as nat).error is None,
            views(tx@) == start + first.and_next(
                visuals_log(tree@, path, visuals, i as nat),
            ).steps,
        decreases link.visual.len() - i,
    {
        let result: Result<(), RobotError> = log_visual(
            tree,
            tx,
            &link.visual[i],
            i,
            link_entity,
        );
        proof {
            let done = visuals_log(tree@, path, visuals, i as nat);
            let more = visuals_log(tree@, path, visuals, (i + 1) as nat);
            let own = visual_log(tree@, path, visuals[i as int], i as nat);
            assert(visuals[i as int] == link.visual@[i as int]@);
            assert(more == done.and_next(own));
            assert(views(tx@) =~= start + first.and_next(more).steps);
            if result is Err {
                lemma_visuals_stop(tree@, path, visuals, (i + 1) as nat, visuals.len());
            }
        }
        if result.is_err() {
            return result;
        }
        i = i + 1;
    }
    let ghost both = first.and_next(visuals_log(tree@, path, visuals, visuals.len()));

    let mut i: usize = 0;
    assert(views(tx@) =~= start + both.and_next(collisions_log(tree@, path, collisions, 0)).steps);
    while i < link.collision.len()
        invariant
            i <= link.collision.len(),
            path == link_entity@,
            collisions == link@.collision,
            start == views(old(tx)@),
            both.error is None,
            link_log(tree@, link@, path) == both.and_next(
                collisions_log(tree@, path, collisions, collisions.len()),
            ),
            collisions_log(tree@, path, collisions, i as nat).error is None,
            views(tx@) == start + both.and_next(
                collisions_log(tree@, path, collisions, i as nat),
            ).steps,
        decreases link.collision.len() - i,
    {
        let result: Result<(), RobotError> = log_collision(
            tree,
            tx,
            &link.collision[i],
            i,
            link_entity,
        );
        proof {
            let done = collisions_log(tree@, path, collisions, i as nat);
            let more = collisions_log(tree@, path, collisions, (i + 1) as nat);
            let own = collision_log(tree@, path, collisions[i as int], i as nat);
            assert(collisions[i as int] == link.collision@[i as int]@);
            assert(more == done.and_next(own));
            assert(views(tx@) =~= start + both.and_next(more).steps);
            if result is Err {
                lemma_collisions_stop(tree@, path, collisions, (i + 1) as nat, collisions.len());
            }
        }
        if result.is_err() {
            return result;
        }
        i = i + 1;
    }
    Ok(())
}

} // verus!
