//! What the parts of a robot are logged as, told step by step.

use vstd::prelude::*;

use crate::log::{
    collision_log, collisions_log, geometry_log, joint_log, link_log, sent, text_sent,
    text_sent_if_any, transform_log, visual_log, visuals_log, Outcome,
};
use crate::path::has_common_extension;
use crate::resource::{media_type_of, ros_resource};
use crate::robot::{
    CollisionView, GeometryView, JointView, LinkView, MaterialView, Pose, Rgba, Vec3,
    VisualView,
};
use crate::step::{PayloadView, StepView};
use crate::text::decimal;
use crate::tree::{find_material, TreeView};

verus! {

/// Whether the number with this bit pattern equals zero: no bit is set but for that of the sign.
pub open spec fn is_nought(bits: u64) -> bool {
    bits % 0x8000_0000_0000_0000 == 0
}

/// Whether a pose neither shifts nor turns.
pub open spec fn stands_still(origin: Pose) -> bool {
    &&& is_nought(origin.xyz.x) && is_nought(origin.xyz.y) && is_nought(origin.xyz.z)
    &&& is_nought(origin.rpy.x) && is_nought(origin.rpy.y) && is_nought(origin.rpy.z)
}

/// The number of steps that a pose takes to send.
pub open spec fn moves(origin: Pose) -> int {
    if stands_still(origin) {
        0
    } else {
        1
    }
}

/// One where there is something, else zero.
pub open spec fn any<T>(part: Option<T>) -> int {
    if part is Some {
        1
    } else {
        0
    }
}

/// Whether step `i` sends a text, under the name of a component, for the entity at `path`.
pub open spec fn tells_at(
    steps: Seq<StepView>,
    i: int,
    path: Seq<Seq<char>>,
    component: Seq<char>,
    text: Seq<char>,
) -> bool {
    0 <= i < steps.len() && steps[i] == (StepView::Send {
        entity_path: path,
        payload: PayloadView::DebugText { component, text },
    })
}

/// Whether a step sends a text under the name of a component.
pub open spec fn is_told(step: StepView, component: Seq<char>) -> bool {
    step matches StepView::Send { payload: PayloadView::DebugText { component: own, .. }, .. }
        && own == component
}

/// Whether exactly one of the steps sends a text under the name of a component, and that is this
/// text, for the entity at `path`; or none, where there is no text.
pub open spec fn tells(
    steps: Seq<StepView>,
    path: Seq<Seq<char>>,
    component: Seq<char>,
    text: Option<Seq<char>>,
) -> bool {
    match text {
        Some(text) => exists|i: int| #[trigger]
            tells_at(steps, i, path, component, text) && forall|k: int|
                0 <= k < steps.len() && is_told(#[trigger] steps[k], component) ==> k == i,
        None => forall|k: int| 0 <= k < steps.len() ==> !is_told(#[trigger] steps[k], component),
    }
}

/// Whether the first of the steps sends `origin` for the entity at `path`, and no other sends a
/// transform; or none, where `origin` neither shifts nor turns.
pub open spec fn stands_first(
    steps: Seq<StepView>,
    path: Seq<Seq<char>>,
    origin: Pose,
) -> bool {
    &&& !stands_still(origin) ==> steps.len() > 0 && steps[0] == (StepView::Send {
        entity_path: path,
        payload: PayloadView::Transform(origin),
    })
    &&& forall|i: int|
        moves(origin) <= i < steps.len() ==> !(#[trigger] steps[i] matches StepView::Send {
            payload: PayloadView::Transform(_),
            ..
        })
}

proof fn lemma_nought(bits: u64)
    ensures
        is_nought(bits) <==> bits == 0 || bits == 0x8000_0000_0000_0000,
{
}

proof fn lemma_still(origin: Pose)
    ensures
        stands_still(origin) <==> origin.identity(),
{
    lemma_nought(origin.xyz.x);
    lemma_nought(origin.xyz.y);
    lemma_nought(origin.xyz.z);
    lemma_nought(origin.rpy.x);
    lemma_nought(origin.rpy.y);
    lemma_nought(origin.rpy.z);
}

/// Three numbers are zero or one if each of them is, and a pose moves nothing if it neither shifts
/// nor turns.
pub proof fn law_zero_and_one_are_told_by_their_bits(v: Vec3, origin: Pose)
    ensures
        v.zero() <==> is_nought(v.x) && is_nought(v.y) && is_nought(v.z),
        v.one() <==> v.x == 0x3FF0_0000_0000_0000 && v.y == 0x3FF0_0000_0000_0000 && v.z
            == 0x3FF0_0000_0000_0000,
        origin.identity() <==> stands_still(origin),
{
    lemma_nought(v.x);
    lemma_nought(v.y);
    lemma_nought(v.z);
    lemma_still(origin);
}

/// What is sent is sent of the entity that is named, and a text under the name that is given.
pub proof fn law_all_is_sent_as_it_is_given(
    path: Seq<Seq<char>>,
    payload: PayloadView,
    component: Seq<char>,
    text: Seq<char>,
)
    ensures
        sent(path, payload) == (StepView::Send { entity_path: path, payload }),
        text_sent(path, component, text) == (StepView::Send {
            entity_path: path,
            payload: PayloadView::DebugText { component, text },
        }),
{
}

/// An origin is sent as it is for its own entity, if it shifts or turns by any amount in any
/// direction, and only then.
pub proof fn law_origins_are_sent_unless_still(path: Seq<Seq<char>>, origin: Pose)
    ensures
        transform_log(path, origin).len() == moves(origin),
        stands_first(transform_log(path, origin), path, origin),
{
    lemma_still(origin);
}

/// A joint is logged as its origin, unless that stands still, then its type, its axis and its
/// limit, then what it has of calibration, dynamics, mimicry and a safety controller. Each part
/// stands behind those before it that are there, and there is nothing else.
pub proof fn law_joints_are_logged_part_by_part(path: Seq<Seq<char>>, joint: JointView)
    ensures
        ({
            let steps = joint_log(path, joint);
            let fixed = moves(joint.origin) + 3;
            let c = any(joint.calibration);
            let d = any(joint.dynamics);
            let m = any(joint.mimic);
            let s = any(joint.safety_controller);
            &&& steps.len() == fixed + c + d + m + s
            &&& stands_first(steps, path, joint.origin)
            &&& tells_at(steps, fixed - 3, path, "joint_type"@, joint.joint_type)
            &&& tells_at(steps, fixed - 2, path, "axis"@, joint.axis)
            &&& tells_at(steps, fixed - 1, path, "limit"@, joint.limit)
            &&& joint.calibration matches Some(text) ==> tells_at(
                steps,
                fixed,
                path,
                "calibration"@,
                text,
            )
            &&& joint.dynamics matches Some(text) ==> tells_at(
                steps,
                fixed + c,
                path,
                "dynamics"@,
                text,
            )
            &&& joint.mimic matches Some(text) ==> tells_at(
                steps,
                fixed + c + d,
                path,
                "mimic"@,
                text,
            )
            &&& joint.safety_controller matches Some(text) ==> tells_at(
                steps,
                fixed + c + d + m,
                path,
                "safety_controller"@,
                text,
            )
        }),
{
    lemma_still(joint.origin);
    let a = transform_log(path, joint.origin);
    let always = seq![
        StepView::Send {
            entity_path: path,
            payload: PayloadView::DebugText { component: "joint_type"@, text: joint.joint_type },
        },
        StepView::Send {
            entity_path: path,
            payload: PayloadView::DebugText { component: "axis"@, text: joint.axis },
        },
        StepView::Send {
            entity_path: path,
            payload: PayloadView::DebugText { component: "limit"@, text: joint.limit },
        },
    ];
    let b = a + always;
    assert(b[a.len() as int] == always[0]);
    assert(b[a.len() as int + 1] == always[1]);
    assert(b[a.len() as int + 2] == always[2]);
    let c = b + text_sent_if_any(path, "calibration"@, joint.calibration);
    let d = c + text_sent_if_any(path, "dynamics"@, joint.dynamics);
    let e = d + text_sent_if_any(path, "mimic"@, joint.mimic);
    let f = e + text_sent_if_any(path, "safety_controller"@, joint.safety_controller);
    lemma_optional(b, path, "calibration"@, joint.calibration);
    lemma_optional(c, path, "dynamics"@, joint.dynamics);
    lemma_optional(d, path, "mimic"@, joint.mimic);
    lemma_optional(e, path, "safety_controller"@, joint.safety_controller);
    assert(joint_log(path, joint) == f);
}

proof fn lemma_optional(
    before: Seq<StepView>,
    path: Seq<Seq<char>>,
    component: Seq<char>,
    text: Option<Seq<char>>,
)
    ensures
        ({
            let longer = before + text_sent_if_any(path, component, text);
            &&& longer.len() == before.len() + any(text)
            &&& forall|i: int| 0 <= i < before.len() ==> longer[i] == #[trigger] before[i]
            &&& forall|i: int|
                before.len() <= i < longer.len() ==> !(#[trigger] longer[i] matches StepView::Send {
                    payload: PayloadView::Transform(_),
                    ..
                })
            &&& text matches Some(text) ==> tells_at(
                longer,
                before.len() as int,
                path,
                component,
                text,
            )
        }),
{
}

proof fn lemma_tells(
    steps: Seq<StepView>,
    path: Seq<Seq<char>>,
    component: Seq<char>,
    text: Option<Seq<char>>,
    i: int,
)
    requires
        text matches Some(text) ==> tells_at(steps, i, path, component, text),
        forall|k: int|
            0 <= k < steps.len() && is_told(#[trigger] steps[k], component) ==> k == i
                && text is Some,
    ensures
        tells(steps, path, component, text),
{
    if let Some(t) = text {
        assert(tells_at(steps, i, path, component, t));
    }
}

/// Each part of a joint is told once if the joint has it and never if it has not, whatever other
/// parts the joint has.
pub proof fn law_each_part_of_a_joint_is_told(path: Seq<Seq<char>>, joint: JointView)
    ensures
        tells(joint_log(path, joint), path, "joint_type"@, Some(joint.joint_type)),
        tells(joint_log(path, joint), path, "axis"@, Some(joint.axis)),
        tells(joint_log(path, joint), path, "limit"@, Some(joint.limit)),
        tells(joint_log(path, joint), path, "calibration"@, joint.calibration),
        tells(joint_log(path, joint), path, "dynamics"@, joint.dynamics),
        tells(joint_log(path, joint), path, "mimic"@, joint.mimic),
        tells(joint_log(path, joint), path, "safety_controller"@, joint.safety_controller),
{
    reveal_strlit("joint_type");
    reveal_strlit("axis");
    reveal_strlit("limit");
    reveal_strlit("calibration");
    reveal_strlit("dynamics");
    reveal_strlit("mimic");
    reveal_strlit("safety_controller");
    assert("joint_type"@[0] == 'j' && "axis"@[0] == 'a' && "limit"@[0] == 'l');
    assert("calibration"@[0] == 'c' && "dynamics"@[0] == 'd' && "mimic"@[0] == 'm');
    assert("safety_controller"@[0] == 's');
    law_joints_are_logged_part_by_part(path, joint);
    let steps = joint_log(path, joint);
    let fixed: int = moves(joint.origin) + 3;
    let c: int = fixed + any(joint.calibration);
    let d: int = c + any(joint.dynamics);
    let m: int = d + any(joint.mimic);
    if fixed == 4 {
        assert(steps[0] is Send);
    }
    assert forall|k: int| 0 <= k < steps.len() implies {
        &&& is_told(#[trigger] steps[k], "joint_type"@) ==> k == fixed - 3
        &&& is_told(steps[k], "axis"@) ==> k == fixed - 2
        &&& is_told(steps[k], "limit"@) ==> k == fixed - 1
        &&& is_told(steps[k], "calibration"@) ==> k == fixed && joint.calibration is Some
        &&& is_told(steps[k], "dynamics"@) ==> k == c && joint.dynamics is Some
        &&& is_told(steps[k], "mimic"@) ==> k == d && joint.mimic is Some
        &&& is_told(steps[k], "safety_controller"@) ==> k == m && joint.safety_controller is Some
    } by {}
    lemma_tells(steps, path, "joint_type"@, Some(joint.joint_type), fixed - 3);
    lemma_tells(steps, path, "axis"@, Some(joint.axis), fixed - 2);
    lemma_tells(steps, path, "limit"@, Some(joint.limit), fixed - 1);
    lemma_tells(steps, path, "calibration"@, joint.calibration, fixed);
    lemma_tells(steps, path, "dynamics"@, joint.dynamics, c);
    lemma_tells(steps, path, "mimic"@, joint.mimic, d);
    lemma_tells(steps, path, "safety_controller"@, joint.safety_controller, m);
}

/// Whether a mesh is to be scaled: it has a scale, and that is not one in all directions.
pub open spec fn is_scaled(scale: Option<Vec3>) -> bool {
    scale matches Some(s) && !(s.x == 0x3FF0_0000_0000_0000 && s.y == 0x3FF0_0000_0000_0000 && s.z
        == 0x3FF0_0000_0000_0000)
}

/// Whether a step sends the mesh `filename` for the entity at `path`, in the given colour.
pub open spec fn sends_mesh(
    step: StepView,
    path: Seq<Seq<char>>,
    filename: Seq<char>,
    albedo: Option<Rgba>,
    textured: bool,
) -> bool {
    step matches StepView::Send {
        entity_path,
        payload: PayloadView::Mesh { filename: f, media_type: t, albedo: a, textured: x },
    } && entity_path == path && f == filename && a == albedo && x == textured && t == if
        has_common_extension(filename) {
        media_type_of(filename)
    } else {
        None
    }
}

/// A shape that is no mesh is sent as it is, in one step, whatever the material.
pub proof fn law_plain_shapes_are_sent_as_they_are(
    tree: TreeView,
    path: Seq<Seq<char>>,
    geometry: GeometryView,
    material: Option<MaterialView>,
)
    requires
        !(geometry is Mesh),
    ensures
        ({
            let outcome = geometry_log(tree, path, geometry, material);
            &&& outcome.error is None
            &&& outcome.steps.len() == 1
            &&& outcome.steps[0] matches StepView::Send { entity_path, payload }
            &&& entity_path == path
            &&& match geometry {
                GeometryView::Box { size } => payload == PayloadView::Box(size),
                GeometryView::Cylinder { radius, length } => payload == (PayloadView::Cylinder {
                    radius,
                    length,
                }),
                GeometryView::Capsule { radius, length } => payload == (PayloadView::Capsule {
                    radius,
                    length,
                }),
                GeometryView::Sphere { radius } => payload == (PayloadView::Sphere { radius }),
                GeometryView::Mesh { .. } => false,
            }
        }),
{
}

/// Of a mesh that is found, the file is read first. Then its scale is sent exactly if it has one
/// other than one, whatever the material, and then the mesh itself, in the colour of the material.
/// There is nothing else. Of a mesh that is not found nothing is logged.
pub proof fn law_meshes_are_read_scaled_and_sent(
    tree: TreeView,
    path: Seq<Seq<char>>,
    filename: Seq<char>,
    scale: Option<Vec3>,
    material: Option<MaterialView>,
)
    ensures
        ({
            let outcome = geometry_log(
                tree,
                path,
                GeometryView::Mesh { filename, scale },
                material,
            );
            match ros_resource(tree.urdf_dir, filename) {
                Ok(file) => {
                    &&& outcome.error is None
                    &&& outcome.steps.len() == if is_scaled(scale) {
                        3int
                    } else {
                        2int
                    }
                    &&& outcome.steps[0] == StepView::ReadFile(file)
                    &&& is_scaled(scale) ==> outcome.steps[1] == (StepView::Send {
                        entity_path: path,
                        payload: PayloadView::Scale(scale->0),
                    })
                    &&& material matches Some(m) ==> sends_mesh(
                        outcome.steps.last(),
                        path,
                        filename,
                        m.color,
                        m.textured,
                    )
                    &&& material is None ==> sends_mesh(
                        outcome.steps.last(),
                        path,
                        filename,
                        None,
                        false,
                    )
                },
                Err(e) => outcome.steps.len() == 0 && outcome.error == Some(e),
            }
        }),
{
}

/// The material makes a difference to a mesh only in its last step.
pub proof fn law_materials_change_only_the_mesh(
    tree: TreeView,
    path: Seq<Seq<char>>,
    geometry: GeometryView,
    a: Option<MaterialView>,
    b: Option<MaterialView>,
)
    ensures
        ({
            let x = geometry_log(tree, path, geometry, a);
            let y = geometry_log(tree, path, geometry, b);
            &&& x.error == y.error
            &&& x.steps.len() == y.steps.len()
            &&& forall|i: int|
                0 <= i < x.steps.len() - 1 ==> #[trigger] x.steps[i] == y.steps[i]
        }),
{
}

/// Whether `material` is the one that a shape gets whose material has the name `name`: the last
/// with that name that the robot lists, and none where there is no name or none with it.
pub open spec fn is_material_for(
    materials: Seq<MaterialView>,
    name: Option<Seq<char>>,
    material: Option<MaterialView>,
) -> bool {
    match (name, material) {
        (None, material) => material is None,
        (Some(name), None) => forall|k: int|
            0 <= k < materials.len() ==> (#[trigger] materials[k]).name != name,
        (Some(name), Some(material)) => exists|k: int|
            0 <= k < materials.len() && #[trigger] materials[k] == material && material.name
                == name && forall|m: int|
                k < m < materials.len() ==> (#[trigger] materials[m]).name != name,
    }
}

/// By its name the last material that has it is found, and none only where none has it.
pub proof fn law_materials_are_found_by_name(materials: Seq<MaterialView>, name: Seq<char>)
    ensures
        is_material_for(materials, Some(name), find_material(materials, name)),
    decreases materials.len(),
{
    if materials.len() > 0 && materials.last().name != name {
        let rest = materials.drop_last();
        law_materials_are_found_by_name(rest, name);
        match find_material(rest, name) {
            Some(material) => {
                let k = choose|k: int|
                    0 <= k < rest.len() && #[trigger] rest[k] == material && material.name
                        == name && forall|m: int|
                        k < m < rest.len() ==> (#[trigger] rest[m]).name != name;
                assert(materials[k] == material);
                assert forall|m: int| k < m < materials.len() implies (
                #[trigger] materials[m]).name != name by {
                    if m < rest.len() {
                        assert(rest[m].name != name);
                    }
                }
            },
            None => {
                assert forall|k: int| 0 <= k < materials.len() implies (
                #[trigger] materials[k]).name != name by {
                    if k < rest.len() {
                        assert(rest[k].name != name);
                    }
                }
            },
        }
    } else if materials.len() > 0 {
        assert(materials[materials.len() - 1] == materials.last());
    }
}

/// Whether `outcome` is `origin` for the entity at `path`, unless that stands still, and then
/// `shape`.
pub open spec fn is_placed(
    outcome: Outcome,
    path: Seq<Seq<char>>,
    origin: Pose,
    shape: Outcome,
) -> bool {
    &&& outcome.error == shape.error
    &&& outcome.steps.len() == moves(origin) + shape.steps.len()
    &&& stands_first(outcome.steps, path, origin)
    &&& forall|i: int|
        0 <= i < shape.steps.len() ==> outcome.steps[moves(origin) + i] == #[trigger] shape.steps[i]
}

/// The entity of a shape stands under its link, by its own name or else by its kind and its number.
pub open spec fn shape_path(
    link_path: Seq<Seq<char>>,
    name: Option<Seq<char>>,
    kind: Seq<char>,
    i: nat,
) -> Seq<Seq<char>> {
    link_path + seq![
        match name {
            Some(name) => name,
            None => kind + decimal(i),
        },
    ]
}

proof fn lemma_placed(path: Seq<Seq<char>>, origin: Pose, shape: Outcome)
    requires
        forall|i: int|
            0 <= i < shape.steps.len() ==> !(#[trigger] shape.steps[i] matches StepView::Send {
                payload: PayloadView::Transform(_),
                ..
            }),
    ensures
        is_placed(
            Outcome::fine(transform_log(path, origin)).and_next(shape),
            path,
            origin,
            shape,
        ),
{
    lemma_still(origin);
}

/// A visual shape is logged as its origin, unless that stands still, and then the shape itself,
/// with the material that the robot has by the name that the shape gives, both for an entity under
/// that of the link. Whether the shape has a name makes no difference but to the entity.
pub proof fn law_visuals_are_placed_and_coloured(
    tree: TreeView,
    link_path: Seq<Seq<char>>,
    visual: VisualView,
    i: nat,
) -> (material: Option<MaterialView>)
    ensures
        is_material_for(tree.robot.materials, visual.material, material),
        is_placed(
            visual_log(tree, link_path, visual, i),
            shape_path(link_path, visual.name, "visual_"@, i),
            visual.origin,
            geometry_log(
                tree,
                shape_path(link_path, visual.name, "visual_"@, i),
                visual.geometry,
                material,
            ),
        ),
{
    let path = shape_path(link_path, visual.name, "visual_"@, i);
    let material = match visual.material {
        Some(name) => {
            law_materials_are_found_by_name(tree.robot.materials, name);
            find_material(tree.robot.materials, name)
        },
        None => None,
    };
    let shape = geometry_log(tree, path, visual.geometry, material);
    lemma_placed(path, visual.origin, shape);
    match visual.name {
        Some(name) => {
            assert(path =~= link_path.push(name));
        },
        None => {
            assert(path =~= link_path.push("visual_"@ + decimal(i)));
        },
    }
    assert(visual_log(tree, link_path, visual, i) == Outcome::fine(
        transform_log(path, visual.origin),
    ).and_next(shape));
    material
}

/// A shape to collide with is logged as its origin, unless that stands still, and then the shape
/// itself without a material, both for an entity under that of the link.
pub proof fn law_collisions_are_placed(
    tree: TreeView,
    link_path: Seq<Seq<char>>,
    collision: CollisionView,
    i: nat,
)
    ensures
        is_placed(
            collision_log(tree, link_path, collision, i),
            shape_path(link_path, collision.name, "collision_"@, i),
            collision.origin,
            geometry_log(
                tree,
                shape_path(link_path, collision.name, "collision_"@, i),
                collision.geometry,
                None,
            ),
        ),
{
    let path = shape_path(link_path, collision.name, "collision_"@, i);
    let shape = geometry_log(tree, path, collision.geometry, None);
    lemma_placed(path, collision.origin, shape);
    match collision.name {
        Some(name) => {
            assert(path =~= link_path.push(name));
        },
        None => {
            assert(path =~= link_path.push("collision_"@ + decimal(i)));
        },
    }
    assert(collision_log(tree, link_path, collision, i) == Outcome::fine(
        transform_log(path, collision.origin),
    ).and_next(shape));
}

/// A mesh by which a link is shown, named or not, is sent in the colour of the last material that
/// the robot has by the name that the shape gives. It has no colour only where that material has
/// none, or there is no such material, or the shape gives no name of one.
pub proof fn law_visual_meshes_have_their_colour(
    tree: TreeView,
    link_path: Seq<Seq<char>>,
    visual: VisualView,
    i: nat,
    k: int,
)
    requires
        visual.geometry is Mesh,
        ros_resource(tree.urdf_dir, visual.geometry->Mesh_filename) is Ok,
    ensures
        ({
            let steps = visual_log(tree, link_path, visual, i).steps;
            let materials = tree.robot.materials;
            let path = shape_path(link_path, visual.name, "visual_"@, i);
            let filename = visual.geometry->Mesh_filename;
            &&& steps.len() > 0
            &&& visual.material is None ==> sends_mesh(steps.last(), path, filename, None, false)
            &&& visual.material matches Some(name) ==> {
                &&& (forall|m: int|
                    0 <= m < materials.len() ==> (#[trigger] materials[m]).name != name)
                    ==> sends_mesh(steps.last(), path, filename, None, false)
                &&& 0 <= k < materials.len() && materials[k].name == name && (forall|m: int|
                    k < m < materials.len() ==> (#[trigger] materials[m]).name != name)
                    ==> sends_mesh(
                    steps.last(),
                    path,
                    filename,
                    materials[k].color,
                    materials[k].textured,
                )
            }
        }),
{
    let path = shape_path(link_path, visual.name, "visual_"@, i);
    let filename = visual.geometry->Mesh_filename;
    let scale = visual.geometry->Mesh_scale;
    let materials = tree.robot.materials;
    let material = law_visuals_are_placed_and_coloured(tree, link_path, visual, i);
    law_meshes_are_read_scaled_and_sent(tree, path, filename, scale, material);
    let shape = geometry_log(tree, path, visual.geometry, material).steps;
    let steps = visual_log(tree, link_path, visual, i).steps;
    assert(steps[moves(visual.origin) + (shape.len() - 1)] == shape[shape.len() - 1]);
    assert(steps.last() == shape.last());
    if let Some(name) = visual.material {
        if 0 <= k < materials.len() && materials[k].name == name && (forall|m: int|
            k < m < materials.len() ==> (#[trigger] materials[m]).name != name) {
            assert(material is Some);
            let found = choose|n: int|
                0 <= n < materials.len() && #[trigger] materials[n] == material->0
                    && material->0.name == name && forall|m: int|
                    n < m < materials.len() ==> (#[trigger] materials[m]).name != name;
            assert(materials[found].name == name);
            assert(found == k);
        }
    }
}

/// Whether `whole`, from position `start` on, is made of the first of `parts` in a row, up to and
/// including the first that went wrong, or of all of them where none did. `cuts` are the positions
/// at which the parts start, and that at which the last ends.
#[verifier::opaque]
pub open spec fn is_row(
    whole: Outcome,
    start: int,
    parts: Seq<Outcome>,
    cuts: Seq<int>,
) -> bool {
    let n = cuts.len() - 1;
    &&& 0 <= n <= parts.len()
    &&& 0 <= start
    &&& cuts[0] == start
    &&& cuts[n] == whole.steps.len()
    &&& forall|k: int|
        0 <= k < n ==> {
            &&& start <= #[trigger] cuts[k] <= cuts[k + 1] <= whole.steps.len()
            &&& whole.steps.subrange(cuts[k], cuts[k + 1]) == parts[k].steps
            &&& k < n - 1 ==> parts[k].error is None
        }
    &&& match whole.error {
        None => n == parts.len() && (n > 0 ==> parts[n - 1].error is None),
        Some(e) => n > 0 && parts[n - 1].error == Some(e),
    }
}

/// What is put together of parts one behind the other is a row of them.
pub(crate) proof fn lemma_row_extends(
    whole: Outcome,
    start: int,
    parts: Seq<Outcome>,
    next: Outcome,
    cuts: Seq<int>,
) -> (longer: Seq<int>)
    requires
        is_row(whole, start, parts, cuts),
    ensures
        is_row(whole.and_next(next), start, parts.push(next), longer),
{
    reveal(is_row);
    let all = parts.push(next);
    let n = cuts.len() - 1;
    if whole.error is Some {
        assert forall|k: int| 0 <= k < n implies {
            &&& start <= #[trigger] cuts[k] <= cuts[k + 1] <= whole.steps.len()
            &&& whole.steps.subrange(cuts[k], cuts[k + 1]) == all[k].steps
            &&& k < n - 1 ==> all[k].error is None
        } by {}
        cuts
    } else {
        let more = whole.and_next(next);
        let longer = cuts.push(more.steps.len() as int);
        assert forall|k: int| 0 <= k < n + 1 implies {
            &&& start <= #[trigger] longer[k] <= longer[k + 1] <= more.steps.len()
            &&& more.steps.subrange(longer[k], longer[k + 1]) == all[k].steps
            &&& k < n ==> all[k].error is None
        } by {
            if k < n {
                assert(start <= cuts[k] <= cuts[k + 1] <= whole.steps.len());
                assert(more.steps.subrange(longer[k], longer[k + 1]) =~= whole.steps.subrange(
                    cuts[k],
                    cuts[k + 1],
                ));
            } else {
                if n > 0 {
                    assert(start <= cuts[n - 1] <= cuts[n - 1 + 1]);
                }
                assert(more.steps.subrange(longer[k], longer[k + 1]) =~= next.steps);
            }
        }
        longer
    }
}

pub(crate) proof fn lemma_row_starts(first: Outcome) -> (cuts: Seq<int>)
    requires
        first.error is None,
    ensures
        is_row(
            first.and_next(Outcome { steps: seq![], error: None }),
            first.steps.len() as int,
            seq![],
            cuts,
        ),
{
    reveal(is_row);
    assert(first.steps + Seq::<StepView>::empty() =~= first.steps);
    seq![first.steps.len() as int]
}

pub(crate) proof fn lemma_row_associates(a: Outcome, b: Outcome, c: Outcome)
    ensures
        a.and_next(b).and_next(c) == a.and_next(b.and_next(c)),
{
    assert(a.steps + b.steps + c.steps =~= a.steps + (b.steps + c.steps));
}

/// In a row in which nothing went wrong, each part stands where the cuts say.
pub(crate) proof fn lemma_row_holds(
    whole: Outcome,
    start: int,
    parts: Seq<Outcome>,
    cuts: Seq<int>,
    k: int,
)
    requires
        is_row(whole, start, parts, cuts),
        whole.error is None,
        0 <= k < parts.len(),
    ensures
        parts[k].error is None,
        start <= cuts[k],
        cuts[k] + parts[k].steps.len() <= whole.steps.len(),
        forall|i: int|
            0 <= i < parts[k].steps.len() ==> #[trigger] parts[k].steps[i] == whole.steps[cuts[k]
                + i],
{
    reveal(is_row);
    assert(start <= cuts[k] <= cuts[k + 1] <= whole.steps.len());
    let run = whole.steps.subrange(cuts[k], cuts[k + 1]);
    assert(run == parts[k].steps);
    assert forall|i: int| 0 <= i < parts[k].steps.len() implies #[trigger] parts[k].steps[i]
        == whole.steps[cuts[k] + i] by {
        assert(run[i] == whole.steps[cuts[k] + i]);
    }
}

/// What is logged of the shapes of a link, one by one: first those by which it is shown, then those
/// with which it collides.
spec fn shape_logs(
    tree: TreeView,
    link: LinkView,
    link_path: Seq<Seq<char>>,
) -> Seq<Outcome> {
    Seq::new(
        link.visual.len(),
        |k: int| visual_log(tree, link_path, link.visual[k], k as nat),
    ) + Seq::new(
        link.collision.len(),
        |k: int| collision_log(tree, link_path, link.collision[k], k as nat),
    )
}

proof fn lemma_visuals_row(
    tree: TreeView,
    link: LinkView,
    path: Seq<Seq<char>>,
    first: Outcome,
    n: nat,
) -> (cuts: Seq<int>)
    requires
        first.error is None,
        n <= link.visual.len(),
    ensures
        is_row(
            first.and_next(visuals_log(tree, path, link.visual, n)),
            first.steps.len() as int,
            shape_logs(tree, link, path).take(n as int),
            cuts,
        ),
    decreases n,
{
    let parts = shape_logs(tree, link, path);
    if n == 0 {
        assert(parts.take(0) =~= seq![]);
        lemma_row_starts(first)
    } else {
        let k = (n - 1) as nat;
        let cuts = lemma_visuals_row(tree, link, path, first, k);
        let before = visuals_log(tree, path, link.visual, k);
        let next = visual_log(tree, path, link.visual[k as int], k);
        let longer = lemma_row_extends(
            first.and_next(before),
            first.steps.len() as int,
            parts.take(k as int),
            next,
            cuts,
        );
        assert(parts.take(n as int) =~= parts.take(k as int).push(next));
        lemma_row_associates(first, before, next);
        longer
    }
}

proof fn lemma_collisions_row(
    tree: TreeView,
    link: LinkView,
    path: Seq<Seq<char>>,
    first: Outcome,
    n: nat,
) -> (cuts: Seq<int>)
    requires
        first.error is None,
        n <= link.collision.len(),
    ensures
        is_row(
            first.and_next(visuals_log(tree, path, link.visual, link.visual.len())).and_next(
                collisions_log(tree, path, link.collision, n),
            ),
            first.steps.len() as int,
            shape_logs(tree, link, path).take((link.visual.len() + n) as int),
            cuts,
        ),
    decreases n,
{
    let parts = shape_logs(tree, link, path);
    let v = link.visual.len();
    let shown = first.and_next(visuals_log(tree, path, link.visual, v));
    if n == 0 {
        let cuts = lemma_visuals_row(tree, link, path, first, v);
        assert(shown.steps + Seq::<StepView>::empty() =~= shown.steps);
        cuts
    } else {
        let k = (n - 1) as nat;
        let cuts = lemma_collisions_row(tree, link, path, first, k);
        let before = collisions_log(tree, path, link.collision, k);
        let next = collision_log(tree, path, link.collision[k as int], k);
        let longer = lemma_row_extends(
            shown.and_next(before),
            first.steps.len() as int,
            parts.take((v + k) as int),
            next,
            cuts,
        );
        assert(parts.take((v + n) as int) =~= parts.take((v + k) as int).push(next));
        lemma_row_associates(shown, before, next);
        longer
    }
}

/// A link is logged as its inertia and then all its shapes in a row, first those by which it is
/// shown and then those with which it collides, whatever there are of each, up to the first that
/// goes wrong. There is nothing else.
pub proof fn law_links_are_logged_shape_by_shape(
    tree: TreeView,
    link: LinkView,
    link_path: Seq<Seq<char>>,
) -> (cuts: Seq<int>)
    ensures
        tells_at(link_log(tree, link, link_path).steps, 0, link_path, "inertial"@, link.inertial),
        is_row(
            link_log(tree, link, link_path),
            1,
            Seq::new(
                link.visual.len() + link.collision.len(),
                |k: int|
                    if k < link.visual.len() {
                        visual_log(tree, link_path, link.visual[k], k as nat)
                    } else {
                        collision_log(
                            tree,
                            link_path,
                            link.collision[k - link.visual.len()],
                            (k - link.visual.len()) as nat,
                        )
                    },
            ),
            cuts,
        ),
{
    let first = Outcome::fine(
        seq![
            StepView::Send {
                entity_path: link_path,
                payload: PayloadView::DebugText { component: "inertial"@, text: link.inertial },
            },
        ],
    );
    let v = link.visual.len();
    let c = link.collision.len();
    let cuts = lemma_collisions_row(tree, link, link_path, first, c);
    assert(shape_logs(tree, link, link_path).take((v + c) as int) =~= Seq::new(
        v + c,
        |k: int|
            if k < v {
                visual_log(tree, link_path, link.visual[k], k as nat)
            } else {
                collision_log(tree, link_path, link.collision[k - v], (k - v) as nat)
            },
    ));
    cuts
}

/// A link that is logged without an error logs every one of its shapes, whatever others it has: the
/// steps of each shape stand in a run.
pub proof fn law_every_shape_of_a_link_is_logged(
    tree: TreeView,
    link: LinkView,
    link_path: Seq<Seq<char>>,
    k: int,
) -> (at: (int, int))
    requires
        link_log(tree, link, link_path).error is None,
    ensures
        0 <= k < link.visual.len() ==> {
            let own = visual_log(tree, link_path, link.visual[k], k as nat);
            &&& own.error is None
            &&& 1 <= at.0 && at.0 + own.steps.len() <= link_log(tree, link, link_path).steps.len()
            &&& forall|i: int|
                0 <= i < own.steps.len() ==> #[trigger] own.steps[i] == link_log(
                    tree,
                    link,
                    link_path,
                ).steps[at.0 + i]
        },
        0 <= k < link.collision.len() ==> {
            let own = collision_log(tree, link_path, link.collision[k], k as nat);
            &&& own.error is None
            &&& 1 <= at.1 && at.1 + own.steps.len() <= link_log(tree, link, link_path).steps.len()
            &&& forall|i: int|
                0 <= i < own.steps.len() ==> #[trigger] own.steps[i] == link_log(
                    tree,
                    link,
                    link_path,
                ).steps[at.1 + i]
        },
{
    let cuts = law_links_are_logged_shape_by_shape(tree, link, link_path);
    let whole = link_log(tree, link, link_path);
    let v = link.visual.len() as int;
    let parts = Seq::new(
        link.visual.len() + link.collision.len(),
        |k: int|
            if k < link.visual.len() {
                visual_log(tree, link_path, link.visual[k], k as nat)
            } else {
                collision_log(
                    tree,
                    link_path,
                    link.collision[k - link.visual.len()],
                    (k - link.visual.len()) as nat,
                )
            },
    );
    if 0 <= k < v {
        lemma_row_holds(whole, 1, parts, cuts, k);
        assert(parts[k] == visual_log(tree, link_path, link.visual[k], k as nat));
    }
    if 0 <= k < link.collision.len() {
        lemma_row_holds(whole, 1, parts, cuts, v + k);
        assert(parts[v + k] == collision_log(tree, link_path, link.collision[k], k as nat));
    }
    (cuts[k], cuts[v + k])
}

} // verus!
