//! Robots as the `urdf_rs` crate reads them, and how they become robots of this library.

use vstd::prelude::*;

use crate::robot::{
    views, Collision, CollisionView, Geometry, GeometryView, Joint, JointView, Link, LinkView,
    Material, MaterialView, Pose, Rgba, RobotView, UrdfRobot, Vec3, Visual, VisualView,
};
use crate::text::opt_chars;
use crate::xml::{readable, unambiguous};

verus! {

/// A robot of `urdf_rs`.
#[verifier::external_type_specification]
#[verifier::external_body]
pub struct ExUrdfRobot(urdf_rs::Robot);

/// Why `urdf_rs` could not read a robot.
#[verifier::external_type_specification]
#[verifier::external_body]
pub struct ExUrdfError(urdf_rs::UrdfError);

/// What a robot of `urdf_rs` holds: its parts one for one, each number as its bit pattern, each
/// part that is only passed on as the text `{:#?}` makes of it, and of a texture that there is
/// one.
pub uninterp spec fn robot_contents(robot: urdf_rs::Robot) -> RobotView;

/// The robot that `urdf_rs::read_from_string` finds in a text, if it finds one.
pub uninterp spec fn urdf_document(text: Seq<char>) -> Option<RobotView>;

/// Calls `urdf_rs::read_from_string`. Trusted: the robot that comes out is a function of the text,
/// and so is whether one comes out, unless an element that is kept declares two prefixes for one
/// namespace. The reader then picks one of them by the order of a hash table, and such a text may
/// be refused in one process and not in the next. How a text describes a robot is not stated. The
/// reader calls itself as deep as the elements of the text are nested.
#[verifier::external_body]
fn read_from_string(text: &str) -> (robot: Result<urdf_rs::Robot, urdf_rs::UrdfError>)
    requires
        readable(text@),
    ensures
        robot matches Ok(robot) ==> urdf_document(text@) == Some(robot_contents(robot)),
        robot is Err && unambiguous(text@) ==> urdf_document(text@) is None,
{
    urdf_rs::read_from_string(text)
}

/// Three numbers as a vector.
spec fn vec3(numbers: [u64; 3]) -> Vec3 {
    Vec3 { x: numbers@[0], y: numbers@[1], z: numbers@[2] }
}

/// Three numbers keep their order.
proof fn law_numbers_keep_their_order(numbers: [u64; 3])
    ensures
        vec3(numbers).x == numbers@[0],
        vec3(numbers).y == numbers@[1],
        vec3(numbers).z == numbers@[2],
{
}

fn to_vec3(numbers: [u64; 3]) -> (v: Vec3)
    ensures
        v == vec3(numbers),
{
    Vec3 { x: numbers[0], y: numbers[1], z: numbers[2] }
}

/// The numbers of a pose.
struct RawPose {
    xyz: [u64; 3],
    rpy: [u64; 3],
}

impl RawPose {
    /// The pose that has these numbers.
    spec fn pose(self) -> Pose {
        Pose { xyz: vec3(self.xyz), rpy: vec3(self.rpy) }
    }

    fn into_pose(self) -> (pose: Pose)
        ensures
            pose == self.pose(),
    {
        Pose { xyz: to_vec3(self.xyz), rpy: to_vec3(self.rpy) }
    }
}

/// The numbers of a shape.
enum RawShape {
    Box([u64; 3]),
    Cylinder(u64, u64),
    Capsule(u64, u64),
    Sphere(u64),
    Mesh(String, Option<[u64; 3]>),
}

impl RawShape {
    /// The geometry that has these numbers.
    spec fn geometry(self) -> GeometryView {
        match self {
            RawShape::Box(size) => GeometryView::Box { size: vec3(size) },
            RawShape::Cylinder(radius, length) => GeometryView::Cylinder { radius, length },
            RawShape::Capsule(radius, length) => GeometryView::Capsule { radius, length },
            RawShape::Sphere(radius) => GeometryView::Sphere { radius },
            RawShape::Mesh(filename, scale) => GeometryView::Mesh {
                filename: filename@,
                scale: match scale {
                    Some(scale) => Some(vec3(scale)),
                    None => None,
                },
            },
        }
    }

    fn into_geometry(self) -> (geometry: Geometry)
        ensures
            geometry@ == self.geometry(),
    {
        match self {
            RawShape::Box(size) => Geometry::Box { size: to_vec3(size) },
            RawShape::Cylinder(radius, length) => Geometry::Cylinder { radius, length },
            RawShape::Capsule(radius, length) => Geometry::Capsule { radius, length },
            RawShape::Sphere(radius) => Geometry::Sphere { radius },
            RawShape::Mesh(filename, scale) => Geometry::Mesh {
                filename,
                scale: match scale {
                    Some(scale) => Some(to_vec3(scale)),
                    None => None,
                },
            },
        }
    }
}

/// A pose keeps where it shifts apart from how it turns, and a shape keeps its kind and its
/// measures, each in its place.
proof fn law_raw_numbers_keep_their_place(pose: RawPose, shape: RawShape)
    ensures
        pose.pose().xyz.x == pose.xyz@[0],
        pose.pose().xyz.y == pose.xyz@[1],
        pose.pose().xyz.z == pose.xyz@[2],
        pose.pose().rpy.x == pose.rpy@[0],
        pose.pose().rpy.y == pose.rpy@[1],
        pose.pose().rpy.z == pose.rpy@[2],
        match (shape, shape.geometry()) {
            (RawShape::Box(a), GeometryView::Box { size }) => size.x == a@[0] && size.y == a@[1]
                && size.z == a@[2],
            (RawShape::Cylinder(a, b), GeometryView::Cylinder { radius, length }) => radius == a
                && length == b,
            (RawShape::Capsule(a, b), GeometryView::Capsule { radius, length }) => radius == a
                && length == b,
            (RawShape::Sphere(a), GeometryView::Sphere { radius }) => radius == a,
            (RawShape::Mesh(a, Some(b)), GeometryView::Mesh { filename, scale: Some(scale) }) => {
                filename == a@ && scale.x == b@[0] && scale.y == b@[1] && scale.z == b@[2]
            },
            (RawShape::Mesh(a, None), GeometryView::Mesh { filename, scale: None }) => filename
                == a@,
            _ => false,
        },
{
    law_numbers_keep_their_order(pose.xyz);
    law_numbers_keep_their_order(pose.rpy);
}

/// Reads the fields of `urdf_rs::Robot`. Trusted: gives the name, and how many links, joints and
/// materials there are.
#[verifier::external_body]
fn robot_parts(robot: &urdf_rs::Robot) -> (parts: (String, usize, usize, usize))
    ensures
        parts.0@ == robot_contents(*robot).name,
        parts.1 == robot_contents(*robot).links.len(),
        parts.2 == robot_contents(*robot).joints.len(),
        parts.3 == robot_contents(*robot).materials.len(),
{
    (robot.name.clone(), robot.links.len(), robot.joints.len(), robot.materials.len())
}

/// Reads the fields of a `urdf_rs::Link`. Trusted: gives the name of link `i`, its inertia as
/// text, and how many visual shapes and how many to collide with it has.
#[verifier::external_body]
fn link_parts(robot: &urdf_rs::Robot, i: usize) -> (parts: (String, String, usize, usize))
    requires
        i < robot_contents(*robot).links.len(),
    ensures
        parts.0@ == robot_contents(*robot).links[i as int].name,
        parts.1@ == robot_contents(*robot).links[i as int].inertial,
        parts.2 == robot_contents(*robot).links[i as int].visual.len(),
        parts.3 == robot_contents(*robot).links[i as int].collision.len(),
{
    let link = &robot.links[i];
    let inertial = format!("{:#?}", link.inertial);
    (link.name.clone(), inertial, link.visual.len(), link.collision.len())
}

/// Reads the fields of a `urdf_rs::Visual` but for its geometry. Trusted: gives the name, the
/// origin and the name of the material of visual shape `k` of link `i`.
#[verifier::external_body]
fn visual_parts(robot: &urdf_rs::Robot, i: usize, k: usize) -> (parts: (
    Option<String>,
    RawPose,
    Option<String>,
))
    requires
        i < robot_contents(*robot).links.len(),
        k < robot_contents(*robot).links[i as int].visual.len(),
    ensures
        opt_chars(parts.0) == robot_contents(*robot).links[i as int].visual[k as int].name,
        parts.1.pose() == robot_contents(*robot).links[i as int].visual[k as int].origin,
        opt_chars(parts.2) == robot_contents(*robot).links[i as int].visual[k as int].material,
{
    let visual = &robot.links[i].visual[k];
    let xyz = visual.origin.xyz.map(|n| n.to_bits());
    let rpy = visual.origin.rpy.map(|n| n.to_bits());
    let material = visual.material.as_ref().map(|material| material.name.clone());
    (visual.name.clone(), RawPose { xyz, rpy }, material)
}

/// Reads the `urdf_rs::Geometry` of a `urdf_rs::Visual`. Trusted: gives the geometry of visual
/// shape `k` of link `i`.
#[verifier::external_body]
fn visual_shape(robot: &urdf_rs::Robot, i: usize, k: usize) -> (shape: RawShape)
    requires
        i < robot_contents(*robot).links.len(),
        k < robot_contents(*robot).links[i as int].visual.len(),
    ensures
        shape.geometry() == robot_contents(*robot).links[i as int].visual[k as int].geometry,
{
    match robot.links[i].visual[k].geometry.clone() {
        urdf_rs::Geometry::Box { size } => RawShape::Box(size.map(|n| n.to_bits())),
        urdf_rs::Geometry::Cylinder { radius, length } => {
            RawShape::Cylinder(radius.to_bits(), length.to_bits())
        },
        urdf_rs::Geometry::Capsule { radius, length } => {
            RawShape::Capsule(radius.to_bits(), length.to_bits())
        },
        urdf_rs::Geometry::Sphere { radius } => RawShape::Sphere(radius.to_bits()),
        urdf_rs::Geometry::Mesh { filename, scale } => {
            RawShape::Mesh(filename, scale.map(|s| s.map(|n| n.to_bits())))
        },
    }
}

/// Reads the fields of a `urdf_rs::Collision` but for its geometry. Trusted: gives the name and
/// the origin of shape `k` to collide with of link `i`.
#[verifier::external_body]
fn collision_parts(robot: &urdf_rs::Robot, i: usize, k: usize) -> (parts: (Option<String>, RawPose))
    requires
        i < robot_contents(*robot).links.len(),
        k < robot_contents(*robot).links[i as int].collision.len(),
    ensures
        opt_chars(parts.0) == robot_contents(*robot).links[i as int].collision[k as int].name,
        parts.1.pose() == robot_contents(*robot).links[i as int].collision[k as int].origin,
{
    let collision = &robot.links[i].collision[k];
    let xyz = collision.origin.xyz.map(|n| n.to_bits());
    let rpy = collision.origin.rpy.map(|n| n.to_bits());
    (collision.name.clone(), RawPose { xyz, rpy })
}

/// Reads the `urdf_rs::Geometry` of a `urdf_rs::Collision`. Trusted: gives the geometry of shape
/// `k` to collide with of link `i`.
#[verifier::external_body]
fn collision_shape(robot: &urdf_rs::Robot, i: usize, k: usize) -> (shape: RawShape)
    requires
        i < robot_contents(*robot).links.len(),
        k < robot_contents(*robot).links[i as int].collision.len(),
    ensures
        shape.geometry() == robot_contents(*robot).links[i as int].collision[k as int].geometry,
{
    match robot.links[i].collision[k].geometry.clone() {
        urdf_rs::Geometry::Box { size } => RawShape::Box(size.map(|n| n.to_bits())),
        urdf_rs::Geometry::Cylinder { radius, length } => {
            RawShape::Cylinder(radius.to_bits(), length.to_bits())
        },
        urdf_rs::Geometry::Capsule { radius, length } => {
            RawShape::Capsule(radius.to_bits(), length.to_bits())
        },
        urdf_rs::Geometry::Sphere { radius } => RawShape::Sphere(radius.to_bits()),
        urdf_rs::Geometry::Mesh { filename, scale } => {
            RawShape::Mesh(filename, scale.map(|s| s.map(|n| n.to_bits())))
        },
    }
}

/// Reads fields of a `urdf_rs::Joint`. Trusted: gives the name of joint `i`, the names of the
/// links it starts at and leads to, and its origin.
#[verifier::external_body]
fn joint_parts(robot: &urdf_rs::Robot, i: usize) -> (parts: (String, String, String, RawPose))
    requires
        i < robot_contents(*robot).joints.len(),
    ensures
        parts.0@ == robot_contents(*robot).joints[i as int].name,
        parts.1@ == robot_contents(*robot).joints[i as int].parent,
        parts.2@ == robot_contents(*robot).joints[i as int].child,
        parts.3.pose() == robot_contents(*robot).joints[i as int].origin,
{
    let joint = &robot.joints[i];
    let xyz = joint.origin.xyz.map(|n| n.to_bits());
    let rpy = joint.origin.rpy.map(|n| n.to_bits());
    (joint.name.clone(), joint.parent.link.clone(), joint.child.link.clone(), RawPose { xyz, rpy })
}

/// Formats fields of a `urdf_rs::Joint` with `{:#?}`. Trusted: gives the type, the axis and the
/// limit of joint `i` as text.
#[verifier::external_body]
fn joint_texts(robot: &urdf_rs::Robot, i: usize) -> (texts: (String, String, String))
    requires
        i < robot_contents(*robot).joints.len(),
    ensures
        texts.0@ == robot_contents(*robot).joints[i as int].joint_type,
        texts.1@ == robot_contents(*robot).joints[i as int].axis,
        texts.2@ == robot_contents(*robot).joints[i as int].limit,
{
    let joint = &robot.joints[i];
    let joint_type = format!("{:#?}", joint.joint_type);
    (joint_type, format!("{:#?}", joint.axis), format!("{:#?}", joint.limit))
}

/// Formats fields of a `urdf_rs::Joint` with `{:#?}`. Trusted: gives as text what joint `i` has of
/// calibration, dynamics, mimicry and a safety controller.
#[verifier::external_body]
fn joint_optional_texts(robot: &urdf_rs::Robot, i: usize) -> (texts: (
    Option<String>,
    Option<String>,
    Option<String>,
    Option<String>,
))
    requires
        i < robot_contents(*robot).joints.len(),
    ensures
        opt_chars(texts.0) == robot_contents(*robot).joints[i as int].calibration,
        opt_chars(texts.1) == robot_contents(*robot).joints[i as int].dynamics,
        opt_chars(texts.2) == robot_contents(*robot).joints[i as int].mimic,
        opt_chars(texts.3) == robot_contents(*robot).joints[i as int].safety_controller,
{
    let joint = &robot.joints[i];
    let calibration = joint.calibration.as_ref().map(|part| format!("{:#?}", part));
    let dynamics = joint.dynamics.as_ref().map(|part| format!("{:#?}", part));
    let mimic = joint.mimic.as_ref().map(|part| format!("{:#?}", part));
    let safety_controller = joint.safety_controller.as_ref().map(|part| format!("{:#?}", part));
    (calibration, dynamics, mimic, safety_controller)
}

/// Reads the fields of a `urdf_rs::Material`. Trusted: gives material `i`.
#[verifier::external_body]
fn material_at(robot: &urdf_rs::Robot, i: usize) -> (material: Material)
    requires
        i < robot_contents(*robot).materials.len(),
    ensures
        material@ == robot_contents(*robot).materials[i as int],
{
    let material = &robot.materials[i];
    let color = material.color.as_ref().map(|color| color.rgba.map(|n| n.to_bits()));
    let color = color.map(|[r, g, b, a]| Rgba { r, g, b, a });
    Material { name: material.name.clone(), color, textured: material.texture.is_some() }
}

fn visuals_of(robot: &urdf_rs::Robot, i: usize, n: usize) -> (visuals: Vec<Visual>)
    requires
        i < robot_contents(*robot).links.len(),
        n == robot_contents(*robot).links[i as int].visual.len(),
    ensures
        views(visuals@) == robot_contents(*robot).links[i as int].visual,
{
    let ghost all: Seq<VisualView> = robot_contents(*robot).links[i as int].visual;
    let mut visuals: Vec<Visual> = Vec::new();
    let mut k: usize = 0;
    while k < n
        invariant
            i < robot_contents(*robot).links.len(),
            all == robot_contents(*robot).links[i as int].visual,
            n == all.len(),
            k <= n,
            views(visuals@) == all.take(k as int),
        decreases n - k,
    {
        let ghost before = visuals@;
        let (name, origin, material) = visual_parts(robot, i, k);
        let geometry: Geometry = visual_shape(robot, i, k).into_geometry();
        visuals.push(Visual { name, origin: origin.into_pose(), geometry, material });
        assert(views(visuals@) =~= views(before).push(all[k as int]));
        assert(all.take(k + 1) =~= all.take(k as int).push(all[k as int]));
        k = k + 1;
    }
    assert(all.take(n as int) =~= all);
    visuals
}

fn collisions_of(robot: &urdf_rs::Robot, i: usize, n: usize) -> (collisions: Vec<Collision>)
    requires
        i < robot_contents(*robot).links.len(),
        n == robot_contents(*robot).links[i as int].collision.len(),
    ensures
        views(collisions@) == robot_contents(*robot).links[i as int].collision,
{
    let ghost all: Seq<CollisionView> = robot_contents(*robot).links[i as int].collision;
    let mut collisions: Vec<Collision> = Vec::new();
    let mut k: usize = 0;
    while k < n
        invariant
            i < robot_contents(*robot).links.len(),
            all == robot_contents(*robot).links[i as int].collision,
            n == all.len(),
            k <= n,
            views(collisions@) == all.take(k as int),
        decreases n - k,
    {
        let ghost before = collisions@;
        let (name, origin) = collision_parts(robot, i, k);
        let geometry: Geometry = collision_shape(robot, i, k).into_geometry();
        collisions.push(Collision { name, origin: origin.into_pose(), geometry });
        assert(views(collisions@) =~= views(before).push(all[k as int]));
        assert(all.take(k + 1) =~= all.take(k as int).push(all[k as int]));
        k = k + 1;
    }
    assert(all.take(n as int) =~= all);
    collisions
}

fn links_of(robot: &urdf_rs::Robot, n: usize) -> (links: Vec<Link>)
    requires
        n == robot_contents(*robot).links.len(),
    ensures
        views(links@) == robot_contents(*robot).links,
{
    let ghost all: Seq<LinkView> = robot_contents(*robot).links;
    let mut links: Vec<Link> = Vec::new();
    let mut i: usize = 0;
    while i < n
        invariant
            all == robot_contents(*robot).links,
            n == all.len(),
            i <= n,
            views(links@) == all.take(i as int),
        decreases n - i,
    {
        let ghost before = links@;
        let (name, inertial, visuals, collisions) = link_parts(robot, i);
        let visual: Vec<Visual> = visuals_of(robot, i, visuals);
        let collision: Vec<Collision> = collisions_of(robot, i, collisions);
        links.push(Link { name, inertial, visual, collision });
        assert(views(links@) =~= views(before).push(all[i as int]));
        assert(all.take(i + 1) =~= all.take(i as int).push(all[i as int]));
        i = i + 1;
    }
    assert(all.take(n as int) =~= all);
    links
}

fn joints_of(robot: &urdf_rs::Robot, n: usize) -> (joints: Vec<Joint>)
    requires
        n == robot_contents(*robot).joints.len(),
    ensures
        views(joints@) == robot_contents(*robot).joints,
{
    let ghost all: Seq<JointView> = robot_contents(*robot).joints;
    let mut joints: Vec<Joint> = Vec::new();
    let mut i: usize = 0;
    while i < n
        invariant
            all == robot_contents(*robot).joints,
            n == all.len(),
            i <= n,
            views(joints@) == all.take(i as int),
        decreases n - i,
    {
        let ghost before = joints@;
        let (name, parent, child, origin) = joint_parts(robot, i);
        let (joint_type, axis, limit) = joint_texts(robot, i);
        let (calibration, dynamics, mimic, safety_controller) = joint_optional_texts(robot, i);
        joints.push(
            Joint {
                name,
                parent,
                child,
                origin: origin.into_pose(),
                joint_type,
                axis,
                limit,
                calibration,
                dynamics,
                mimic,
                safety_controller,
            },
        );
        assert(views(joints@) =~= views(before).push(all[i as int]));
        assert(all.take(i + 1) =~= all.take(i as int).push(all[i as int]));
        i = i + 1;
    }
    assert(all.take(n as int) =~= all);
    joints
}

fn materials_of(robot: &urdf_rs::Robot, n: usize) -> (materials: Vec<Material>)
    requires
        n == robot_contents(*robot).materials.len(),
    ensures
        views(materials@) == robot_contents(*robot).materials,
{
    let ghost all: Seq<MaterialView> = robot_contents(*robot).materials;
    let mut materials: Vec<Material> = Vec::new();
    let mut i: usize = 0;
    while i < n
        invariant
            all == robot_contents(*robot).materials,
            n == all.len(),
            i <= n,
            views(materials@) == all.take(i as int),
        decreases n - i,
    {
        let ghost before = materials@;
        materials.push(material_at(robot, i));
        assert(views(materials@) =~= views(before).push(all[i as int]));
        assert(all.take(i + 1) =~= all.take(i as int).push(all[i as int]));
        i = i + 1;
    }
    assert(all.take(n as int) =~= all);
    materials
}

/// Turns a robot of `urdf_rs` into one of this library.
pub fn to_robot(robot: &urdf_rs::Robot) -> (out: UrdfRobot)
    ensures
        out@ == robot_contents(*robot),
{
    let (name, links, joints, materials) = robot_parts(robot);
    UrdfRobot {
        name,
        links: links_of(robot, links),
        joints: joints_of(robot, joints),
        materials: materials_of(robot, materials),
    }
}

/// Reads the robot that a text describes.
pub fn read_urdf(text: &str) -> (robot: Result<UrdfRobot, urdf_rs::UrdfError>)
    requires
        readable(text@),
    ensures
        robot matches Ok(robot) ==> urdf_document(text@) == Some(robot@),
        robot is Err && unambiguous(text@) ==> urdf_document(text@) is None,
{
    match read_from_string(text) {
        Ok(robot) => Ok(to_robot(&robot)),
        Err(e) => Err(e),
    }
}

} // verus!
