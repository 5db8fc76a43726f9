//! The parts of a robot that the loader works with.
//!
//! A measure (a coordinate, an angle, a radius, a share of a colour) is held as the bit pattern
//! of its IEEE 754 double. Where the loader only passes a part on as text, the part is held as
//! that text.

use vstd::prelude::*;

use crate::text::opt_chars;

verus! {

/// The bit pattern of the number one.
pub const ONE: u64 = 0x3FF0_0000_0000_0000;

/// The bit pattern of zero with a minus sign, a number that equals zero.
pub const MINUS_ZERO: u64 = 0x8000_0000_0000_0000;

/// Whether the number with the bit pattern `bits` equals zero.
pub open spec fn is_zero(bits: u64) -> bool {
    bits == 0 || bits == MINUS_ZERO
}

/// The views of the items of a sequence.
pub open spec fn views<T: View>(s: Seq<T>) -> Seq<T::V> {
    s.map_values(|t: T| t@)
}

/// Three measures.
#[derive(Debug, Clone, Copy, PartialEq, Eq)]
pub struct Vec3 {
    pub x: u64,
    pub y: u64,
    pub z: u64,
}

impl Vec3 {
    /// Whether all three numbers equal zero.
    pub open spec fn zero(self) -> bool {
        is_zero(self.x) && is_zero(self.y) && is_zero(self.z)
    }

    /// Whether all three numbers equal one.
    pub open spec fn one(self) -> bool {
        self.x == ONE && self.y == ONE && self.z == ONE
    }

    /// Tells whether all three numbers equal zero.
    pub fn is_zero(&self) -> (yes: bool)
        ensures
            yes == self.zero(),
    {
        (self.x == 0 || self.x == MINUS_ZERO) && (self.y == 0 || self.y == MINUS_ZERO) && (self.z
            == 0 || self.z == MINUS_ZERO)
    }

    /// Tells whether all three numbers equal one.
    pub fn is_one(&self) -> (yes: bool)
        ensures
            yes == self.one(),
    {
        self.x == ONE && self.y == ONE && self.z == ONE
    }
}

/// A translation, and a rotation given as roll, pitch and yaw.
#[derive(Debug, Clone, Copy, PartialEq, Eq)]
pub struct Pose {
    pub xyz: Vec3,
    pub rpy: Vec3,
}

impl Pose {
    /// Whether the pose moves nothing.
    pub open spec fn identity(self) -> bool {
        self.xyz.zero() && self.rpy.zero()
    }

    /// Tells whether the pose moves nothing.
    pub fn is_identity(&self) -> (yes: bool)
        ensures
            yes == self.identity(),
    {
        self.xyz.is_zero() && self.rpy.is_zero()
    }
}

/// A colour.
#[derive(Debug, Clone, Copy, PartialEq, Eq)]
pub struct Rgba {
    pub r: u64,
    pub g: u64,
    pub b: u64,
    pub a: u64,
}

/// A shape.
#[derive(Debug, Clone, PartialEq, Eq)]
pub enum Geometry {
    Box { size: Vec3 },
    Cylinder { radius: u64, length: u64 },
    Capsule { radius: u64, length: u64 },
    Sphere { radius: u64 },
    Mesh { filename: String, scale: Option<Vec3> },
}

/// What a `Geometry` holds.
pub enum GeometryView {
    Box { size: Vec3 },
    Cylinder { radius: u64, length: u64 },
    Capsule { radius: u64, length: u64 },
    Sphere { radius: u64 },
    Mesh { filename: Seq<char>, scale: Option<Vec3> },
}

impl View for Geometry {
    type V = GeometryView;

    open spec fn view(&self) -> GeometryView {
        match *self {
            Geometry::Box { size } => GeometryView::Box { size },
            Geometry::Cylinder { radius, length } => GeometryView::Cylinder { radius, length },
            Geometry::Capsule { radius, length } => GeometryView::Capsule { radius, length },
            Geometry::Sphere { radius } => GeometryView::Sphere { radius },
            Geometry::Mesh { filename, scale } => GeometryView::Mesh { filename: filename@, scale },
        }
    }
}

/// A material of the robot: a colour, a texture, or both.
#[derive(Debug, Clone, PartialEq, Eq)]
pub struct Material {
    pub name: String,
    pub color: Option<Rgba>,
    pub textured: bool,
}

/// What a `Material` holds.
pub struct MaterialView {
    pub name: Seq<char>,
    pub color: Option<Rgba>,
    pub textured: bool,
}

impl View for Material {
    type V = MaterialView;

    open spec fn view(&self) -> MaterialView {
        MaterialView { name: self.name@, color: self.color, textured: self.textured }
    }
}

/// A shape by which a link is shown. Its material is given by name.
#[derive(Debug, Clone, PartialEq, Eq)]
pub struct Visual {
    pub name: Option<String>,
    pub origin: Pose,
    pub geometry: Geometry,
    pub material: Option<String>,
}

/// What a `Visual` holds.
pub struct VisualView {
    pub name: Option<Seq<char>>,
    pub origin: Pose,
    pub geometry: GeometryView,
    pub material: Option<Seq<char>>,
}

impl View for Visual {
    type V = VisualView;

    open spec fn view(&self) -> VisualView {
        VisualView {
            name: opt_chars(self.name),
            origin: self.origin,
            geometry: self.geometry@,
            material: opt_chars(self.material),
        }
    }
}

/// A shape with which a link collides.
#[derive(Debug, Clone, PartialEq, Eq)]
pub struct Collision {
    pub name: Option<String>,
    pub origin: Pose,
    pub geometry: Geometry,
}

/// What a `Collision` holds.
pub struct CollisionView {
    pub name: Option<Seq<char>>,
    pub origin: Pose,
    pub geometry: GeometryView,
}

impl View for Collision {
    type V = CollisionView;

    open spec fn view(&self) -> CollisionView {
        CollisionView {
            name: opt_chars(self.name),
            origin: self.origin,
            geometry: self.geometry@,
        }
    }
}

/// A rigid part of the robot.
#[derive(Debug, Clone, PartialEq, Eq)]
pub struct Link {
    pub name: String,
    pub inertial: String,
    pub visual: Vec<Visual>,
    pub collision: Vec<Collision>,
}

/// What a `Link` holds.
pub struct LinkView {
    pub name: Seq<char>,
    pub inertial: Seq<char>,
    pub visual: Seq<VisualView>,
    pub collision: Seq<CollisionView>,
}

impl View for Link {
    type V = LinkView;

    open spec fn view(&self) -> LinkView {
        LinkView {
            name: self.name@,
            inertial: self.inertial@,
            visual: views(self.visual@),
            collision: views(self.collision@),
        }
    }
}

/// A joint between two links, which are given by name.
#[derive(Debug, Clone, PartialEq, Eq)]
pub struct Joint {
    pub name: String,
    pub parent: String,
    pub child: String,
    pub origin: Pose,
    pub joint_type: String,
    pub axis: String,
    pub limit: String,
    pub calibration: Option<String>,
    pub dynamics: Option<String>,
    pub mimic: Option<String>,
    pub safety_controller: Option<String>,
}

/// What a `Joint` holds.
pub struct JointView {
    pub name: Seq<char>,
    pub parent: Seq<char>,
    pub child: Seq<char>,
    pub origin: Pose,
    pub joint_type: Seq<char>,
    pub axis: Seq<char>,
    pub limit: Seq<char>,
    pub calibration: Option<Seq<char>>,
    pub dynamics: Option<Seq<char>>,
    pub mimic: Option<Seq<char>>,
    pub safety_controller: Option<Seq<char>>,
}

impl View for Joint {
    type V = JointView;

    open spec fn view(&self) -> JointView {
        JointView {
            name: self.name@,
            parent: self.parent@,
            child: self.child@,
            origin: self.origin,
            joint_type: self.joint_type@,
            axis: self.axis@,
            limit: self.limit@,
            calibration: opt_chars(self.calibration),
            dynamics: opt_chars(self.dynamics),
            mimic: opt_chars(self.mimic),
            safety_controller: opt_chars(self.safety_controller),
        }
    }
}

/// A robot: links, the joints between them, and the materials they are made of.
#[derive(Debug, Clone, PartialEq, Eq)]
pub struct UrdfRobot {
    pub name: String,
    pub links: Vec<Link>,
    pub joints: Vec<Joint>,
    pub materials: Vec<Material>,
}

/// What a `UrdfRobot` holds.
pub struct RobotView {
    pub name: Seq<char>,
    pub links: Seq<LinkView>,
    pub joints: Seq<JointView>,
    pub materials: Seq<MaterialView>,
}

impl View for UrdfRobot {
    type V = RobotView;

    open spec fn view(&self) -> RobotView {
        RobotView {
            name: self.name@,
            links: views(self.links@),
            joints: views(self.joints@),
            materials: views(self.materials@),
        }
    }
}

} // verus!
