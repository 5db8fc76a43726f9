//! What loading a robot comes to: files to read and messages to send, in order.

use vstd::prelude::*;

use crate::path::has_common_extension;
use crate::resource::{ResourceFile, ResourceFileView};
use crate::robot::{Pose, Rgba, Vec3};
use crate::text::opt_chars;

verus! {

/// The path of an entity: a list of names, from the outermost to the innermost.
#[derive(Debug, PartialEq, Eq)]
pub struct EntityPath {
    pub parts: Vec<String>,
}

impl View for EntityPath {
    type V = Seq<Seq<char>>;

    open spec fn view(&self) -> Seq<Seq<char>> {
        self.parts@.map_values(|part: String| part@)
    }
}

impl EntityPath {
    /// The path with the one part `name`, taken as it is.
    pub fn from_single_string(name: &str) -> (path: EntityPath)
        ensures
            path@ == seq![name@],
    {
        let mut parts: Vec<String> = Vec::new();
        parts.push(name.to_owned());
        let path: EntityPath = EntityPath { parts };
        assert(path@ =~= seq![name@]);
        path
    }

    /// The path of the entity `part` right under this one.
    pub fn join(&self, part: &str) -> (path: EntityPath)
        ensures
            path@ == self@.push(part@),
    {
        let mut parts: Vec<String> = self.parts.clone();
        parts.push(part.to_owned());
        let path: EntityPath = EntityPath { parts };
        assert(path@ =~= self@.push(part@));
        path
    }
}

impl Clone for EntityPath {
    fn clone(&self) -> (path: EntityPath)
        ensures
            path@ == self@,
    {
        let path: EntityPath = EntityPath { parts: self.parts.clone() };
        assert(path@ =~= self@);
        path
    }
}

/// What is logged of an entity.
#[derive(Debug, Clone, PartialEq, Eq)]
pub enum Payload {
    /// A text under the name of a component.
    DebugText { component: String, text: String },
    /// Where the entity stands, seen from the one it is under.
    Transform(Pose),
    /// How the entity is scaled.
    Scale(Vec3),
    /// A mesh made of the file read last, which the robot calls `filename`. A colour that is given
    /// replaces the mesh's own. `textured` tells that the material has a texture, which is not
    /// shown.
    Mesh {
        filename: String,
        media_type: Option<String>,
        albedo: Option<Rgba>,
        textured: bool,
    },
    /// A box of this size.
    Box(Vec3),
    /// A cylinder along the z axis.
    Cylinder { radius: u64, length: u64 },
    /// A capsule along the z axis.
    Capsule { radius: u64, length: u64 },
    /// A sphere.
    Sphere { radius: u64 },
}

/// What a `Payload` holds. Of the media type of a mesh that is only told where it is the same on
/// every platform.
pub enum PayloadView {
    DebugText { component: Seq<char>, text: Seq<char> },
    Transform(Pose),
    Scale(Vec3),
    Mesh {
        filename: Seq<char>,
        media_type: Option<Seq<char>>,
        albedo: Option<Rgba>,
        textured: bool,
    },
    Box(Vec3),
    Cylinder { radius: u64, length: u64 },
    Capsule { radius: u64, length: u64 },
    Sphere { radius: u64 },
}

/// The media type `media_type`, if the name of the file has the same extension on every platform.
pub open spec fn if_common(filename: Seq<char>, media_type: Option<Seq<char>>) -> Option<
    Seq<char>,
> {
    if has_common_extension(filename) {
        media_type
    } else {
        None
    }
}

impl View for Payload {
    type V = PayloadView;

    open spec fn view(&self) -> PayloadView {
        match *self {
            Payload::DebugText { component, text } => PayloadView::DebugText {
                component: component@,
                text: text@,
            },
            Payload::Transform(pose) => PayloadView::Transform(pose),
            Payload::Scale(scale) => PayloadView::Scale(scale),
            Payload::Mesh { filename, media_type, albedo, textured } => PayloadView::Mesh {
                filename: filename@,
                media_type: if_common(filename@, opt_chars(media_type)),
                albedo,
                textured,
            },
            Payload::Box(size) => PayloadView::Box(size),
            Payload::Cylinder { radius, length } => PayloadView::Cylinder { radius, length },
            Payload::Capsule { radius, length } => PayloadView::Capsule { radius, length },
            Payload::Sphere { radius } => PayloadView::Sphere { radius },
        }
    }
}

/// One thing to do.
#[derive(Debug, Clone, PartialEq, Eq)]
pub enum Step {
    /// Read a file. Where that fails, loading ends.
    ReadFile(ResourceFile),
    /// Send what is logged of an entity. Where that fails, loading ends.
    Send { entity_path: EntityPath, payload: Payload },
}

/// What a `Step` holds.
pub enum StepView {
    ReadFile(ResourceFileView),
    Send { entity_path: Seq<Seq<char>>, payload: PayloadView },
}

impl View for Step {
    type V = StepView;

    open spec fn view(&self) -> StepView {
        match *self {
            Step::ReadFile(file) => StepView::ReadFile(file@),
            Step::Send { entity_path, payload } => StepView::Send {
                entity_path: entity_path@,
                payload: payload@,
            },
        }
    }
}

} // verus!
