//! What views show of values, and what is reported of a call.

use vstd::prelude::*;

use crate::error::{is_plain, RobotError, RobotErrorView};
use crate::loader::{
    contents_loaded_as, is_reading, loaded, loaded_as, loaded_contents, lossy_text, LoadError,
    Reading,
};
use crate::log::{reports, Outcome};
use crate::path::has_common_extension;
use crate::resource::{ResourceFile, ResourceFileView};
use crate::robot::{
    views, Collision, Geometry, GeometryView, Joint, Link, Material, UrdfRobot, Visual,
};
use crate::step::{EntityPath, Payload, PayloadView, Step, StepView};
use crate::text::opt_chars;
use crate::walk::robot_log;
use crate::xml::readable;

verus! {

/// Whether an optional text shows an optional string: both are there, with the same characters, or
/// neither is.
pub open spec fn shows(text: Option<Seq<char>>, string: Option<String>) -> bool {
    match (text, string) {
        (Some(text), Some(string)) => text == string@,
        (None, None) => true,
        _ => false,
    }
}

/// The characters of an optional string are there exactly if the string is.
pub proof fn law_optional_strings_are_shown(string: Option<String>)
    ensures
        shows(opt_chars(string), string),
{
}

/// The views of a sequence are those of its items, one for one and in order.
pub proof fn law_views_are_one_for_one<T: View>(s: Seq<T>, i: int)
    ensures
        views(s).len() == s.len(),
        0 <= i < s.len() ==> views(s)[i] == s[i]@,
{
}

/// The view of a joint shows each of its parts, whatever the others are.
pub proof fn law_joints_are_shown_in_full(joint: Joint)
    ensures
        joint@.name == joint.name@,
        joint@.parent == joint.parent@,
        joint@.child == joint.child@,
        joint@.origin == joint.origin,
        joint@.joint_type == joint.joint_type@,
        joint@.axis == joint.axis@,
        joint@.limit == joint.limit@,
        shows(joint@.calibration, joint.calibration),
        shows(joint@.dynamics, joint.dynamics),
        shows(joint@.mimic, joint.mimic),
        shows(joint@.safety_controller, joint.safety_controller),
{
}

/// The view of a link shows its name, its inertia and all its shapes.
pub proof fn law_links_are_shown_in_full(link: Link, k: int)
    ensures
        link@.name == link.name@,
        link@.inertial == link.inertial@,
        link@.visual.len() == link.visual@.len(),
        link@.collision.len() == link.collision@.len(),
        0 <= k < link.visual@.len() ==> link@.visual[k] == link.visual@[k]@,
        0 <= k < link.collision@.len() ==> link@.collision[k] == link.collision@[k]@,
{
}

/// The view of a shape shows its name, its origin, its geometry and the name of its material.
pub proof fn law_shapes_are_shown_in_full(visual: Visual, collision: Collision)
    ensures
        shows(visual@.name, visual.name),
        visual@.origin == visual.origin,
        visual@.geometry == visual.geometry@,
        shows(visual@.material, visual.material),
        shows(collision@.name, collision.name),
        collision@.origin == collision.origin,
        collision@.geometry == collision.geometry@,
{
}

/// The view of a geometry shows its kind and all its measures.
pub proof fn law_geometries_are_shown_in_full(geometry: Geometry)
    ensures
        match (geometry, geometry@) {
            (Geometry::Box { size: a }, GeometryView::Box { size: b }) => a == b,
            (
                Geometry::Cylinder { radius: a, length: x },
                GeometryView::Cylinder { radius: b, length: y },
            ) => a == b && x == y,
            (
                Geometry::Capsule { radius: a, length: x },
                GeometryView::Capsule { radius: b, length: y },
            ) => a == b && x == y,
            (Geometry::Sphere { radius: a }, GeometryView::Sphere { radius: b }) => a == b,
            (
                Geometry::Mesh { filename: a, scale: x },
                GeometryView::Mesh { filename: b, scale: y },
            ) => a@ == b && x == y,
            _ => false,
        },
{
}

/// The view of a material shows its name, its colour and whether it has a texture.
pub proof fn law_materials_are_shown_in_full(material: Material)
    ensures
        material@.name == material.name@,
        material@.color == material.color,
        material@.textured == material.textured,
{
}

/// The view of a robot shows its name and all its links, joints and materials, in their order.
pub proof fn law_robots_are_shown_in_full(robot: UrdfRobot, k: int)
    ensures
        robot@.name == robot.name@,
        robot@.links.len() == robot.links@.len(),
        robot@.joints.len() == robot.joints@.len(),
        robot@.materials.len() == robot.materials@.len(),
        0 <= k < robot.links@.len() ==> robot@.links[k] == robot.links@[k]@,
        0 <= k < robot.joints@.len() ==> robot@.joints[k] == robot.joints@[k]@,
        0 <= k < robot.materials@.len() ==> robot@.materials[k] == robot.materials@[k]@,
{
}

/// The view of an entity path shows each of its parts.
pub proof fn law_paths_are_shown_in_full(path: EntityPath, k: int)
    ensures
        path@.len() == path.parts@.len(),
        0 <= k < path.parts@.len() ==> path@[k] == path.parts@[k]@,
{
}

/// The view of a payload shows its kind and all it holds, of a mesh also the media type, where the
/// name of the file has the same extension on every platform.
pub proof fn law_payloads_are_shown_in_full(payload: Payload)
    ensures
        match (payload, payload@) {
            (
                Payload::DebugText { component: a, text: x },
                PayloadView::DebugText { component: b, text: y },
            ) => a@ == b && x@ == y,
            (Payload::Transform(a), PayloadView::Transform(b)) => a == b,
            (Payload::Scale(a), PayloadView::Scale(b)) => a == b,
            (
                Payload::Mesh { filename: f, media_type: m, albedo: a, textured: x },
                PayloadView::Mesh { filename: g, media_type: n, albedo: b, textured: y },
            ) => f@ == g && a == b && x == y && (has_common_extension(g) ==> shows(n, m)),
            (Payload::Box(a), PayloadView::Box(b)) => a == b,
            (
                Payload::Cylinder { radius: a, length: x },
                PayloadView::Cylinder { radius: b, length: y },
            ) => a == b && x == y,
            (
                Payload::Capsule { radius: a, length: x },
                PayloadView::Capsule { radius: b, length: y },
            ) => a == b && x == y,
            (Payload::Sphere { radius: a }, PayloadView::Sphere { radius: b }) => a == b,
            _ => false,
        },
{
}

/// The view of a step shows what is read, or what is sent of which entity.
pub proof fn law_steps_are_shown_in_full(step: Step)
    ensures
        match (step, step@) {
            (Step::ReadFile(a), StepView::ReadFile(b)) => match (a, b) {
                (ResourceFile::At(p), ResourceFileView::At(q)) => p@ == q,
                (
                    ResourceFile::InDir { dir: d, path: p },
                    ResourceFileView::InDir { dir: e, path: q },
                ) => d@ == e && p@ == q,
                _ => false,
            },
            (
                Step::Send { entity_path: p, payload: a },
                StepView::Send { entity_path: q, payload: b },
            ) => p@ == q && a@ == b,
            _ => false,
        },
{
}

/// The view of an error shows its kind and all it names.
pub proof fn law_errors_are_shown_in_full(error: RobotError)
    ensures
        match (error, error@) {
            (RobotError::NoRoot, RobotErrorView::NoRoot) => true,
            (RobotError::MultipleRoots, RobotErrorView::MultipleRoots) => true,
            (RobotError::MissingLink(a), RobotErrorView::MissingLink(b)) => a@ == b,
            (RobotError::RosPackage(a), RobotErrorView::RosPackage(b)) => a@ == b,
            (
                RobotError::UnknownScheme { scheme: a, resource: x },
                RobotErrorView::UnknownScheme { scheme: b, resource: y },
            ) => a@ == b && x@ == y,
            (RobotError::NoRootDirectory(a), RobotErrorView::NoRootDirectory(b)) => a@ == b,
            (RobotError::EndlessWalk, RobotErrorView::EndlessWalk) => true,
            _ => false,
        },
{
}

/// Each error names in words what is wrong, and with what. A name of plain characters stands
/// between quotation marks.
pub proof fn law_errors_name_what_is_wrong(a: Seq<char>, b: Seq<char>)
    ensures
        RobotErrorView::RosPackage(a).message() == "ROS package resources are not supported: "@ + a,
        RobotErrorView::NoRootDirectory(a).message()
            == "No root directory set for URDF, cannot load resource: "@ + a,
        is_plain(a) ==> RobotErrorView::MissingLink(a).message() == "Link \""@ + a
            + "\" missing from map"@,
        is_plain(a) ==> (RobotErrorView::UnknownScheme { scheme: a, resource: b }).message()
            == "Unknown resource scheme: \""@ + a + "\" in "@ + b,
{
    reveal_strlit("Link ");
    reveal_strlit("Link \"");
    reveal_strlit(" missing from map");
    reveal_strlit("\" missing from map");
    reveal_strlit("Unknown resource scheme: ");
    reveal_strlit("Unknown resource scheme: \"");
    reveal_strlit(" in ");
    reveal_strlit("\" in ");
    if is_plain(a) {
        assert(RobotErrorView::MissingLink(a).message() =~= "Link \""@ + a
            + "\" missing from map"@);
        assert((RobotErrorView::UnknownScheme { scheme: a, resource: b }).message()
            =~= "Unknown resource scheme: \""@ + a + "\" in "@ + b);
    }
}

/// A text of letters, digits, spaces and the marks that names are made of is plain.
pub proof fn law_ordinary_names_are_plain(text: Seq<char>)
    requires
        forall|i: int|
            0 <= i < text.len() ==> {
                let c = #[trigger] text[i];
                ||| 'a' <= c <= 'z'
                ||| 'A' <= c <= 'Z'
                ||| '0' <= c <= '9'
                ||| c == ' ' || c == '_' || c == '-' || c == '.' || c == '/' || c == ':' || c
                    == '\''
            },
    ensures
        is_plain(text),
{
}

/// What is reported of a call: it keeps the steps that were there, adds those of the outcome behind
/// them one for one, and succeeds exactly if nothing went wrong, else it gives back what did.
pub proof fn law_calls_add_what_they_report(
    before: Seq<Step>,
    after: Seq<Step>,
    result: Result<(), RobotError>,
    outcome: Outcome,
    i: int,
)
    requires
        reports(before, after, result, outcome),
    ensures
        after.len() == before.len() + outcome.steps.len(),
        0 <= i < before.len() ==> after[i]@ == before[i]@,
        0 <= i < outcome.steps.len() ==> after[before.len() + i]@ == outcome.steps[i],
        result is Ok <==> outcome.error is None,
        result matches Err(e) ==> outcome.error == Some(e@),
{
    assert(views(after).len() == after.len());
    assert(views(before).len() == before.len());
    if 0 <= i < before.len() {
        assert(views(after)[i] == after[i]@);
        assert(views(before)[i] == before[i]@);
    }
    if 0 <= i < outcome.steps.len() {
        assert(views(after)[before.len() + i] == after[before.len() + i]@);
    }
}

/// What comes of loading, once the path and the text are read: a file by another name is refused
/// with its path, whatever is in it. Then comes a text that cannot be read, then one without a
/// robot; of all these nothing is logged. Else the robot is logged, from the directory of its file,
/// and loading succeeds exactly if that does.
pub proof fn law_loading_logs_the_robot_that_is_read(
    filepath: Seq<char>,
    text: Seq<char>,
    reading: Reading,
    before: Seq<Step>,
    after: Seq<Step>,
    result: Result<(), LoadError>,
    i: int,
)
    requires
        loaded_as(filepath, text, reading, before, after, result),
    ensures
        reading.is_urdf && readable(text) && reading.document is Some ==> {
            let outcome = robot_log(reading.document->0, reading.dir);
            &&& after.len() == before.len() + outcome.steps.len()
            &&& 0 <= i < before.len() ==> after[i]@ == before[i]@
            &&& 0 <= i < outcome.steps.len() ==> after[before.len() + i]@ == outcome.steps[i]
            &&& result is Ok <==> outcome.error is None
            &&& result matches Err(e) ==> e matches LoadError::Robot(e) && outcome.error == Some(e@)
        },
        !(reading.is_urdf && readable(text) && reading.document is Some) ==> after == before && {
            &&& result matches Err(e)
            &&& match e {
                LoadError::Incompatible(path) => !reading.is_urdf && path@ == filepath,
                LoadError::Unreadable => reading.is_urdf && !readable(text),
                LoadError::Parse(_) => reading.is_urdf && readable(text),
                LoadError::Robot(_) => false,
            }
        },
{
    if reading.is_urdf && readable(text) && reading.document is Some {
        let outcome = robot_log(reading.document->0, reading.dir);
        match result {
            Ok(_) => {
                law_calls_add_what_they_report(before, after, Ok(()), outcome, i);
            },
            Err(LoadError::Robot(e)) => {
                law_calls_add_what_they_report(before, after, Err(e), outcome, i);
            },
            Err(_) => {},
        }
    }
}

/// A call that loaded a file did so for some way to read its path and its text, and one that loaded
/// contents for some way to read the text that is made of them.
pub proof fn law_loading_rests_on_a_reading(
    filepath: Seq<char>,
    text: Seq<char>,
    contents: Seq<u8>,
    before: Seq<Step>,
    after: Seq<Step>,
    result: Result<(), LoadError>,
) -> (reading: Reading)
    requires
        loaded(filepath, text, before, after, result) || text == lossy_text(contents)
            && loaded_contents(filepath, contents, before, after, result),
    ensures
        is_reading(filepath, text, reading),
        loaded_as(filepath, text, reading, before, after, result),
{
    if loaded(filepath, text, before, after, result) {
        choose|reading: Reading| #[trigger]
            loaded_as(filepath, text, reading, before, after, result)
    } else {
        choose|reading: Reading| #[trigger]
            contents_loaded_as(filepath, contents, reading, before, after, result)
    }
}

} // verus!
