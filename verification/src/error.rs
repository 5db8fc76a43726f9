//! Why a robot could not be loaded.

use vstd::prelude::*;

use crate::text::joined;

verus! {

/// What is wrong with a robot.
#[derive(Debug, Clone, PartialEq, Eq)]
pub enum RobotError {
    /// Every link is the child of some joint.
    NoRoot,
    /// More than one link is the child of no joint.
    MultipleRoots,
    /// A joint leads to a link that the robot does not have.
    MissingLink(String),
    /// A mesh is to be found in a ROS package.
    RosPackage(String),
    /// A mesh is to be found in an unknown manner.
    UnknownScheme { scheme: String, resource: String },
    /// A mesh is given by a relative path, but the directory of the robot's file is not known.
    NoRootDirectory(String),
    /// The joints lead round in a circle.
    EndlessWalk,
}

/// What a `RobotError` holds.
pub enum RobotErrorView {
    NoRoot,
    MultipleRoots,
    MissingLink(Seq<char>),
    RosPackage(Seq<char>),
    UnknownScheme { scheme: Seq<char>, resource: Seq<char> },
    NoRootDirectory(Seq<char>),
    EndlessWalk,
}

impl View for RobotError {
    type V = RobotErrorView;

    open spec fn view(&self) -> RobotErrorView {
        match *self {
            RobotError::NoRoot => RobotErrorView::NoRoot,
            RobotError::MultipleRoots => RobotErrorView::MultipleRoots,
            RobotError::MissingLink(link) => RobotErrorView::MissingLink(link@),
            RobotError::RosPackage(resource) => RobotErrorView::RosPackage(resource@),
            RobotError::UnknownScheme { scheme, resource } => RobotErrorView::UnknownScheme {
                scheme: scheme@,
                resource: resource@,
            },
            RobotError::NoRootDirectory(resource) => RobotErrorView::NoRootDirectory(resource@),
            RobotError::EndlessWalk => RobotErrorView::EndlessWalk,
        }
    }
}

/// Whether a text holds only characters that stand for themselves in quotes: the printable ones of
/// ASCII, but for the quotation mark and the backslash.
pub open spec fn is_plain(text: Seq<char>) -> bool {
    forall|i: int|
        0 <= i < text.len() ==> ' ' <= #[trigger] text[i] <= '~' && text[i] != '"' && text[i]
            != '\\'
}

/// A text in quotes, as `{:?}` writes it, where some of its characters may not stand for
/// themselves.
pub uninterp spec fn quoted(text: Seq<char>) -> Seq<char>;

/// A text in quotes.
pub open spec fn in_quotes(text: Seq<char>) -> Seq<char> {
    if is_plain(text) {
        seq!['"'] + text + seq!['"']
    } else {
        quoted(text)
    }
}

/// Formats a string with `{:?}`. Trusted: what comes out is a function of the string, and of
/// printable ASCII without quotation marks and backslashes it is the string between quotation
/// marks. How other characters are escaped is not stated.
#[verifier::external_body]
fn quote(text: &str) -> (s: String)
    ensures
        is_plain(text@) ==> s@ == seq!['"'] + text@ + seq!['"'],
        !is_plain(text@) ==> s@ == quoted(text@),
{
    format!("{:?}", text)
}

impl RobotErrorView {
    /// The error in words.
    pub open spec fn message(self) -> Seq<char> {
        match self {
            RobotErrorView::NoRoot => "No root link found in URDF"@,
            RobotErrorView::MultipleRoots => "Multiple roots in URDF"@,
            RobotErrorView::MissingLink(link) => "Link "@ + in_quotes(link) + " missing from map"@,
            RobotErrorView::RosPackage(resource) => "ROS package resources are not supported: "@
                + resource,
            RobotErrorView::UnknownScheme { scheme, resource } => "Unknown resource scheme: "@
                + in_quotes(scheme) + " in "@ + resource,
            RobotErrorView::NoRootDirectory(
                resource,
            ) => "No root directory set for URDF, cannot load resource: "@ + resource,
            RobotErrorView::EndlessWalk => "Joints lead round in a circle in URDF"@,
        }
    }
}

impl RobotError {
    /// Puts the error into words.
    pub fn message(&self) -> (s: String)
        ensures
            s@ == self@.message(),
    {
        match self {
            RobotError::NoRoot => "No root link found in URDF".to_owned(),
            RobotError::MultipleRoots => "Multiple roots in URDF".to_owned(),
            RobotError::MissingLink(link) => {
                let start: String = joined("Link ", quote(link.as_str()).as_str());
                joined(start.as_str(), " missing from map")
            },
            RobotError::RosPackage(resource) => joined(
                "ROS package resources are not supported: ",
                resource.as_str(),
            ),
            RobotError::UnknownScheme { scheme, resource } => {
                let start: String = joined(
                    "Unknown resource scheme: ",
                    quote(scheme.as_str()).as_str(),
                );
                joined(joined(start.as_str(), " in ").as_str(), resource.as_str())
            },
            RobotError::NoRootDirectory(resource) => joined(
                "No root directory set for URDF, cannot load resource: ",
                resource.as_str(),
            ),
            RobotError::EndlessWalk => "Joints lead round in a circle in URDF".to_owned(),
        }
    }
}

} // verus!
