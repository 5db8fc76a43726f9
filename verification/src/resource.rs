//! Where the files that a robot refers to are found, and of what type they are.

use vstd::prelude::*;

use crate::error::{RobotError, RobotErrorView};
use crate::path::{
    common_extension, has_common_extension, has_drive, is_portable, is_separator, two_separators,
};
use crate::text::{ascii_lower, opt_chars, same_text, split_at_first, split_once};

verus! {

/// A file to read.
#[derive(Debug, Clone, PartialEq, Eq)]
pub enum ResourceFile {
    /// The file at a path.
    At(String),
    /// The file at a path that starts from a directory.
    InDir { dir: String, path: String },
}

/// What a `ResourceFile` holds.
pub enum ResourceFileView {
    At(Seq<char>),
    InDir { dir: Seq<char>, path: Seq<char> },
}

impl View for ResourceFile {
    type V = ResourceFileView;

    open spec fn view(&self) -> ResourceFileView {
        match *self {
            ResourceFile::At(path) => ResourceFileView::At(path@),
            ResourceFile::InDir { dir, path } => ResourceFileView::InDir {
                dir: dir@,
                path: path@,
            },
        }
    }
}

/// The file that a resource stands for. A `file://` resource is the path behind the scheme; one
/// without a scheme is a path from the directory of the robot's file. Other schemes are not
/// supported.
pub open spec fn ros_resource(root_dir: Option<Seq<char>>, resource: Seq<char>) -> Result<
    ResourceFileView,
    RobotErrorView,
> {
    match split_at_first(resource, "://"@) {
        Some((scheme, path)) => if scheme == "file"@ {
            Ok(ResourceFileView::At(path))
        } else if scheme == "package"@ {
            Err(RobotErrorView::RosPackage(resource))
        } else {
            Err(RobotErrorView::UnknownScheme { scheme, resource })
        },
        None => match root_dir {
            Some(dir) => Ok(ResourceFileView::InDir { dir, path: resource }),
            None => Err(RobotErrorView::NoRootDirectory(resource)),
        },
    }
}

/// Finds the file that a resource stands for. `root_dir` is the directory of the robot's file.
pub fn load_ros_resource(root_dir: &Option<String>, resource_path: &str) -> (file: Result<
    ResourceFile,
    RobotError,
>)
    ensures
        match file {
            Ok(file) => ros_resource(opt_chars(*root_dir), resource_path@) == Ok::<
                ResourceFileView,
                RobotErrorView,
            >(file@),
            Err(e) => ros_resource(opt_chars(*root_dir), resource_path@) == Err::<
                ResourceFileView,
                RobotErrorView,
            >(e@),
        },
{
    match split_once(resource_path, "://") {
        Some((scheme, path)) => {
            if same_text(scheme.as_str(), "file") {
                Ok(ResourceFile::At(path))
            } else if same_text(scheme.as_str(), "package") {
                Err(RobotError::RosPackage(resource_path.to_owned()))
            } else {
                Err(RobotError::UnknownScheme { scheme, resource: resource_path.to_owned() })
            }
        },
        None => match root_dir {
            Some(dir) => Ok(
                ResourceFile::InDir { dir: dir.clone(), path: resource_path.to_owned() },
            ),
            None => Err(RobotError::NoRootDirectory(resource_path.to_owned())),
        },
    }
}

/// Whether a path is relative on every platform.
pub open spec fn is_relative(path: Seq<char>) -> bool {
    &&& path.len() >= 1 ==> !is_separator(path[0])
    &&& path.len() >= 2 ==> path[1] != ':'
}

/// Whether `full` is the path `path` taken from the directory `dir`. A relative path stands behind
/// the directory, with a separator in between or not; a path from the root stands for itself, or
/// behind the drive of the directory.
pub open spec fn may_join(dir: Seq<char>, path: Seq<char>, full: Seq<char>) -> bool {
    if is_relative(path) {
        full == dir + path || full == dir.push('/') + path || full == dir.push('\\') + path
    } else if is_portable(path) {
        full == path || has_drive(dir) && full == dir.take(2) + path
    } else {
        true
    }
}

/// Whether `full` is the path `path` taken from the directory `dir`, both of which every platform
/// reads alike: a path from the root is itself, another stands behind the directory with a
/// separator of the platform in between, unless the directory is empty or ends in a slash.
pub open spec fn joins(dir: Seq<char>, path: Seq<char>, full: Seq<char>) -> bool {
    if path.len() > 0 && path[0] == '/' {
        full == path
    } else if dir.len() == 0 || dir.last() == '/' {
        full == dir + path
    } else {
        full == dir.push('/') + path || full == dir.push('\\') + path
    }
}

/// Calls `std::path::Path::join`. Trusted: of a directory and a path that every platform reads
/// alike, a path from the root replaces the directory, and another is put behind it with the
/// separator of the platform, where one is needed. Of a directory that does not start with two
/// separators, a path that is relative on every platform is put behind it, with a separator or
/// not, and a path from the root replaces it, but for its drive letter on some platforms. Of
/// others nothing is said, for there it depends on the platform.
#[verifier::external_body]
fn join(dir: &str, path: &str) -> (full: String)
    ensures
        is_portable(dir@) && is_portable(path@) ==> joins(dir@, path@, full@),
        !two_separators(dir@) ==> may_join(dir@, path@, full@),
{
    std::path::Path::new(dir).join(path).to_string_lossy().into_owned()
}

impl ResourceFile {
    /// The path at which the file is read.
    pub fn full_path(&self) -> (full: String)
        ensures
            match self@ {
                ResourceFileView::At(path) => full@ == path,
                ResourceFileView::InDir { dir, path } => {
                    &&& is_portable(dir) && is_portable(path) ==> joins(dir, path, full@)
                    &&& !two_separators(dir) ==> may_join(dir, path, full@)
                },
            },
    {
        match self {
            ResourceFile::At(path) => path.clone(),
            ResourceFile::InDir { dir, path } => join(dir.as_str(), path.as_str()),
        }
    }
}

/// Whether a path has the extension `ext` on every platform, in upper or lower case.
pub open spec fn has_extension(path: Seq<char>, ext: Seq<char>) -> bool {
    &&& has_common_extension(path)
    &&& common_extension(path) matches Some(own)
    &&& ascii_lower(own) == ext
}

/// Whether a path has no extension on any platform.
pub open spec fn lacks_extension(path: Seq<char>) -> bool {
    has_common_extension(path) && common_extension(path) is None
}

/// The media type that `MediaType::guess_from_path` finds for a path that has the same extension on
/// every platform.
pub uninterp spec fn guessed_media_type(path: Seq<char>) -> Option<Seq<char>>;

/// The media type of a file whose path has the same extension on every platform: that of `obj` and
/// `stl` files is known, a file without an extension has none, and others have one that is guessed.
pub open spec fn media_type_of(path: Seq<char>) -> Option<Seq<char>> {
    if has_extension(path, "obj"@) {
        Some("model/obj"@)
    } else if has_extension(path, "stl"@) {
        Some("model/stl"@)
    } else if lacks_extension(path) {
        None
    } else {
        guessed_media_type(path)
    }
}

/// Calls `re_types::components::MediaType::guess_from_path`. Trusted: of a path that has the same
/// extension on every platform the guess is a function of the path; the extensions `obj` and `stl`,
/// in upper or lower case, give `model/obj` and `model/stl`, and a path without an extension gives
/// nothing. What other extensions give is not stated. Of other paths nothing is said, for there it
/// depends on the platform.
#[verifier::external_body]
fn guess_from_path(path: &str) -> (media_type: Option<String>)
    ensures
        has_common_extension(path@) ==> opt_chars(media_type) == guessed_media_type(path@),
        has_extension(path@, "obj"@) ==> opt_chars(media_type) == Some("model/obj"@),
        has_extension(path@, "stl"@) ==> opt_chars(media_type) == Some("model/stl"@),
        lacks_extension(path@) ==> media_type is None,
{
    re_types::components::MediaType::guess_from_path(path).map(|m| m.as_str().to_owned())
}

/// The media type of a mesh, guessed from the name by which the robot refers to it.
pub fn mesh_media_type(filename: &str) -> (media_type: Option<String>)
    ensures
        has_common_extension(filename@) ==> opt_chars(media_type) == media_type_of(filename@),
{
    guess_from_path(filename)
}

} // verus!
