//! Loading a URDF file, from its path and its text to the steps that log the robot.

use vstd::prelude::*;
use vstd::utf8::{decode_utf8, valid_utf8};

use crate::error::RobotError;
use crate::laws::law_known_directory_suffices;
use crate::log::{reports, Outcome};
use crate::path::{
    common_extension, directory_of, has_common_extension, is_portable, is_urdf_file,
    may_be_directory, parent_dir, tail_extension, urdf_extension,
};
use crate::robot::{RobotView, UrdfRobot};
use crate::step::Step;
use crate::text::opt_chars;
use crate::urdf::{read_urdf, urdf_document};
use crate::walk::{robot_log, try_log_robot};
use crate::xml::{is_readable, readable, unambiguous};

verus! {

/// Why a file was not loaded.
#[derive(Debug)]
pub enum LoadError {
    /// The path does not name a URDF file.
    Incompatible(String),
    /// The text is one on which the XML reader panics.
    Unreadable,
    /// The text does not describe a robot.
    Parse(urdf_rs::UrdfError),
    /// The robot cannot be logged, or not to its end.
    Robot(RobotError),
}

/// What loading a file comes to.
pub enum Loading {
    Incompatible,
    Unreadable,
    NoRobot,
    Logged(Outcome),
}

/// How a path and a text are read: whether the name of the file is that of a URDF file, in which
/// directory the file stands, and which robot is found in the text.
pub struct Reading {
    pub is_urdf: bool,
    pub dir: Option<Seq<char>>,
    pub document: Option<RobotView>,
}

/// What loading a file with the text `text` comes to, if its path and its text are read as
/// `reading` says.
pub open spec fn loading(text: Seq<char>, reading: Reading) -> Loading {
    if !reading.is_urdf {
        Loading::Incompatible
    } else if !readable(text) {
        Loading::Unreadable
    } else {
        match reading.document {
            None => Loading::NoRobot,
            Some(robot) => Loading::Logged(robot_log(robot, reading.dir)),
        }
    }
}

/// Whether a function that found the steps `before`, left the steps `after` and gave `result` did
/// what `loading` says for the file at `filepath`. Nothing is added but the steps of a robot.
pub open spec fn loads(
    filepath: Seq<char>,
    before: Seq<Step>,
    after: Seq<Step>,
    result: Result<(), LoadError>,
    loading: Loading,
) -> bool {
    match loading {
        Loading::Incompatible => after == before && result is Err
            && result->Err_0 is Incompatible && result->Err_0->Incompatible_0@ == filepath,
        Loading::Unreadable => after == before && result is Err && result->Err_0 is Unreadable,
        Loading::NoRobot => after == before && result is Err && result->Err_0 is Parse,
        Loading::Logged(outcome) => match result {
            Ok(_) => reports(before, after, Ok(()), outcome),
            Err(LoadError::Robot(e)) => reports(before, after, Err(e), outcome),
            Err(_) => false,
        },
    }
}

/// Whether loading failed because the directory of the file is not known.
pub open spec fn lacks_directory(result: Result<(), LoadError>) -> bool {
    result matches Err(LoadError::Robot(RobotError::NoRootDirectory(_)))
}

/// Whether `is_urdf` and `dir` are what `path` tells of its file: whether its name is that of a
/// URDF file, and in which directory it stands. Each is asked only where it is the same on every
/// platform.
pub open spec fn may_stand(path: Seq<char>, is_urdf: bool, dir: Option<Seq<char>>) -> bool {
    &&& has_common_extension(path) ==> is_urdf == urdf_extension(common_extension(path))
    &&& is_portable(path) ==> dir == directory_of(path)
    &&& may_be_directory(path, dir)
}

/// Whether `document` is what is found in `text`, as far as that is the same in every process.
pub open spec fn may_be_read(text: Seq<char>, document: Option<RobotView>) -> bool {
    match document {
        Some(_) => urdf_document(text) == document,
        None => unambiguous(text) ==> urdf_document(text) is None,
    }
}

/// Whether a path and a text may be read as `reading` says. Where both are the same everywhere,
/// they are read in one way only.
pub open spec fn is_reading(path: Seq<char>, text: Seq<char>, reading: Reading) -> bool {
    may_stand(path, reading.is_urdf, reading.dir) && may_be_read(text, reading.document)
}

/// Whether a function that found the steps `before`, left the steps `after` and gave `result` for
/// the file at `filepath` with the text `text` did what `loading` says for one way to read them.
pub open spec fn loaded_as(
    filepath: Seq<char>,
    text: Seq<char>,
    reading: Reading,
    before: Seq<Step>,
    after: Seq<Step>,
    result: Result<(), LoadError>,
) -> bool {
    is_reading(filepath, text, reading) && loads(
        filepath,
        before,
        after,
        result,
        loading(text, reading),
    )
}

/// What else holds of a function that loaded a file, however its path and its text are read. Where
/// they are the same everywhere, it did just what that comes to, and a file whose name is that of a
/// URDF file has a directory.
pub open spec fn loaded_at_least(
    filepath: Seq<char>,
    text: Seq<char>,
    before: Seq<Step>,
    after: Seq<Step>,
    result: Result<(), LoadError>,
) -> bool {
    &&& is_portable(filepath) && unambiguous(text) ==> loads(
        filepath,
        before,
        after,
        result,
        loading(
            text,
            Reading {
                is_urdf: urdf_extension(common_extension(filepath)),
                dir: directory_of(filepath),
                document: urdf_document(text),
            },
        ),
    )
    &&& is_portable(filepath) || tail_extension(filepath) is Some ==> !lacks_directory(result)
}

/// What holds of a function that found the steps `before`, left the steps `after` and gave
/// `result` for the file at `filepath` with the text `text`. It did what `loading` says, for one
/// way to read the path and the text.
pub open spec fn loaded(
    filepath: Seq<char>,
    text: Seq<char>,
    before: Seq<Step>,
    after: Seq<Step>,
    result: Result<(), LoadError>,
) -> bool {
    &&& exists|reading: Reading| #[trigger]
        loaded_as(filepath, text, reading, before, after, result)
    &&& loaded_at_least(filepath, text, before, after, result)
}

/// Whether a function did as in `loaded_as`, for a file with the contents `contents`: these count
/// as the text that is made of them, which is what they encode where they are valid UTF-8.
pub open spec fn contents_loaded_as(
    filepath: Seq<char>,
    contents: Seq<u8>,
    reading: Reading,
    before: Seq<Step>,
    after: Seq<Step>,
    result: Result<(), LoadError>,
) -> bool {
    &&& loaded_as(filepath, lossy_text(contents), reading, before, after, result)
    &&& valid_utf8(contents) ==> loaded_as(
        filepath,
        decode_utf8(contents),
        reading,
        before,
        after,
        result,
    )
}

/// What holds of a function as in `loaded`, for a file with the contents `contents`.
pub open spec fn loaded_contents(
    filepath: Seq<char>,
    contents: Seq<u8>,
    before: Seq<Step>,
    after: Seq<Step>,
    result: Result<(), LoadError>,
) -> bool {
    &&& exists|reading: Reading| #[trigger]
        contents_loaded_as(filepath, contents, reading, before, after, result)
    &&& loaded_at_least(filepath, lossy_text(contents), before, after, result)
    &&& valid_utf8(contents) ==> loaded_at_least(
        filepath,
        decode_utf8(contents),
        before,
        after,
        result,
    )
}

/// The text that `String::from_utf8_lossy` makes of bytes.
pub uninterp spec fn lossy_text(bytes: Seq<u8>) -> Seq<char>;

/// Calls `String::from_utf8_lossy`. Trusted: the text is a function of the bytes, and that of
/// valid UTF-8 is what it encodes. How other bytes are replaced is not stated.
#[verifier::external_body]
fn from_utf8_lossy(bytes: &[u8]) -> (text: String)
    ensures
        text@ == lossy_text(bytes@),
        valid_utf8(bytes@) ==> text@ == decode_utf8(bytes@),
{
    String::from_utf8_lossy(bytes).into_owned()
}

/// A loader for URDF (Unified Robot Description Format), common in ROS.
pub struct UrdfDataLoader;

impl UrdfDataLoader {
    /// The name of the loader.
    pub fn name(&self) -> (name: String)
        ensures
            name@ == "URDF Loader"@,
    {
        "URDF Loader".to_owned()
    }

    /// Loads the file at `filepath`, the text of which is `text`.
    pub fn load_from_path(
        &self,
        filepath: &str,
        text: &str,
        tx: &mut Vec<Step>,
    ) -> (result: Result<(), LoadError>)
        ensures
            loaded(filepath@, text@, old(tx)@, final(tx)@, result),
    {
        let is_urdf: bool = is_urdf_file(filepath);
        let dir: Option<String> = parent_dir(filepath);
        let ghost found = Reading {
            is_urdf,
            dir: opt_chars(dir),
            document: urdf_document(text@),
        };
        assert(is_reading(filepath@, text@, found));
        if !is_urdf {
            let result: Result<(), LoadError> = Err(LoadError::Incompatible(filepath.to_owned()));
            assert(loaded_as(filepath@, text@, found, old(tx)@, tx@, result));
            return result;
        }
        if !is_readable(text) {
            let result: Result<(), LoadError> = Err(LoadError::Unreadable);
            assert(loaded_as(filepath@, text@, found, old(tx)@, tx@, result));
            return result;
        }
        let robot: UrdfRobot = match read_urdf(text) {
            Ok(robot) => robot,
            Err(error) => {
                let result: Result<(), LoadError> = Err(LoadError::Parse(error));
                let ghost refused = Reading { document: None, ..found };
                assert(loaded_as(filepath@, text@, refused, old(tx)@, tx@, result));
                return result;
            },
        };
        assert(found.document == Some(robot@));
        let result: Result<(), LoadError> = match try_log_robot(robot, dir, tx) {
            Ok(_) => Ok(()),
            Err(error) => {
                proof {
                    if error is NoRootDirectory && found.dir is Some {
                        law_known_directory_suffices(
                            found.document->0,
                            found.dir,
                            error->NoRootDirectory_0@,
                        );
                    }
                }
                Err(LoadError::Robot(error))
            },
        };
        assert(loaded_as(filepath@, text@, found, old(tx)@, tx@, result));
        result
    }

    /// Loads the file at `filepath`, the contents of which are `contents`.
    pub fn load_from_file_contents(
        &self,
        filepath: &str,
        contents: &[u8],
        tx: &mut Vec<Step>,
    ) -> (result: Result<(), LoadError>)
        ensures
            loaded_contents(filepath@, contents@, old(tx)@, final(tx)@, result),
    {
        let text: String = from_utf8_lossy(contents);
        let result: Result<(), LoadError> = self.load_from_path(filepath, text.as_str(), tx);
        proof {
            let reading = choose|reading: Reading| #[trigger]
                loaded_as(filepath@, text@, reading, old(tx)@, tx@, result);
            assert(contents_loaded_as(filepath@, contents@, reading, old(tx)@, tx@, result));
        }
        result
    }
}

} // verus!
