//! File paths: which of them name a URDF file, and in which directory they stand.
//!
//! How a path falls into its parts is the platform's affair. What is stated here of a path's
//! parts holds of the paths that every platform reads alike (`is_portable`), and of others as far
//! as it is the same on every platform.

use vstd::prelude::*;

use crate::text::{ascii_lower, eq_ignore_ascii_case, opt_chars};

verus! {

/// Whether a path reads the same on every platform: its only separator is `/`, and it starts
/// neither with a drive letter's colon in second place nor with two slashes.
pub open spec fn is_portable(path: Seq<char>) -> bool {
    &&& !path.contains('\\')
    &&& path.len() >= 2 ==> path[1] != ':'
    &&& path.len() >= 2 ==> !(path[0] == '/' && path[1] == '/')
}

/// The number of characters of `s` behind the last `mark`; all of them where it does not occur.
pub open spec fn behind_last(s: Seq<char>, mark: char) -> nat
    decreases s.len(),
{
    if s.len() == 0 || s.last() == mark {
        0
    } else {
        behind_last(s.drop_last(), mark) + 1
    }
}

/// The last component of `path` that is neither empty nor `.`; empty where there is none.
pub open spec fn last_component(path: Seq<char>) -> Seq<char>
    decreases path.len(),
{
    let segment = path.skip(path.len() - behind_last(path, '/'));
    if path.len() == 0 {
        seq![]
    } else if segment.len() == 0 || segment == seq!['.'] {
        last_component(path.drop_last())
    } else {
        segment
    }
}

/// The file name of `path`: its last component, unless that is `..`.
pub open spec fn path_file_name(path: Seq<char>) -> Option<Seq<char>> {
    let last = last_component(path);
    if last.len() == 0 || last == seq!['.', '.'] {
        None
    } else {
        Some(last)
    }
}

/// The part of `name` behind its last dot; nothing where `name` has no dot or only a leading one.
pub open spec fn name_extension(name: Seq<char>) -> Option<Seq<char>> {
    let n = behind_last(name, '.');
    if n + 1 < name.len() {
        Some(name.skip(name.len() - n))
    } else {
        None
    }
}

/// The extension of the file that `path` names.
pub open spec fn path_extension(path: Seq<char>) -> Option<Seq<char>> {
    match path_file_name(path) {
        Some(name) => name_extension(name),
        None => None,
    }
}

/// Whether a character separates the parts of a path on some platform.
pub open spec fn is_separator(c: char) -> bool {
    c == '/' || c == '\\'
}

/// The number of characters of `s` behind the last one that separates the parts of a path on some
/// platform, or is the colon behind a drive letter.
pub open spec fn behind_any_separator(s: Seq<char>) -> nat
    decreases s.len(),
{
    if s.len() == 0 || is_separator(s.last()) || s.last() == ':' {
        0
    } else {
        behind_any_separator(s.drop_last()) + 1
    }
}

/// The end of a path that belongs to its file name on every platform.
pub open spec fn tail(path: Seq<char>) -> Seq<char> {
    path.skip(path.len() - behind_any_separator(path))
}

/// Whether a path starts with two separators, and may be all prefix.
pub open spec fn two_separators(path: Seq<char>) -> bool {
    path.len() >= 2 && is_separator(path[0]) && is_separator(path[1])
}

/// The extension that the end of a path gives it on every platform; nothing where it gives none.
pub open spec fn tail_extension(path: Seq<char>) -> Option<Seq<char>> {
    if two_separators(path) {
        None
    } else if tail(path) == seq!['.', '.'] {
        None
    } else {
        name_extension(tail(path))
    }
}

/// Whether a path has the same extension on every platform, if it has one.
pub open spec fn has_common_extension(path: Seq<char>) -> bool {
    is_portable(path) || tail_extension(path) is Some || !path.contains('.')
}

/// The extension of a path that has the same one on every platform.
pub open spec fn common_extension(path: Seq<char>) -> Option<Seq<char>> {
    if is_portable(path) {
        path_extension(path)
    } else {
        tail_extension(path)
    }
}

/// Calls `std::path::Path::extension`. Trusted: the extension is the part of the file name behind
/// the last dot, where the file name is the last component that is not `.`, repeated and trailing
/// slashes aside; there is none where the path has no file name or ends in `..`, or where the file
/// name has no dot or only a leading one. Of a path that not every platform reads alike that is
/// said as far as its end shows it: what is behind its last separator of any platform is the end
/// of the file name, and a path without a dot has no extension. Of other paths nothing is said,
/// for there it depends on the platform.
#[verifier::external_body]
fn extension(path: &str) -> (ext: Option<String>)
    ensures
        has_common_extension(path@) ==> opt_chars(ext) == common_extension(path@),
{
    std::path::Path::new(path).extension().map(|ext| ext.to_string_lossy().into_owned())
}

/// The part of a path before its last slash.
pub open spec fn before_last_slash(path: Seq<char>) -> Seq<char> {
    path.take(path.len() - behind_last(path, '/') - 1)
}

/// The directory of a path in plain form, that is one that ends in a file name, before which stands
/// nothing, or a single slash with nothing or another name before it.
pub open spec fn plain_directory(path: Seq<char>) -> Option<Seq<char>> {
    let n = behind_last(path, '/');
    let name = path.skip(path.len() - n);
    let before = before_last_slash(path);
    let m = behind_last(before, '/');
    if n == 0 || name == seq!['.'] || name == seq!['.', '.'] {
        None
    } else if n == path.len() {
        Some(seq![])
    } else if n + 1 == path.len() {
        Some(seq!['/'])
    } else if m == 0 || before.skip(before.len() - m) == seq!['.'] {
        None
    } else {
        Some(before)
    }
}

/// The number of characters of `s` behind the last separator of any platform.
pub open spec fn behind_separator(s: Seq<char>) -> nat
    decreases s.len(),
{
    if s.len() == 0 || is_separator(s.last()) {
        0
    } else {
        behind_separator(s.drop_last()) + 1
    }
}

/// Whether a path starts with a drive letter.
pub open spec fn has_drive(path: Seq<char>) -> bool {
    path.len() >= 2 && path[1] == ':' && ('a' <= path[0] <= 'z' || 'A' <= path[0] <= 'Z')
}

/// The directory of a path in plain form where backslashes separate too, and a drive letter may
/// come first.
pub open spec fn windows_directory(path: Seq<char>) -> Option<Seq<char>> {
    let drive: int = if has_drive(path) {
        2
    } else {
        0
    };
    let body = path.skip(drive);
    let n = behind_separator(body);
    let name = body.skip(body.len() - n);
    let before = body.take(body.len() - n - 1);
    let m = behind_separator(before);
    if n == 0 || name == seq!['.'] || name == seq!['.', '.'] {
        None
    } else if n == body.len() {
        Some(path.take(drive))
    } else if n + 1 == body.len() {
        Some(path.take(drive + 1))
    } else if m == 0 || before.skip(before.len() - m) == seq!['.'] {
        None
    } else {
        Some(path.take(path.len() - n - 1))
    }
}

/// Whether `dir` is the directory of a path on some platform, where it is in plain form on all.
pub open spec fn may_be_directory(path: Seq<char>, dir: Option<Seq<char>>) -> bool {
    !two_separators(path) && plain_directory(path) is Some && windows_directory(path) is Some
        ==> dir == plain_directory(path) || dir == windows_directory(path)
}

/// The directory that `std::path::Path::parent` gives for a path that every platform reads alike
/// and that is not in plain form.
pub uninterp spec fn parent_directory(path: Seq<char>) -> Option<Seq<char>>;

/// The directory of a path that every platform reads alike.
pub open spec fn directory_of(path: Seq<char>) -> Option<Seq<char>> {
    match plain_directory(path) {
        Some(dir) => Some(dir),
        None => parent_directory(path),
    }
}

/// Calls `std::path::Path::parent`. Trusted: of a path that every platform reads alike the parent
/// is a function of the path, and of one in plain form it is the path without its file name and
/// the slash before it, or the root alone. Of another path in plain form it is that, with slashes
/// alone or with backslashes and a drive letter too. A path that names a file has a parent. How a
/// parent is written where slashes are repeated or `.` stands between them is not stated, and of
/// other paths nothing is said, for there it depends on the platform.
#[verifier::external_body]
pub(crate) fn parent_dir(path: &str) -> (dir: Option<String>)
    ensures
        is_portable(path@) && plain_directory(path@) is Some ==> opt_chars(dir) == plain_directory(
            path@,
        ),
        is_portable(path@) && plain_directory(path@) is None ==> opt_chars(dir)
            == parent_directory(path@),
        is_portable(path@) && path_file_name(path@) is Some ==> dir is Some,
        may_be_directory(path@, opt_chars(dir)),
        tail_extension(path@) is Some ==> dir is Some,
{
    std::path::Path::new(path).parent().map(|dir| dir.to_string_lossy().into_owned())
}

/// Whether an extension is that of URDF files.
pub open spec fn urdf_extension(ext: Option<Seq<char>>) -> bool {
    ext matches Some(ext) && ascii_lower(ext) == ascii_lower("urdf"@)
}

/// Whether a file with the extension `ext` is a URDF file: the extension is `urdf`, in upper or
/// lower case.
pub fn is_urdf_extension(ext: &Option<String>) -> (yes: bool)
    ensures
        yes == urdf_extension(opt_chars(*ext)),
{
    match ext {
        Some(ext) => eq_ignore_ascii_case(ext.as_str(), "urdf"),
        None => false,
    }
}

/// Whether `path` names a URDF file.
pub fn is_urdf_file(path: &str) -> (yes: bool)
    ensures
        has_common_extension(path@) ==> yes == urdf_extension(common_extension(path@)),
{
    let ext: Option<String> = extension(path);
    is_urdf_extension(&ext)
}

} // verus!
