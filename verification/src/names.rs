//! How the names of files, of resources and of entities fall into their parts.

use vstd::prelude::*;

use crate::error::RobotErrorView;
use crate::loader::{is_reading, Reading};
use crate::path::{
    before_last_slash, behind_any_separator, behind_last, behind_separator, common_extension,
    directory_of, has_common_extension, has_drive, is_portable, last_component, name_extension,
    path_extension, plain_directory, tail, tail_extension, two_separators, urdf_extension,
    windows_directory,
};
use crate::resource::{joins, may_join, media_type_of, ros_resource, ResourceFileView};
use crate::text::{ascii_lower, decimal, digit, lemma_split_at, occurs_at, split_at_first};
use crate::urdf::urdf_document;
use crate::xml::unambiguous;

verus! {

/// Whether a text holds none of the given character.
pub open spec fn lacks(s: Seq<char>, c: char) -> bool {
    forall|i: int| 0 <= i < s.len() ==> #[trigger] s[i] != c
}

/// Whether a path has slashes for its only separators, and starts neither with two of them nor with
/// a colon in second place.
pub open spec fn has_plain_slashes(path: Seq<char>) -> bool {
    &&& lacks(path, '\\')
    &&& path.len() >= 2 ==> path[1] != ':' && !(path[0] == '/' && path[1] == '/')
}

/// The paths that every platform reads alike are those with slashes for their only separators,
/// unless they start with two or with a colon in second place.
pub proof fn law_plain_slashes_are_portable(path: Seq<char>)
    ensures
        is_portable(path) <==> has_plain_slashes(path),
{
    if !lacks(path, '\\') {
        let i = choose|i: int| 0 <= i < path.len() && #[trigger] path[i] == '\\';
        assert(path.contains('\\'));
    }
}

proof fn lemma_behind_last(a: Seq<char>, mark: char, b: Seq<char>)
    requires
        lacks(b, mark),
    ensures
        behind_last(a.push(mark) + b, mark) == b.len(),
        behind_last(b, mark) == b.len(),
    decreases b.len(),
{
    let s = a.push(mark) + b;
    if b.len() == 0 {
        assert(s =~= a.push(mark));
    } else {
        let c = b.drop_last();
        assert(lacks(c, mark)) by {
            assert forall|i: int| 0 <= i < c.len() implies #[trigger] c[i] != mark by {
                assert(b[i] != mark);
            }
        }
        lemma_behind_last(a, mark, c);
        assert(s.drop_last() =~= a.push(mark) + c);
        assert(s.last() == b[b.len() - 1]);
        assert(b.last() == b[b.len() - 1]);
    }
}

/// Whether a text may stand in the name of a file: it holds no separator of any platform and no
/// colon.
pub open spec fn is_name_part(s: Seq<char>) -> bool {
    lacks(s, '/') && lacks(s, '\\') && lacks(s, ':')
}

/// Whether a text is empty or ends where the name of a file may start.
pub open spec fn is_front(s: Seq<char>) -> bool {
    s.len() > 0 ==> s[s.len() - 1] == '/' || s[s.len() - 1] == '\\' || s[s.len() - 1] == ':'
}

/// A path whose last part is `stem` with the extension `ext`.
pub open spec fn with_extension(front: Seq<char>, stem: Seq<char>, ext: Seq<char>) -> Seq<char> {
    front + stem + seq!['.'] + ext
}

/// Whether `front`, `stem` and `ext` make up a path with an extension. It may have separators of
/// any platform, but must not start with two of them.
pub open spec fn makes_path(front: Seq<char>, stem: Seq<char>, ext: Seq<char>) -> bool {
    &&& is_front(front)
    &&& front.len() >= 2 ==> !((front[0] == '/' || front[0] == '\\') && (front[1] == '/'
        || front[1] == '\\'))
    &&& is_name_part(stem)
    &&& stem.len() > 0
    &&& is_name_part(ext)
    &&& lacks(ext, '.')
    &&& !(stem == seq!['.'] && ext.len() == 0)
}

proof fn lemma_behind_any(front: Seq<char>, name: Seq<char>)
    requires
        is_front(front),
        is_name_part(name),
    ensures
        behind_any_separator(front + name) == name.len(),
    decreases name.len(),
{
    let s = front + name;
    if name.len() == 0 {
        assert(s =~= front);
        if s.len() > 0 {
            assert(s.last() == front[front.len() - 1]);
        }
    } else {
        let c = name.drop_last();
        assert(is_name_part(c)) by {
            assert forall|i: int| 0 <= i < c.len() implies c[i] != '/' && c[i] != '\\' && c[i]
                != ':' by {
                assert(name[i] != '/' && name[i] != '\\' && name[i] != ':');
            }
        }
        lemma_behind_any(front, c);
        assert(s.drop_last() =~= front + c);
        assert(s.last() == name[name.len() - 1]);
    }
}

proof fn lemma_name_extension(stem: Seq<char>, ext: Seq<char>)
    requires
        stem.len() > 0,
        lacks(ext, '.'),
    ensures
        name_extension(stem + seq!['.'] + ext) == Some(ext),
{
    let name = stem + seq!['.'] + ext;
    assert(stem.push('.') + ext =~= name);
    lemma_behind_last(stem, '.', ext);
    assert(name.skip(name.len() - ext.len()) =~= ext);
}

proof fn lemma_last_segment(dir: Seq<char>, name: Seq<char>)
    requires
        dir.len() > 0 ==> dir[dir.len() - 1] == '/',
        lacks(name, '/'),
        name.len() > 0,
        name != seq!['.'],
    ensures
        last_component(dir + name) == name,
{
    let s = dir + name;
    if dir.len() == 0 {
        assert(s =~= name);
        lemma_behind_last(seq![], '/', name);
        assert(s.skip(0) =~= name);
    } else {
        let d = dir.drop_last();
        assert(d.push('/') + name =~= s);
        lemma_behind_last(d, '/', name);
        assert(s.skip(s.len() - name.len()) =~= name);
    }
}

/// The part of a text behind its last slash, and what is before that.
proof fn lemma_last_slash(s: Seq<char>) -> (parts: (Seq<char>, Seq<char>))
    ensures
        s == parts.0 + parts.1,
        parts.0.len() > 0 ==> parts.0[parts.0.len() - 1] == '/',
        lacks(parts.1, '/'),
    decreases s.len(),
{
    if s.len() == 0 {
        assert(s =~= s + s);
        (s, s)
    } else if s.last() == '/' {
        assert(s =~= s + Seq::<char>::empty());
        (s, seq![])
    } else {
        let (a, b) = lemma_last_slash(s.drop_last());
        let c = b.push(s.last());
        assert(s =~= s.drop_last().push(s.last()));
        assert((a + b).push(s.last()) =~= a + c);
        assert forall|i: int| 0 <= i < c.len() implies #[trigger] c[i] != '/' by {
            if i < b.len() {
                assert(b[i] != '/');
            }
        }
        (a, c)
    }
}

proof fn lemma_full_name(stem: Seq<char>, ext: Seq<char>)
    requires
        is_name_part(stem),
        stem.len() > 0,
        is_name_part(ext),
        lacks(ext, '.'),
        !(stem == seq!['.'] && ext.len() == 0),
    ensures
        is_name_part(stem + seq!['.'] + ext),
        stem + seq!['.'] + ext != seq!['.', '.'],
{
    let name = stem + seq!['.'] + ext;
    assert forall|i: int| 0 <= i < name.len() implies name[i] != '/' && name[i] != '\\' && name[i]
        != ':' by {
        if i < stem.len() {
            assert(name[i] == stem[i]);
        } else if i > stem.len() {
            assert(name[i] == ext[i - stem.len() - 1]);
        }
    }
    if name == seq!['.', '.'] {
        assert(name.len() == stem.len() + 1 + ext.len());
        assert(stem[0] == name[0]);
        assert(stem =~= seq!['.']);
    }
}

proof fn lemma_tail_extension(front: Seq<char>, stem: Seq<char>, ext: Seq<char>)
    requires
        makes_path(front, stem, ext),
    ensures
        tail_extension(front + (stem + seq!['.'] + ext)) == Some(ext),
{
    let name = stem + seq!['.'] + ext;
    let path = front + name;
    lemma_full_name(stem, ext);
    lemma_name_extension(stem, ext);
    lemma_behind_any(front, name);
    assert(tail(path) =~= name);
    if two_separators(path) {
        if front.len() == 1 {
            assert(path[1] == name[0]);
        } else if front.len() == 0 {
            assert(path[0] == name[0]);
        } else {
            assert(path[0] == front[0] && path[1] == front[1]);
        }
    }
}

proof fn lemma_slash_extension(front: Seq<char>, stem: Seq<char>, ext: Seq<char>)
    requires
        makes_path(front, stem, ext),
    ensures
        path_extension(front + (stem + seq!['.'] + ext)) == Some(ext),
{
    let name = stem + seq!['.'] + ext;
    let path = front + name;
    let (dir, begin) = lemma_last_slash(front);
    let last = begin + name;
    lemma_full_name(stem, ext);
    assert(path =~= dir + last);
    assert forall|i: int| 0 <= i < last.len() implies #[trigger] last[i] != '/' by {
        if i < begin.len() {
            assert(begin[i] != '/');
        } else {
            assert(last[i] == name[i - begin.len()]);
        }
    }
    assert(last.len() >= 2);
    lemma_last_segment(dir, last);
    assert(last =~= (begin + stem) + seq!['.'] + ext);
    lemma_name_extension(begin + stem, ext);
    if begin.len() > 0 {
        assert(front[front.len() - 1] == begin[begin.len() - 1]);
        assert(last[begin.len() - 1] == begin[begin.len() - 1]);
        if last == seq!['.', '.'] {
            assert(last[begin.len() - 1] == '.');
        }
    } else {
        assert(last =~= name);
    }
}

/// The extension of a file is what stands behind the last dot of its name, on every platform.
pub proof fn law_extensions_stand_behind_the_last_dot(
    front: Seq<char>,
    stem: Seq<char>,
    ext: Seq<char>,
)
    requires
        makes_path(front, stem, ext),
    ensures
        has_common_extension(with_extension(front, stem, ext)),
        common_extension(with_extension(front, stem, ext)) == Some(ext),
{
    assert(with_extension(front, stem, ext) =~= front + (stem + seq!['.'] + ext));
    lemma_tail_extension(front, stem, ext);
    lemma_slash_extension(front, stem, ext);
}

/// A path without a dot has no extension on any platform.
pub proof fn law_without_a_dot_there_is_no_extension(path: Seq<char>)
    requires
        lacks(path, '.'),
    ensures
        has_common_extension(path),
        common_extension(path) is None,
{
    assert(!path.contains('.'));
    if is_portable(path) {
        let last = last_component(path);
        lemma_component_lacks(path, '.');
        lemma_behind_last(seq![], '.', last);
    } else {
        let t = tail(path);
        lemma_behind_any_bound(path);
        assert(lacks(t, '.')) by {
            assert forall|i: int| 0 <= i < t.len() implies #[trigger] t[i] != '.' by {
                assert(t[i] == path[path.len() - t.len() + i]);
            }
        }
        lemma_behind_last(seq![], '.', t);
    }
}

proof fn lemma_behind_any_bound(s: Seq<char>)
    ensures
        behind_any_separator(s) <= s.len(),
    decreases s.len(),
{
    if s.len() > 0 {
        lemma_behind_any_bound(s.drop_last());
    }
}

proof fn lemma_behind_last_bound(s: Seq<char>, mark: char)
    ensures
        behind_last(s, mark) <= s.len(),
    decreases s.len(),
{
    if s.len() > 0 {
        lemma_behind_last_bound(s.drop_last(), mark);
    }
}

proof fn lemma_component_lacks(path: Seq<char>, c: char)
    requires
        lacks(path, c),
    ensures
        lacks(last_component(path), c),
    decreases path.len(),
{
    lemma_behind_last_bound(path, '/');
    let segment = path.skip(path.len() - behind_last(path, '/'));
    if path.len() > 0 {
        let shorter = path.drop_last();
        assert forall|i: int| 0 <= i < shorter.len() implies #[trigger] shorter[i] != c by {
            assert(path[i] != c);
        }
        lemma_component_lacks(shorter, c);
        assert forall|i: int| 0 <= i < segment.len() implies #[trigger] segment[i] != c by {
            assert(segment[i] == path[path.len() - segment.len() + i]);
        }
    }
}

/// A file whose name has no dot but perhaps a leading one has no extension, and so has none that is
/// named `..`.
pub proof fn law_hidden_files_have_no_extension(dir: Seq<char>, name: Seq<char>)
    requires
        has_plain_slashes(dir + name),
        dir.len() > 0 ==> dir[dir.len() - 1] == '/',
        lacks(name, '/'),
        name.len() > 0,
        name != seq!['.'],
        lacks(name.skip(1), '.') || name == seq!['.', '.'],
    ensures
        has_common_extension(dir + name),
        common_extension(dir + name) is None,
{
    law_plain_slashes_are_portable(dir + name);
    lemma_last_segment(dir, name);
    if lacks(name.skip(1), '.') {
        if name[0] == '.' {
            assert(Seq::<char>::empty().push('.') + name.skip(1) =~= name);
            lemma_behind_last(seq![], '.', name.skip(1));
        } else {
            assert(lacks(name, '.')) by {
                assert forall|i: int| 0 <= i < name.len() implies #[trigger] name[i] != '.' by {
                    if i > 0 {
                        assert(name.skip(1)[i - 1] == name[i]);
                    }
                }
            }
            lemma_behind_last(seq![], '.', name);
        }
    }
}

/// A slash behind a path, or a slash and a dot, makes no difference to its extension.
pub proof fn law_trailing_slashes_do_not_matter(path: Seq<char>)
    requires
        path.len() > 0,
        has_plain_slashes(path.push('/').push('.')),
    ensures
        common_extension(path.push('/')) == common_extension(path),
        common_extension(path.push('/').push('.')) == common_extension(path),
{
    let a = path.push('/');
    let b = a.push('.');
    assert forall|i: int| 0 <= i < a.len() implies #[trigger] a[i] != '\\' by {
        assert(b[i] != '\\');
    }
    assert forall|i: int| 0 <= i < path.len() implies #[trigger] path[i] != '\\' by {
        assert(b[i] != '\\');
    }
    assert(b[0] == path[0] && a[0] == path[0]);
    assert(b[1] == a[1]);
    if path.len() >= 2 {
        assert(a[1] == path[1]);
    }
    law_plain_slashes_are_portable(path);
    law_plain_slashes_are_portable(a);
    law_plain_slashes_are_portable(b);
    assert(a.drop_last() =~= path);
    assert(a + Seq::<char>::empty() =~= a);
    lemma_behind_last(path, '/', seq![]);
    assert(a.skip(a.len() as int) =~= seq![]);
    assert(last_component(a) == last_component(path));
    assert(b.drop_last() =~= a);
    assert(a + seq!['.'] =~= b);
    lemma_behind_last(path, '/', seq!['.']);
    assert(b.skip(b.len() - 1) =~= seq!['.']);
    assert(last_component(b) == last_component(a));
}

/// Whether a text is `word`, whose letters are all in lower case, with any of its letters in upper
/// case.
pub open spec fn is_word(s: Seq<char>, word: Seq<char>) -> bool {
    s.len() == word.len() && forall|i: int|
        0 <= i < s.len() ==> #[trigger] s[i] == word[i] || s[i] as int == word[i] as int - 32
}

/// Only letters in upper case become letters in lower case, each its own.
pub proof fn law_lower_case_changes_only_capitals(s: Seq<char>, i: int)
    requires
        0 <= i < s.len(),
    ensures
        ascii_lower(s).len() == s.len(),
        65 <= s[i] as int <= 90 ==> ascii_lower(s)[i] as int == s[i] as int + 32,
        !(65 <= s[i] as int <= 90) ==> ascii_lower(s)[i] == s[i],
{
}

proof fn lemma_word(s: Seq<char>, word: Seq<char>)
    requires
        forall|i: int| 0 <= i < word.len() ==> 97 <= (#[trigger] word[i]) as int <= 122,
    ensures
        ascii_lower(s) == word <==> is_word(s, word),
        ascii_lower(word) == word,
{
    assert forall|i: int| 0 <= i < word.len() implies ascii_lower(word)[i]
        == #[trigger] word[i] by {
        law_lower_case_changes_only_capitals(word, i);
    }
    assert(ascii_lower(word) =~= word);
    if ascii_lower(s) == word {
        assert forall|i: int| 0 <= i < s.len() implies #[trigger] s[i] == word[i] || s[i] as int
            == word[i] as int - 32 by {
            law_lower_case_changes_only_capitals(s, i);
        }
    }
    if is_word(s, word) {
        assert forall|i: int| 0 <= i < s.len() implies ascii_lower(s)[i] == #[trigger] word[i] by {
            law_lower_case_changes_only_capitals(s, i);
            assert(s[i] == word[i] || s[i] as int == word[i] as int - 32);
            assert(97 <= word[i] as int <= 122);
        }
        assert(ascii_lower(s) =~= word);
    }
}

/// The extension of URDF files is `urdf`, with any of its letters in upper case, and no other.
pub proof fn law_urdf_files_have_one_extension(ext: Seq<char>)
    ensures
        urdf_extension(Some(ext)) <==> is_word(ext, seq!['u', 'r', 'd', 'f']),
        !urdf_extension(None),
{
    reveal_strlit("urdf");
    assert("urdf"@ =~= seq!['u', 'r', 'd', 'f']);
    lemma_word(ext, "urdf"@);
}

/// What is read of a path tells a URDF file by its extension, and finds what is found in the text.
pub proof fn law_readings_tell_urdf_files(
    front: Seq<char>,
    stem: Seq<char>,
    ext: Seq<char>,
    text: Seq<char>,
    reading: Reading,
)
    requires
        makes_path(front, stem, ext),
        is_reading(with_extension(front, stem, ext), text, reading),
    ensures
        reading.is_urdf <==> is_word(ext, seq!['u', 'r', 'd', 'f']),
        reading.document is Some ==> reading.document == urdf_document(text),
        unambiguous(text) ==> reading.document == urdf_document(text),
{
    law_extensions_stand_behind_the_last_dot(front, stem, ext);
    law_urdf_files_have_one_extension(ext);
}

/// A path without an extension is not read as that of a URDF file.
pub proof fn law_readings_without_an_extension(path: Seq<char>, text: Seq<char>, reading: Reading)
    requires
        has_common_extension(path),
        common_extension(path) is None,
        is_reading(path, text, reading),
    ensures
        !reading.is_urdf,
{
}

/// Whether a text may be the name of a file in a directory.
pub open spec fn is_file_name(name: Seq<char>) -> bool {
    lacks(name, '/') && name.len() > 0 && name != seq!['.'] && name != seq!['.', '.']
}

/// A file stands in the directory before the last slash of its path, in the root where that slash
/// comes first, and where there is none in the directory that has an empty path.
pub proof fn law_files_stand_before_the_last_slash(dir: Seq<char>, name: Seq<char>)
    requires
        is_file_name(name),
    ensures
        plain_directory(name) == Some(Seq::<char>::empty()),
        plain_directory(seq!['/'] + name) == Some(seq!['/']),
        dir.len() > 0 && dir[dir.len() - 1] != '/' && dir != seq!['.'] && !(dir.len() >= 2
            && dir[dir.len() - 1] == '.' && dir[dir.len() - 2] == '/') ==> plain_directory(
            dir + seq!['/'] + name,
        ) == Some(dir),
{
    lemma_behind_last(seq![], '/', name);
    assert(name.skip(0) =~= name);
    let rooted = seq!['/'] + name;
    assert(Seq::<char>::empty().push('/') + name =~= rooted);
    assert(rooted.skip(1) =~= name);
    let path = dir + seq!['/'] + name;
    assert(dir.push('/') + name =~= path);
    lemma_behind_last(dir, '/', name);
    assert(path.skip(path.len() - name.len()) =~= name);
    assert(before_last_slash(path) =~= dir);
    if dir.len() > 0 && dir[dir.len() - 1] != '/' && dir != seq!['.'] && !(dir.len() >= 2
        && dir[dir.len() - 1] == '.' && dir[dir.len() - 2] == '/') {
        let m = behind_last(dir, '/');
        assert(m > 0);
        let (a, b) = lemma_last_slash(dir);
        if a.len() == 0 {
            assert(b =~= dir);
            lemma_behind_last(seq![], '/', dir);
            assert(dir.skip(0) =~= dir);
        } else {
            let c = a.drop_last();
            assert(c.push('/') + b =~= dir);
            lemma_behind_last(c, '/', b);
            assert(dir.skip(dir.len() - m) =~= b);
            if b == seq!['.'] {
                assert(dir[dir.len() - 1] == b[0]);
                assert(dir[dir.len() - 2] == a[a.len() - 1]);
            }
        }
    }
}

/// Meshes with a relative path are looked for in the directory of the robot's file, as the path of
/// that file gives it.
pub proof fn law_readings_find_the_directory(
    dir: Seq<char>,
    name: Seq<char>,
    text: Seq<char>,
    reading: Reading,
)
    requires
        is_file_name(name),
    ensures
        has_plain_slashes(name) && is_reading(name, text, reading) ==> reading.dir == Some(
            Seq::<char>::empty(),
        ),
        has_plain_slashes(seq!['/'] + name) && is_reading(seq!['/'] + name, text, reading)
            ==> reading.dir == Some(seq!['/']),
        has_plain_slashes(dir + seq!['/'] + name) && is_reading(
            dir + seq!['/'] + name,
            text,
            reading,
        ) && dir.len() > 0 && dir[dir.len() - 1] != '/' && dir != seq!['.'] && !(dir.len() >= 2
            && dir[dir.len() - 1] == '.' && dir[dir.len() - 2] == '/') ==> reading.dir == Some(dir),
{
    law_files_stand_before_the_last_slash(dir, name);
    law_plain_slashes_are_portable(name);
    law_plain_slashes_are_portable(seq!['/'] + name);
    law_plain_slashes_are_portable(dir + seq!['/'] + name);
    assert(directory_of(name) == plain_directory(name));
}

/// A mesh is taken for what the extension of its name says: `stl` and `obj` are known in upper and
/// lower case.
pub proof fn law_media_types_follow_extensions(
    front: Seq<char>,
    stem: Seq<char>,
    ext: Seq<char>,
)
    requires
        makes_path(front, stem, ext),
    ensures
        is_word(ext, seq!['s', 't', 'l']) ==> media_type_of(with_extension(front, stem, ext))
            == Some("model/stl"@),
        is_word(ext, seq!['o', 'b', 'j']) ==> media_type_of(with_extension(front, stem, ext))
            == Some("model/obj"@),
{
    law_extensions_stand_behind_the_last_dot(front, stem, ext);
    reveal_strlit("stl");
    reveal_strlit("obj");
    assert("stl"@ =~= seq!['s', 't', 'l']);
    assert("obj"@ =~= seq!['o', 'b', 'j']);
    lemma_word(ext, "stl"@);
    lemma_word(ext, "obj"@);
    assert("stl"@[0] != "obj"@[0]);
}

/// A mesh without an extension has no media type.
pub proof fn law_no_media_type_without_an_extension(filename: Seq<char>)
    requires
        has_common_extension(filename),
        common_extension(filename) is None,
    ensures
        media_type_of(filename) is None,
{
}

proof fn lemma_behind_separator(front: Seq<char>, name: Seq<char>)
    requires
        front.len() > 0 ==> front[front.len() - 1] == '/' || front[front.len() - 1] == '\\',
        lacks(name, '/'),
        lacks(name, '\\'),
    ensures
        behind_separator(front + name) == name.len(),
    decreases name.len(),
{
    let s = front + name;
    if name.len() == 0 {
        assert(s =~= front);
        if s.len() > 0 {
            assert(s.last() == front[front.len() - 1]);
        }
    } else {
        let c = name.drop_last();
        assert forall|i: int| 0 <= i < c.len() implies c[i] != '/' && c[i] != '\\' by {
            assert(name[i] != '/' && name[i] != '\\');
        }
        lemma_behind_separator(front, c);
        assert(s.drop_last() =~= front + c);
        assert(s.last() == name[name.len() - 1]);
    }
}

proof fn lemma_behind_separator_ends(s: Seq<char>)
    ensures
        behind_separator(s) <= s.len(),
        s.len() > 0 && s[s.len() - 1] != '/' && s[s.len() - 1] != '\\' ==> behind_separator(s) > 0,
    decreases s.len(),
{
    if s.len() > 0 {
        assert(s.last() == s[s.len() - 1]);
        lemma_behind_separator_ends(s.drop_last());
    }
}

/// A file whose path has backslashes for its only separators stands, on every platform, in the
/// directory before the last of them or in the one that has an empty path, and in no other.
pub proof fn law_readings_find_a_windows_directory(
    front: Seq<char>,
    name: Seq<char>,
    text: Seq<char>,
    reading: Reading,
)
    requires
        lacks(front, '/'),
        front.len() > 2,
        front[front.len() - 1] != '\\',
        front[front.len() - 1] != '.',
        !(front[0] == '\\' && front[1] == '\\'),
        is_file_name(name),
        lacks(name, '\\'),
        is_reading(front + seq!['\\'] + name, text, reading),
    ensures
        reading.dir == Some(Seq::<char>::empty()) || reading.dir == Some(front),
{
    let path = front + seq!['\\'] + name;
    assert(lacks(path, '/')) by {
        assert forall|i: int| 0 <= i < path.len() implies #[trigger] path[i] != '/' by {
            if i < front.len() {
                assert(path[i] == front[i]);
            } else if i > front.len() {
                assert(path[i] == name[i - front.len() - 1]);
            }
        }
    }
    lemma_behind_last(seq![], '/', path);
    assert(path.skip(0) =~= path);
    assert(path.len() > 2);
    assert(plain_directory(path) == Some(Seq::<char>::empty()));
    assert(path[0] == front[0] && path[1] == front[1]);
    assert(!two_separators(path));
    let drive: int = if has_drive(path) {
        2
    } else {
        0
    };
    let body = path.skip(drive);
    let head = front.skip(drive);
    assert(body =~= head.push('\\') + name);
    lemma_behind_separator(head.push('\\'), name);
    assert(body.skip(body.len() - name.len()) =~= name);
    let before = body.take(body.len() - name.len() - 1);
    assert(before =~= head);
    assert(head[head.len() - 1] == front[front.len() - 1]);
    lemma_behind_separator_ends(head);
    let m = behind_separator(head);
    assert(head.skip(head.len() - m) != seq!['.']) by {
        if head.skip(head.len() - m) == seq!['.'] {
            assert(head.skip(head.len() - m).len() == m);
            assert(head.skip(head.len() - m)[0] == head[head.len() - m]);
        }
    }
    assert(path.take(path.len() - name.len() - 1) =~= front);
    assert(windows_directory(path) == Some(front));
}

/// Whether `mark` stands in `s` at position `k`.
pub open spec fn stands_at(s: Seq<char>, mark: Seq<char>, k: int) -> bool {
    0 <= k && k + mark.len() <= s.len() && forall|i: int|
        0 <= i < mark.len() ==> s[k + i] == #[trigger] mark[i]
}

proof fn lemma_stands_at(s: Seq<char>, mark: Seq<char>, k: int)
    ensures
        stands_at(s, mark, k) <==> occurs_at(s, mark, k),
{
    if stands_at(s, mark, k) {
        assert(s.subrange(k, k + mark.len()) =~= mark);
    }
    if occurs_at(s, mark, k) {
        assert forall|i: int| 0 <= i < mark.len() implies s[k + i] == #[trigger] mark[i] by {
            assert(s.subrange(k, k + mark.len())[i] == s[k + i]);
        }
    }
}

/// A text is split where a mark stands first, and not at all where it stands nowhere.
pub proof fn law_texts_are_split_at_the_first_mark(
    before: Seq<char>,
    mark: Seq<char>,
    behind: Seq<char>,
    s: Seq<char>,
)
    ensures
        (forall|k: int| k < before.len() ==> !stands_at(before + mark + behind, mark, k))
            ==> split_at_first(before + mark + behind, mark) == Some((before, behind)),
        split_at_first(s, mark) is None <==> forall|k: int| !stands_at(s, mark, k),
{
    let whole = before + mark + behind;
    assert forall|k: int| #[trigger] occurs_at(s, mark, k) == stands_at(s, mark, k) by {
        lemma_stands_at(s, mark, k);
    }
    assert((forall|k: int| !stands_at(s, mark, k)) ==> forall|k: int| !occurs_at(s, mark, k));
    if split_at_first(s, mark) is None {
        assert forall|k: int| !stands_at(s, mark, k) by {
            lemma_stands_at(s, mark, k);
        }
    }
    if forall|k: int| k < before.len() ==> !stands_at(whole, mark, k) {
        let n = before.len() as int;
        assert forall|i: int| 0 <= i < mark.len() implies whole[n + i] == #[trigger] mark[i] by {}
        lemma_stands_at(whole, mark, n);
        assert forall|k: int| k < n implies !occurs_at(whole, mark, k) by {
            lemma_stands_at(whole, mark, k);
        }
        lemma_split_at(whole, mark, n);
        assert(whole.take(n) =~= before);
        assert(whole.skip(n + mark.len()) =~= behind);
    }
}

/// A resource is found by its scheme, which is what stands before the first `://`. With `file` it
/// is the rest, with `package` and with any other it is refused as a whole.
pub proof fn law_resources_are_found_by_their_scheme(
    root_dir: Option<Seq<char>>,
    scheme: Seq<char>,
    rest: Seq<char>,
)
    requires
        forall|k: int|
            k < scheme.len() ==> !stands_at(
                scheme + seq![':', '/', '/'] + rest,
                seq![':', '/', '/'],
                k,
            ),
    ensures
        ros_resource(root_dir, scheme + seq![':', '/', '/'] + rest) == if scheme == seq![
            'f',
            'i',
            'l',
            'e',
        ] {
            Ok::<ResourceFileView, RobotErrorView>(ResourceFileView::At(rest))
        } else if scheme == seq!['p', 'a', 'c', 'k', 'a', 'g', 'e'] {
            Err(RobotErrorView::RosPackage(scheme + seq![':', '/', '/'] + rest))
        } else {
            Err(
                RobotErrorView::UnknownScheme {
                    scheme,
                    resource: scheme + seq![':', '/', '/'] + rest,
                },
            )
        },
{
    reveal_strlit("://");
    reveal_strlit("file");
    reveal_strlit("package");
    assert("://"@ =~= seq![':', '/', '/']);
    assert("file"@ =~= seq!['f', 'i', 'l', 'e']);
    assert("package"@ =~= seq!['p', 'a', 'c', 'k', 'a', 'g', 'e']);
    law_texts_are_split_at_the_first_mark(scheme, "://"@, rest, scheme);
}

/// A resource without a scheme stands in the directory of the robot's file, under its own name.
/// Where that directory is not known the resource is not found.
pub proof fn law_resources_without_a_scheme_stand_beside_the_file(
    root_dir: Option<Seq<char>>,
    resource: Seq<char>,
)
    requires
        forall|k: int| !stands_at(resource, seq![':', '/', '/'], k),
    ensures
        match root_dir {
            Some(dir) => ros_resource(root_dir, resource) == Ok::<ResourceFileView, RobotErrorView>(
                ResourceFileView::InDir { dir, path: resource },
            ),
            None => ros_resource(root_dir, resource) == Err::<ResourceFileView, RobotErrorView>(
                RobotErrorView::NoRootDirectory(resource),
            ),
        },
{
    reveal_strlit("://");
    assert("://"@ =~= seq![':', '/', '/']);
    law_texts_are_split_at_the_first_mark(resource, "://"@, resource, resource);
}

/// Whether `full` is `dir` and behind it `path`, with at most one separator in between.
pub open spec fn is_behind(dir: Seq<char>, path: Seq<char>, full: Seq<char>) -> bool {
    let gap = full.len() - dir.len() - path.len();
    &&& 0 <= gap <= 1
    &&& forall|i: int| 0 <= i < dir.len() ==> full[i] == #[trigger] dir[i]
    &&& forall|i: int| 0 <= i < path.len() ==> full[dir.len() + gap + i] == #[trigger] path[i]
    &&& gap == 1 ==> full[dir.len() as int] == '/' || full[dir.len() as int] == '\\'
}

/// A relative path stands behind its directory, with a separator in between unless the directory is
/// empty or ends in one. A path from the root stands for itself.
pub proof fn law_relative_paths_stand_behind_their_directory(
    dir: Seq<char>,
    path: Seq<char>,
    full: Seq<char>,
)
    ensures
        joins(dir, path, full) ==> if path.len() > 0 && path[0] == '/' {
            full == path
        } else {
            &&& is_behind(dir, path, full)
            &&& full.len() == dir.len() + path.len() <==> dir.len() == 0 || dir[dir.len() - 1]
                == '/'
        },
        may_join(dir, path, full) && (path.len() > 0 ==> path[0] != '/' && path[0] != '\\') && (
        path.len() > 1 ==> path[1] != ':') ==> is_behind(dir, path, full),
        may_join(dir, path, full) && has_plain_slashes(path) && path.len() > 0 && path[0] == '/'
            && (dir.len() >= 2 ==> dir[1] != ':') ==> full == path,
{
    law_plain_slashes_are_portable(path);
    if joins(dir, path, full) && !(path.len() > 0 && path[0] == '/') {
        if dir.len() > 0 {
            assert(dir.last() == dir[dir.len() - 1]);
        }
    }
}

/// The guard under which a path is put behind a directory: not two separators of any kind at the
/// start of the directory.
pub proof fn law_two_separators_are_told(dir: Seq<char>)
    ensures
        two_separators(dir) <==> dir.len() >= 2 && (dir[0] == '/' || dir[0] == '\\') && (dir[1]
            == '/' || dir[1] == '\\'),
{
}

/// The number that decimal digits make up.
pub open spec fn worth(s: Seq<char>) -> int
    decreases s.len(),
{
    if s.len() == 0 {
        0
    } else {
        worth(s.drop_last()) * 10 + (s[s.len() - 1] as int - '0' as int)
    }
}

/// A number is written in decimal digits that make it up, without a leading zero.
pub proof fn law_numbers_are_written_in_decimal(n: nat)
    ensures
        worth(decimal(n)) == n,
        decimal(n).len() > 0,
        n > 0 ==> decimal(n)[0] != '0',
        n == 0 ==> decimal(n).len() == 1,
        forall|i: int| 0 <= i < decimal(n).len() ==> '0' <= #[trigger] decimal(n)[i] <= '9',
    decreases n,
{
    if n < 10 {
        assert(decimal(n).drop_last() =~= seq![]);
        assert(worth(decimal(n).drop_last()) == 0);
        assert(digit(n) as int == 48 + n);
    } else {
        law_numbers_are_written_in_decimal(n / 10);
        assert(decimal(n).drop_last() =~= decimal(n / 10));
        assert(digit(n % 10) as int == 48 + n % 10);
        assert forall|i: int| 0 <= i < decimal(n).len() implies '0' <= #[trigger] decimal(n)[i]
            <= '9' by {
            if i < decimal(n / 10).len() {
                assert(decimal(n)[i] == decimal(n / 10)[i]);
            }
        }
        assert(decimal(n)[0] == decimal(n / 10)[0]);
    }
}

} // verus!
