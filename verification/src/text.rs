//! Plain operations on strings, stated over their characters.

use vstd::prelude::*;

verus! {

/// The characters of an optional string.
pub open spec fn opt_chars(s: Option<String>) -> Option<Seq<char>> {
    match s {
        Some(s) => Some(s@),
        None => None,
    }
}

/// The characters of a string.
pub fn characters(s: &str) -> (v: Vec<char>)
    ensures
        v@ == s@,
{
    let mut v: Vec<char> = Vec::new();
    for c in it: s.chars()
        invariant
            v@ == it.seq().take(it.index() as int),
            it.seq() == s@,
    {
        v.push(c);
    }
    assert(v@ =~= s@);
    v
}

/// Whether two strings hold the same characters.
pub fn same_text(a: &str, b: &str) -> (same: bool)
    ensures
        same == (a@ == b@),
{
    let len: usize = a.unicode_len();
    if len != b.unicode_len() {
        return false;
    }
    let mut i: usize = 0;
    while i < len
        invariant
            i <= len,
            len == a@.len(),
            len == b@.len(),
            forall|k: int| 0 <= k < i ==> a@[k] == b@[k],
        decreases len - i,
    {
        if a.get_char(i) != b.get_char(i) {
            return false;
        }
        i = i + 1;
    }
    assert(a@ =~= b@);
    true
}

/// An ASCII upper-case letter as its lower-case letter, any other character as it is.
pub open spec fn ascii_lower_char(c: char) -> char {
    if 'A' <= c && c <= 'Z' {
        (c as u32 + 32) as char
    } else {
        c
    }
}

/// `s` with each ASCII upper-case letter made lower case.
pub open spec fn ascii_lower(s: Seq<char>) -> Seq<char> {
    s.map_values(|c: char| ascii_lower_char(c))
}

fn to_ascii_lower_char(c: char) -> (l: char)
    ensures
        l == ascii_lower_char(c),
{
    if 'A' <= c && c <= 'Z' {
        (c as u8 + 32) as char
    } else {
        c
    }
}

/// Whether two strings are the same but for the case of ASCII letters.
pub fn eq_ignore_ascii_case(a: &str, b: &str) -> (same: bool)
    ensures
        same == (ascii_lower(a@) == ascii_lower(b@)),
{
    let len: usize = a.unicode_len();
    if len != b.unicode_len() {
        assert(ascii_lower(a@).len() != ascii_lower(b@).len());
        return false;
    }
    let mut i: usize = 0;
    while i < len
        invariant
            i <= len,
            len == a@.len(),
            len == b@.len(),
            forall|k: int| 0 <= k < i ==> ascii_lower(a@)[k] == ascii_lower(b@)[k],
        decreases len - i,
    {
        if to_ascii_lower_char(a.get_char(i)) != to_ascii_lower_char(b.get_char(i)) {
            assert(ascii_lower(a@)[i as int] != ascii_lower(b@)[i as int]);
            return false;
        }
        i = i + 1;
    }
    assert(ascii_lower(a@) =~= ascii_lower(b@));
    true
}

/// Whether `pattern` stands in `s` at position `at`.
pub open spec fn occurs_at(s: Seq<char>, pattern: Seq<char>, at: int) -> bool {
    0 <= at && at + pattern.len() <= s.len() && s.subrange(at, at + pattern.len()) == pattern
}

/// The part of `s` before the first place at which `delimiter` occurs, and the part behind that
/// occurrence; nothing where it does not occur.
pub open spec fn split_at_first(s: Seq<char>, delimiter: Seq<char>) -> Option<
    (Seq<char>, Seq<char>),
> {
    if exists|at: int| occurs_at(s, delimiter, at) {
        let first = choose|at: int|
            occurs_at(s, delimiter, at) && forall|k: int| k < at ==> !occurs_at(s, delimiter, k);
        Some((s.take(first), s.skip(first + delimiter.len())))
    } else {
        None
    }
}

/// What `split_at_first` is where the first occurrence is known.
pub proof fn lemma_split_at(s: Seq<char>, delimiter: Seq<char>, at: int)
    requires
        occurs_at(s, delimiter, at),
        forall|k: int| k < at ==> !occurs_at(s, delimiter, k),
    ensures
        split_at_first(s, delimiter) == Some((s.take(at), s.skip(at + delimiter.len()))),
{
    let first = choose|a: int|
        occurs_at(s, delimiter, a) && forall|k: int| k < a ==> !occurs_at(s, delimiter, k);
    assert(occurs_at(s, delimiter, first) && forall|k: int|
        k < first ==> !occurs_at(s, delimiter, k));
    assert(first == at) by {
        if first < at {
            assert(!occurs_at(s, delimiter, first));
        }
        if at < first {
            assert(!occurs_at(s, delimiter, at));
        }
    }
}

/// Splits `s` on the first occurrence of `delimiter`.
pub fn split_once(s: &str, delimiter: &str) -> (parts: Option<(String, String)>)
    ensures
        match parts {
            Some((before, behind)) => split_at_first(s@, delimiter@) == Some((before@, behind@)),
            None => split_at_first(s@, delimiter@) is None,
        },
{
    let len: usize = s.unicode_len();
    let width: usize = delimiter.unicode_len();
    if width > len {
        return None;
    }
    let last: usize = len - width;
    let mut at: usize = 0;
    loop
        invariant
            len == s@.len(),
            width == delimiter@.len(),
            last + width == len,
            at <= last,
            forall|k: int| k < at ==> !occurs_at(s@, delimiter@, k),
        decreases last - at,
    {
        let piece: &str = s.substring_char(at, at + width);
        if same_text(piece, delimiter) {
            proof {
                lemma_split_at(s@, delimiter@, at as int);
                assert(s@.subrange(0, at as int) =~= s@.take(at as int));
                assert(s@.subrange(at + width, len as int) =~= s@.skip(at + width));
            }
            return Some(
                (
                    s.substring_char(0, at).to_owned(),
                    s.substring_char(at + width, len).to_owned(),
                ),
            );
        }
        assert(!occurs_at(s@, delimiter@, at as int));
        if at == last {
            return None;
        }
        at = at + 1;
    }
}

/// The decimal digit of a number below ten.
pub open spec fn digit(n: nat) -> char {
    (48 + n) as char
}

/// A number in decimal notation.
pub open spec fn decimal(n: nat) -> Seq<char>
    decreases n,
{
    if n < 10 {
        seq![digit(n)]
    } else {
        decimal(n / 10).push(digit(n % 10))
    }
}

fn digit_text(n: usize) -> (s: &'static str)
    requires
        n < 10,
    ensures
        s@ == seq![digit(n as nat)],
{
    proof {
        reveal_strlit("0");
        reveal_strlit("1");
        reveal_strlit("2");
        reveal_strlit("3");
        reveal_strlit("4");
        reveal_strlit("5");
        reveal_strlit("6");
        reveal_strlit("7");
        reveal_strlit("8");
        reveal_strlit("9");
    }
    match n {
        0 => "0",
        1 => "1",
        2 => "2",
        3 => "3",
        4 => "4",
        5 => "5",
        6 => "6",
        7 => "7",
        8 => "8",
        _ => "9",
    }
}

/// Writes a number in decimal notation.
pub fn to_decimal(n: usize) -> (s: String)
    ensures
        s@ == decimal(n as nat),
    decreases n,
{
    if n < 10 {
        digit_text(n).to_owned()
    } else {
        let mut s: String = to_decimal(n / 10);
        s.append(digit_text(n % 10));
        s
    }
}

/// Two strings, one behind the other.
pub fn joined(a: &str, b: &str) -> (s: String)
    ensures
        s@ == a@ + b@,
{
    let mut s: String = a.to_owned();
    s.append(b);
    s
}

} // verus!
