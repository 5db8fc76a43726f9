//! Which texts can be handed to the XML reader behind `urdf_rs`.
//!
//! The reader takes a text apart into elements and, of those it keeps, writes a text again. Writing
//! panics where an element or an attribute is in a namespace for which no prefix is declared, and
//! reading panics where the closing brackets in a row inside a CDATA section are too many for a
//! counter. The texts that are left are called readable here. To tell them, a text is scanned for
//! its tags, with the names and the values of their attributes.

use vstd::prelude::*;

use crate::robot::views;
use crate::text::characters;

verus! {

/// The namespace of the prefix `xml`.
pub open spec fn xml_uri() -> Seq<char> {
    "http://www.w3.org/XML/1998/namespace"@
}

/// The namespace of the prefix `xmlns`, under which prefixes are declared.
pub open spec fn xmlns_uri() -> Seq<char> {
    "http://www.w3.org/2000/xmlns/"@
}

/// Whether a character is a space to the reader.
pub open spec fn is_space(c: char) -> bool {
    c == ' ' || c == '\t' || c == '\r' || c == '\n'
}

/// The first position from `i` on that holds `c`; the length where there is none.
pub open spec fn position_from(s: Seq<char>, c: char, i: int) -> int
    decreases s.len() - i,
{
    if 0 <= i < s.len() && s[i] != c {
        position_from(s, c, i + 1)
    } else {
        i
    }
}

/// The first position of `c`; the length where there is none.
pub open spec fn position(s: Seq<char>, c: char) -> int {
    position_from(s, c, 0)
}

/// The value of a digit, where it is one of a hexadecimal or else of a decimal number.
pub open spec fn digit_value(c: char, hex: bool) -> Option<nat> {
    if '0' <= c <= '9' {
        Some((c as nat - '0' as nat) as nat)
    } else if hex && 'a' <= c <= 'f' {
        Some((c as nat - 'a' as nat + 10) as nat)
    } else if hex && 'A' <= c <= 'F' {
        Some((c as nat - 'A' as nat + 10) as nat)
    } else {
        None
    }
}

/// The number that digits make up; nothing where one of them is no digit.
pub open spec fn numeral(s: Seq<char>, hex: bool) -> Option<nat>
    decreases s.len(),
{
    if s.len() == 0 {
        Some(0)
    } else {
        match (numeral(s.drop_last(), hex), digit_value(s.last(), hex)) {
            (Some(n), Some(d)) => Some(
                if hex {
                    16 * n + d
                } else {
                    10 * n + d
                },
            ),
            _ => None,
        }
    }
}

/// The character whose number is written in digits, which a plus sign may precede.
pub open spec fn numbered_char(s: Seq<char>, hex: bool) -> Option<char> {
    let digits = if s.len() > 0 && s[0] == '+' {
        s.skip(1)
    } else {
        s
    };
    match numeral(digits, hex) {
        Some(n) => if digits.len() > 0 && (n < 0xd800 || 0xe000 <= n <= 0x10ffff) {
            Some(n as char)
        } else {
            None
        },
        None => None,
    }
}

/// The character that an entity stands for.
pub open spec fn entity_char(s: Seq<char>) -> Option<char> {
    if s == "quot"@ {
        Some('"')
    } else if s == "apos"@ {
        Some('\'')
    } else if s == "gt"@ {
        Some('>')
    } else if s == "lt"@ {
        Some('<')
    } else if s == "amp"@ {
        Some('&')
    } else if s.len() >= 2 && s[0] == '#' && s[1] == 'x' {
        numbered_char(s.skip(2), true)
    } else if s.len() >= 1 && s[0] == '#' {
        numbered_char(s.skip(1), false)
    } else {
        None
    }
}

/// A text with its entities replaced by what they stand for; nothing where one stands for nothing.
pub open spec fn unescaped(s: Seq<char>) -> Option<Seq<char>>
    decreases s.len(),
{
    let start = position(s, '&');
    if !(0 <= start < s.len()) {
        Some(s)
    } else {
        let rest = s.skip(start + 1);
        let end = position(rest, ';');
        if !(0 <= end < rest.len()) || position(rest, '&') < end {
            None
        } else {
            match (entity_char(rest.take(end)), unescaped(rest.skip(end + 1))) {
                (Some(c), Some(behind)) => Some(s.take(start).push(c) + behind),
                _ => None,
            }
        }
    }
}

/// An attribute of a tag, or a prefix with the namespace that is declared for it.
pub struct PairView {
    pub name: Seq<char>,
    pub value: Seq<char>,
}

/// What stands before the first colon of a name.
pub open spec fn prefix_of(name: Seq<char>) -> Option<Seq<char>> {
    if position(name, ':') < name.len() {
        Some(name.take(position(name, ':')))
    } else {
        None
    }
}

/// What stands behind the first colon of a name; the name where it has none.
pub open spec fn local_of(name: Seq<char>) -> Seq<char> {
    if position(name, ':') < name.len() {
        name.skip(position(name, ':') + 1)
    } else {
        name
    }
}

/// The namespace of a prefix: the one declared last for it, if that is not empty.
pub open spec fn namespace_of(bindings: Seq<PairView>, prefix: Seq<char>) -> Option<Seq<char>>
    decreases bindings.len(),
{
    if bindings.len() == 0 {
        None
    } else if bindings.last().name == prefix {
        if bindings.last().value.len() > 0 {
            Some(bindings.last().value)
        } else {
            None
        }
    } else {
        namespace_of(bindings.drop_last(), prefix)
    }
}

/// The prefixes in force in an element that has the given attributes, where `bindings` are in
/// force around it. `xmlns` declares the namespace of the empty prefix, `xmlns:p` that of `p`.
pub open spec fn bound(bindings: Seq<PairView>, attributes: Seq<PairView>) -> Seq<PairView>
    decreases attributes.len(),
{
    if attributes.len() == 0 {
        bindings
    } else {
        let before = bound(bindings, attributes.drop_last());
        let name = attributes.last().name;
        let value = attributes.last().value;
        if name == "xmlns"@ {
            before.push(PairView { name: seq![], value })
        } else if prefix_of(name) == Some("xmlns"@) {
            before.push(PairView { name: local_of(name), value })
        } else {
            before
        }
    }
}

/// The default namespace of an element that has the given attributes, where `default_namespace`
/// is that around it. It is empty where there is none.
pub open spec fn default_in(default_namespace: Seq<char>, attributes: Seq<PairView>) -> Seq<char>
    decreases attributes.len(),
{
    if attributes.len() == 0 {
        default_namespace
    } else if attributes.last().name == "xmlns"@ {
        attributes.last().value
    } else {
        default_in(default_namespace, attributes.drop_last())
    }
}

/// Whether an attribute declares a prefix that the reader can write with.
pub open spec fn declares(bindings: Seq<PairView>, name: Seq<char>) -> bool {
    prefix_of(name) matches Some(prefix) && namespace_of(bindings, prefix) == Some(xmlns_uri())
}

/// The namespaces for which attributes declare a prefix that the reader can write with.
pub open spec fn declared(bindings: Seq<PairView>, attributes: Seq<PairView>) -> Seq<Seq<char>>
    decreases attributes.len(),
{
    if attributes.len() == 0 {
        seq![]
    } else {
        let before = declared(bindings, attributes.drop_last());
        if declares(bindings, attributes.last().name) {
            before.push(attributes.last().value)
        } else {
            before
        }
    }
}

/// Whether an attribute cannot be written: it is in a namespace that no prefix is known for, or it
/// declares a prefix that is empty.
pub open spec fn odd_name(
    bindings: Seq<PairView>,
    known: Seq<Seq<char>>,
    name: Seq<char>,
) -> bool {
    ||| name == "xmlns:"@
    ||| prefix_of(name) is Some && namespace_of(bindings, prefix_of(name)->0) is Some
        && !known.contains(namespace_of(bindings, prefix_of(name)->0)->0)
}

/// Whether a tag cannot be written: it is in a namespace that is not the default one and that no
/// prefix is known for.
pub open spec fn odd_tag(
    bindings: Seq<PairView>,
    known: Seq<Seq<char>>,
    default_namespace: Seq<char>,
    tag: Seq<char>,
) -> bool {
    &&& prefix_of(tag) is Some
    &&& prefix_of(tag)->0.len() > 0
    &&& namespace_of(bindings, prefix_of(tag)->0) is Some
    &&& namespace_of(bindings, prefix_of(tag)->0)->0 != default_namespace
    &&& !known.contains(namespace_of(bindings, prefix_of(tag)->0)->0)
}

/// What becomes of an element: `urdf_rs` keeps the root, of its children those with certain names,
/// of the children of a link those with certain names, and all that stands in a kept element
/// otherwise.
#[derive(Clone, Copy)]
pub enum Role {
    Root,
    Link,
    Part,
    Dropped,
}

/// The role of a child with the given local name.
pub open spec fn child_role(parent: Role, local: Seq<char>) -> Role {
    match parent {
        Role::Root => if local == "link"@ {
            Role::Link
        } else if local == "joint"@ || local == "material"@ {
            Role::Part
        } else {
            Role::Dropped
        },
        Role::Link => if local == "visual"@ || local == "inertial"@ || local == "collision"@ {
            Role::Part
        } else {
            Role::Dropped
        },
        Role::Part => Role::Part,
        Role::Dropped => Role::Dropped,
    }
}

/// What is in force in an element.
pub struct ElementView {
    pub role: Role,
    pub bindings: Seq<PairView>,
    pub known: Seq<Seq<char>>,
    pub default_namespace: Seq<char>,
}

/// What is in force around the root.
pub open spec fn around_root() -> ElementView {
    ElementView {
        role: Role::Root,
        bindings: seq![
            PairView { name: "xml"@, value: xml_uri() },
            PairView { name: "xmlns"@, value: xmlns_uri() },
        ],
        known: seq![xml_uri(), xmlns_uri()],
        default_namespace: seq![],
    }
}

impl ElementView {
    /// What is in force in an element `tag` with the given attributes, inside this one.
    pub open spec fn inner(
        self,
        role: Role,
        attributes: Seq<PairView>,
    ) -> ElementView {
        let bindings = bound(self.bindings, attributes);
        ElementView {
            role,
            bindings,
            known: self.known + declared(bindings, attributes),
            default_namespace: default_in(self.default_namespace, attributes),
        }
    }

    /// Whether the element cannot be written.
    pub open spec fn odd(self, tag: Seq<char>, attributes: Seq<PairView>) -> bool {
        ||| odd_tag(self.bindings, self.known, self.default_namespace, tag)
        ||| exists|i: int|
            0 <= i < attributes.len() && odd_name(
                self.bindings,
                self.known,
                #[trigger] attributes[i].name,
            )
    }
}

/// The open elements, from the root on, and what was found in those before and in these. Nothing
/// behind the end of the root counts.
pub struct NestingView {
    pub open: Seq<ElementView>,
    pub ended: bool,
    /// Whether a kept element cannot be written.
    pub odd: bool,
    /// Whether a kept element declares two prefixes for one namespace.
    pub ambiguous: bool,
}

impl NestingView {
    /// What a tag makes of it that opens an element.
    pub open spec fn opened(self, tag: Seq<char>, attributes: Seq<PairView>) -> NestingView {
        if self.ended {
            self
        } else {
            let around = if self.open.len() == 0 {
                around_root()
            } else {
                self.open.last()
            };
            let role = if self.open.len() == 0 {
                Role::Root
            } else {
                child_role(around.role, local_of(tag))
            };
            let inner = around.inner(role, attributes);
            let dropped = role is Dropped;
            NestingView {
                open: self.open.push(inner),
                odd: self.odd || !dropped && inner.odd(tag, attributes),
                ambiguous: self.ambiguous || !dropped && !declared(
                    inner.bindings,
                    attributes,
                ).no_duplicates(),
                ..self
            }
        }
    }

    /// What a tag makes of it that closes an element.
    pub open spec fn closed(self) -> NestingView {
        if self.ended || self.open.len() == 0 {
            self
        } else {
            NestingView { open: self.open.drop_last(), ended: self.open.len() == 1, ..self }
        }
    }
}

/// Where in a text the scan stands.
#[derive(Clone, Copy)]
pub enum Mode {
    Outside,
    TagOpened,
    Instruction,
    TagName,
    CloseName,
    InTag,
    AttributeName,
    Delimiter,
    AttributeValue,
    EmptyTagEnd,
    CloseTagEnd,
    Exclamation,
    CdataOpening,
    Cdata,
    CommentOpening,
    Comment,
    CommentEnd,
    Doctype,
    /// The reader goes no further.
    Stopped,
}

/// The character at position `i` of what opens a CDATA section, behind `<![`.
pub open spec fn cdata_opening(i: u8) -> char {
    match i {
        0 => 'C',
        1 => 'D',
        2 => 'A',
        3 => 'T',
        4 => 'A',
        _ => '[',
    }
}

/// The character at position `i` of what opens a document type, behind `<!D`.
pub open spec fn doctype_opening(i: u8) -> char {
    match i {
        0 => 'O',
        1 => 'C',
        2 => 'T',
        3 => 'Y',
        4 => 'P',
        _ => 'E',
    }
}

/// What a scan has found.
pub struct ScanView {
    pub mode: Mode,
    /// What is counted: matched characters of an opening, or marks in a row.
    pub level: u8,
    /// The mark that ends the value of the attribute.
    pub quote: char,
    /// The name or the value that is being read.
    pub buf: Seq<char>,
    pub tag: Seq<char>,
    pub name: Seq<char>,
    pub attributes: Seq<PairView>,
    pub nesting: NestingView,
    /// Whether closing brackets in a row were too many to be counted.
    pub overflown: bool,
}

impl ScanView {
    /// A scan that has not begun.
    pub open spec fn start() -> ScanView {
        ScanView {
            mode: Mode::Outside,
            level: 0,
            quote: '"',
            buf: seq![],
            tag: seq![],
            name: seq![],
            attributes: seq![],
            nesting: NestingView { open: seq![], ended: false, odd: false, ambiguous: false },
            overflown: false,
        }
    }

    /// The scan in another mode, with nothing counted.
    pub open spec fn to(self, mode: Mode) -> ScanView {
        ScanView { mode, level: 0, ..self }
    }

    /// What the next character makes of the scan.
    pub open spec fn next(self, c: char) -> ScanView {
        match self.mode {
            Mode::Outside => if c == '<' {
                self.to(Mode::TagOpened)
            } else {
                self
            },
            Mode::TagOpened => if c == '?' {
                self.to(Mode::Instruction)
            } else if c == '!' {
                self.to(Mode::Exclamation)
            } else if c == '/' {
                self.to(Mode::CloseName)
            } else {
                ScanView { buf: seq![c], ..self.to(Mode::TagName) }
            },
            Mode::Instruction => if c == '?' {
                ScanView { level: 1, ..self }
            } else if c == '>' && self.level == 1 {
                self.to(Mode::Outside)
            } else {
                self
            },
            Mode::TagName => if c == '/' {
                ScanView {
                    nesting: self.nesting.opened(self.buf, seq![]),
                    ..self.to(Mode::EmptyTagEnd)
                }
            } else if c == '>' {
                ScanView {
                    nesting: self.nesting.opened(self.buf, seq![]),
                    ..self.to(Mode::Outside)
                }
            } else if is_space(c) {
                ScanView { tag: self.buf, attributes: seq![], ..self.to(Mode::InTag) }
            } else {
                ScanView { buf: self.buf.push(c), ..self }
            },
            Mode::CloseName => if c == '>' {
                ScanView { nesting: self.nesting.closed(), ..self.to(Mode::Outside) }
            } else if is_space(c) {
                ScanView { nesting: self.nesting.closed(), ..self.to(Mode::CloseTagEnd) }
            } else {
                self
            },
            Mode::InTag => if c == '/' {
                ScanView {
                    nesting: self.nesting.opened(self.tag, self.attributes),
                    ..self.to(Mode::EmptyTagEnd)
                }
            } else if c == '>' {
                ScanView {
                    nesting: self.nesting.opened(self.tag, self.attributes),
                    ..self.to(Mode::Outside)
                }
            } else if is_space(c) {
                self
            } else {
                ScanView { buf: seq![c], ..self.to(Mode::AttributeName) }
            },
            Mode::AttributeName => if c == '=' {
                ScanView { name: self.buf, buf: seq![], ..self.to(Mode::Delimiter) }
            } else if is_space(c) {
                ScanView { level: 1, ..self }
            } else if self.level == 0 {
                ScanView { buf: self.buf.push(c), ..self }
            } else {
                self.to(Mode::Stopped)
            },
            Mode::Delimiter => if c == '"' || c == '\'' {
                ScanView { quote: c, ..self.to(Mode::AttributeValue) }
            } else if is_space(c) {
                self
            } else {
                self.to(Mode::Stopped)
            },
            Mode::AttributeValue => if c == self.quote {
                match unescaped(self.buf) {
                    Some(value) => ScanView {
                        attributes: self.attributes.push(PairView { name: self.name, value }),
                        ..self.to(Mode::InTag)
                    },
                    None => self.to(Mode::Stopped),
                }
            } else {
                ScanView { buf: self.buf.push(c), ..self }
            },
            Mode::EmptyTagEnd => if c == '>' {
                ScanView { nesting: self.nesting.closed(), ..self.to(Mode::Outside) }
            } else {
                self.to(Mode::Stopped)
            },
            Mode::CloseTagEnd => if c == '>' {
                self.to(Mode::Outside)
            } else if is_space(c) {
                self
            } else {
                self.to(Mode::Stopped)
            },
            Mode::Exclamation => if c == '-' {
                self.to(Mode::CommentOpening)
            } else if c == '[' {
                self.to(Mode::CdataOpening)
            } else if c == 'D' {
                self.to(Mode::Doctype)
            } else {
                self.to(Mode::Stopped)
            },
            Mode::CdataOpening => if c != cdata_opening(self.level) {
                self.to(Mode::Stopped)
            } else if self.level >= 5 {
                self.to(Mode::Cdata)
            } else {
                ScanView { level: (self.level + 1) as u8, ..self }
            },
            Mode::Cdata => if c == ']' {
                if self.level == 255 {
                    ScanView {
                        overflown: self.overflown || !self.nesting.ended,
                        ..self.to(Mode::Stopped)
                    }
                } else {
                    ScanView { level: (self.level + 1) as u8, ..self }
                }
            } else if c == '>' && self.level >= 2 {
                self.to(Mode::Outside)
            } else {
                self.to(Mode::Cdata)
            },
            Mode::CommentOpening => if c == '-' {
                self.to(Mode::Comment)
            } else {
                self.to(Mode::Stopped)
            },
            Mode::Comment => if c != '-' {
                self.to(Mode::Comment)
            } else if self.level == 0 {
                ScanView { level: 1, ..self }
            } else {
                self.to(Mode::CommentEnd)
            },
            Mode::CommentEnd => if c == '>' {
                self.to(Mode::Outside)
            } else {
                self.to(Mode::Stopped)
            },
            Mode::Doctype => if self.level < 6 {
                if c == doctype_opening(self.level) {
                    ScanView { level: (self.level + 1) as u8, ..self }
                } else {
                    self.to(Mode::Stopped)
                }
            } else if self.level == 6 {
                if is_space(c) {
                    ScanView { level: 7, ..self }
                } else {
                    self.to(Mode::Stopped)
                }
            } else if c == '>' {
                self.to(Mode::Outside)
            } else {
                self
            },
            Mode::Stopped => self,
        }
    }
}

/// What a scan finds in a text.
pub open spec fn scan(s: Seq<char>) -> ScanView
    decreases s.len(),
{
    if s.len() == 0 {
        ScanView::start()
    } else {
        scan(s.drop_last()).next(s.last())
    }
}

/// Whether the reader takes the text without a panic: no closing brackets in a CDATA section are
/// too many to be counted, and of a root that ends all that is kept can be written. The text is so
/// short that its lines can be counted from one on, and the characters of a line from zero on.
pub open spec fn readable(s: Seq<char>) -> bool {
    &&& s.len() < u32::MAX
    &&& !scan(s).overflown
    &&& scan(s).nesting.ended ==> !scan(s).nesting.odd
}

/// Whether no element that is kept declares two prefixes for one namespace.
pub open spec fn unambiguous(s: Seq<char>) -> bool {
    !scan(s).nesting.ambiguous
}

fn space(c: char) -> (yes: bool)
    ensures
        yes == is_space(c),
{
    c == ' ' || c == '\t' || c == '\r' || c == '\n'
}

fn find_from(s: &Vec<char>, c: char, i: usize) -> (k: usize)
    requires
        i <= s.len(),
    ensures
        i <= k <= s.len(),
        k == position_from(s@, c, i as int),
{
    let mut k: usize = i;
    while k < s.len() && s[k] != c
        invariant
            i <= k <= s.len(),
            position_from(s@, c, i as int) == position_from(s@, c, k as int),
        decreases s.len() - k,
    {
        k = k + 1;
    }
    k
}

fn same(a: &Vec<char>, b: &Vec<char>) -> (yes: bool)
    ensures
        yes == (a@ == b@),
{
    if a.len() != b.len() {
        return false;
    }
    let mut i: usize = 0;
    while i < a.len()
        invariant
            i <= a.len(),
            a.len() == b.len(),
            forall|k: int| 0 <= k < i ==> a@[k] == b@[k],
        decreases a.len() - i,
    {
        if a[i] != b[i] {
            return false;
        }
        i = i + 1;
    }
    assert(a@ =~= b@);
    true
}

fn is_text(a: &Vec<char>, b: &str) -> (yes: bool)
    ensures
        yes == (a@ == b@),
{
    same(a, &characters(b))
}

/// Adds a part of a text to another.
fn push_part(text: &mut Vec<char>, s: &Vec<char>, from: usize, to: usize)
    requires
        from <= to <= s.len(),
    ensures
        final(text)@ == old(text)@ + s@.subrange(from as int, to as int),
{
    let mut i: usize = from;
    assert(text@ =~= old(text)@ + s@.subrange(from as int, from as int));
    while i < to
        invariant
            from <= i <= to <= s.len(),
            text@ == old(text)@ + s@.subrange(from as int, i as int),
        decreases to - i,
    {
        text.push(s[i]);
        assert(text@ =~= old(text)@ + s@.subrange(from as int, i + 1));
        i = i + 1;
    }
}

fn part(s: &Vec<char>, from: usize, to: usize) -> (v: Vec<char>)
    requires
        from <= to <= s.len(),
    ensures
        v@ == s@.subrange(from as int, to as int),
{
    let mut v: Vec<char> = Vec::new();
    push_part(&mut v, s, from, to);
    assert(v@ =~= s@.subrange(from as int, to as int));
    v
}

fn value_of_digit(c: char, hex: bool) -> (value: Option<u32>)
    ensures
        match value {
            Some(v) => digit_value(c, hex) == Some(v as nat) && v < 16,
            None => digit_value(c, hex) is None,
        },
{
    if '0' <= c && c <= '9' {
        Some(c as u32 - '0' as u32)
    } else if hex && 'a' <= c && c <= 'f' {
        Some(c as u32 - 'a' as u32 + 10)
    } else if hex && 'A' <= c && c <= 'F' {
        Some(c as u32 - 'A' as u32 + 10)
    } else {
        None
    }
}

/// Calls `char::from_u32`. Trusted: gives the character with this number, if there is one: the
/// numbers go up to `0x10ffff`, and those of surrogates are left out.
#[verifier::external_body]
fn from_u32(n: u32) -> (c: Option<char>)
    ensures
        c == (if n < 0xd800 || 0xe000 <= n <= 0x10ffff {
            Some(n as char)
        } else {
            None
        }),
{
    char::from_u32(n)
}

fn to_numbered_char(s: &Vec<char>, from: usize, to: usize, hex: bool) -> (c: Option<char>)
    requires
        from <= to <= s.len(),
    ensures
        c == numbered_char(s@.subrange(from as int, to as int), hex),
{
    let ghost all = s@.subrange(from as int, to as int);
    let start: usize = if from < to && s[from] == '+' {
        from + 1
    } else {
        from
    };
    let ghost digits = s@.subrange(start as int, to as int);
    assert(digits =~= if all.len() > 0 && all[0] == '+' {
        all.skip(1)
    } else {
        all
    });
    let mut n: u32 = 0;
    let mut i: usize = start;
    while i < to
        invariant
            start <= i <= to <= s.len(),
            digits == s@.subrange(start as int, to as int),
            all == s@.subrange(from as int, to as int),
            digits == (if all.len() > 0 && all[0] == '+' {
                all.skip(1)
            } else {
                all
            }),
            numeral(digits.take(i - start), hex) is Some,
            n <= 0x11_0000,
            n < 0x11_0000 ==> numeral(digits.take(i - start), hex) == Some(n as nat),
            n == 0x11_0000 ==> numeral(digits.take(i - start), hex)->0 >= 0x11_0000,
        decreases to - i,
    {
        let ghost k = i - start;
        assert(digits.take(k + 1).drop_last() =~= digits.take(k));
        assert(digits.take(k + 1).last() == s@[i as int]);
        match value_of_digit(s[i], hex) {
            None => {
                proof {
                    lemma_no_numeral(digits, k, hex);
                }
                return None;
            },
            Some(d) => {
                n = if hex {
                    16 * n + d
                } else {
                    10 * n + d
                };
                if n > 0x11_0000 {
                    n = 0x11_0000;
                }
            },
        }
        i = i + 1;
    }
    assert(digits.take(to - start) =~= digits);
    if start == to {
        return None;
    }
    from_u32(n)
}

proof fn lemma_no_numeral(s: Seq<char>, k: int, hex: bool)
    requires
        0 <= k < s.len(),
        digit_value(s[k], hex) is None,
    ensures
        numeral(s, hex) is None,
    decreases s.len(),
{
    if k < s.len() - 1 {
        lemma_no_numeral(s.drop_last(), k, hex);
    }
}

fn to_entity_char(s: &Vec<char>) -> (c: Option<char>)
    ensures
        c == entity_char(s@),
{
    if is_text(s, "quot") {
        Some('"')
    } else if is_text(s, "apos") {
        Some('\'')
    } else if is_text(s, "gt") {
        Some('>')
    } else if is_text(s, "lt") {
        Some('<')
    } else if is_text(s, "amp") {
        Some('&')
    } else if s.len() >= 2 && s[0] == '#' && s[1] == 'x' {
        assert(s@.subrange(2, s@.len() as int) =~= s@.skip(2));
        to_numbered_char(s, 2, s.len(), true)
    } else if s.len() >= 1 && s[0] == '#' {
        assert(s@.subrange(1, s@.len() as int) =~= s@.skip(1));
        to_numbered_char(s, 1, s.len(), false)
    } else {
        None
    }
}

proof fn lemma_position_skip(s: Seq<char>, c: char, k: int, i: int)
    requires
        0 <= k <= i <= s.len(),
    ensures
        position_from(s.skip(k), c, i - k) == position_from(s, c, i) - k,
    decreases s.len() - i,
{
    if i < s.len() && s[i] != c {
        lemma_position_skip(s, c, k, i + 1);
    }
}

/// Replaces the entities of a text.
fn unescape(s: &Vec<char>) -> (text: Option<Vec<char>>)
    ensures
        match text {
            Some(text) => unescaped(s@) == Some(text@),
            None => unescaped(s@) is None,
        },
{
    let mut text: Vec<char> = Vec::new();
    let mut i: usize = 0;
    assert(s@.skip(0) =~= s@);
    assert(unescaped(s@) matches Some(all) ==> Seq::<char>::empty() + all =~= all);
    loop
        invariant
            i <= s.len(),
            unescaped(s@) is Some <==> unescaped(s@.skip(i as int)) is Some,
            unescaped(s@) is Some ==> unescaped(s@)->0 == text@ + unescaped(s@.skip(i as int))->0,
        decreases s.len() - i,
    {
        let ghost left = s@.skip(i as int);
        let ghost done = text@;
        let start: usize = find_from(s, '&', i);
        proof {
            lemma_position_skip(s@, '&', i as int, i as int);
        }
        push_part(&mut text, s, i, start);
        assert(s@.subrange(i as int, start as int) =~= left.take(start - i));
        if start == s.len() {
            assert(left.take(start - i) =~= left);
            return Some(text);
        }
        let ghost rest = s@.skip(start + 1);
        assert(left.skip(start - i + 1) =~= rest);
        let end: usize = find_from(s, ';', start + 1);
        proof {
            lemma_position_skip(s@, ';', start + 1, start + 1);
            lemma_position_skip(s@, '&', start + 1, start + 1);
        }
        if end == s.len() || find_from(s, '&', start + 1) < end {
            return None;
        }
        let entity: Vec<char> = part(s, start + 1, end);
        assert(entity@ =~= rest.take(end - start - 1));
        assert(rest.skip(end - start) =~= s@.skip(end + 1));
        match to_entity_char(&entity) {
            None => {
                return None;
            },
            Some(c) => {
                text.push(c);
                proof {
                    if let Some(behind) = unescaped(s@.skip(end + 1)) {
                        assert(done + (left.take(start - i).push(c) + behind) =~= text@ + behind);
                    }
                }
            },
        }
        i = end + 1;
    }
}

/// An attribute of a tag, or a prefix with the namespace that is declared for it.
struct Pair {
    name: Vec<char>,
    value: Vec<char>,
}

impl View for Pair {
    type V = PairView;

    closed spec fn view(&self) -> PairView {
        PairView { name: self.name@, value: self.value@ }
    }
}

fn copy_pairs(pairs: &Vec<Pair>) -> (copy: Vec<Pair>)
    ensures
        views(copy@) == views(pairs@),
{
    let mut copy: Vec<Pair> = Vec::new();
    let mut i: usize = 0;
    while i < pairs.len()
        invariant
            i <= pairs.len(),
            views(copy@) == views(pairs@).take(i as int),
        decreases pairs.len() - i,
    {
        let ghost before = copy@;
        copy.push(Pair { name: pairs[i].name.clone(), value: pairs[i].value.clone() });
        assert(views(copy@) =~= views(before).push(pairs@[i as int]@));
        assert(views(pairs@).take(i + 1) =~= views(pairs@).take(i as int).push(pairs@[i as int]@));
        i = i + 1;
    }
    assert(views(pairs@).take(i as int) =~= views(pairs@));
    copy
}

fn copy_texts(texts: &Vec<Vec<char>>) -> (copy: Vec<Vec<char>>)
    ensures
        views(copy@) == views(texts@),
{
    let mut copy: Vec<Vec<char>> = Vec::new();
    let mut i: usize = 0;
    while i < texts.len()
        invariant
            i <= texts.len(),
            views(copy@) == views(texts@).take(i as int),
        decreases texts.len() - i,
    {
        let ghost before = copy@;
        copy.push(texts[i].clone());
        assert(views(copy@) =~= views(before).push(texts@[i as int]@));
        assert(views(texts@).take(i + 1) =~= views(texts@).take(i as int).push(texts@[i as int]@));
        i = i + 1;
    }
    assert(views(texts@).take(i as int) =~= views(texts@));
    copy
}

fn prefix(name: &Vec<char>) -> (prefix: Option<Vec<char>>)
    ensures
        match prefix {
            Some(prefix) => prefix_of(name@) == Some(prefix@),
            None => prefix_of(name@) is None,
        },
{
    let colon: usize = find_from(name, ':', 0);
    if colon < name.len() {
        let prefix: Vec<char> = part(name, 0, colon);
        assert(prefix@ =~= name@.take(colon as int));
        Some(prefix)
    } else {
        None
    }
}

fn local(name: &Vec<char>) -> (local: Vec<char>)
    ensures
        local@ == local_of(name@),
{
    let colon: usize = find_from(name, ':', 0);
    if colon < name.len() {
        let local: Vec<char> = part(name, colon + 1, name.len());
        assert(local@ =~= name@.skip(colon + 1));
        local
    } else {
        name.clone()
    }
}

fn namespace<'a>(bindings: &'a Vec<Pair>, prefix: &Vec<char>) -> (uri: Option<&'a Vec<char>>)
    ensures
        match uri {
            Some(uri) => namespace_of(views(bindings@), prefix@) == Some(uri@),
            None => namespace_of(views(bindings@), prefix@) is None,
        },
{
    let ghost all = views(bindings@);
    let mut i: usize = bindings.len();
    assert(all.take(i as int) =~= all);
    while i > 0
        invariant
            i <= bindings.len(),
            all == views(bindings@),
            namespace_of(all, prefix@) == namespace_of(all.take(i as int), prefix@),
        decreases i,
    {
        i = i - 1;
        let binding: &Pair = &bindings[i];
        assert(all.take(i + 1).last() == binding@);
        assert(all.take(i + 1).drop_last() =~= all.take(i as int));
        if same(&binding.name, prefix) {
            return if binding.value.len() > 0 {
                Some(&binding.value)
            } else {
                None
            };
        }
    }
    None
}

fn holds(texts: &Vec<Vec<char>>, text: &Vec<char>) -> (yes: bool)
    ensures
        yes == views(texts@).contains(text@),
{
    let mut i: usize = 0;
    while i < texts.len()
        invariant
            i <= texts.len(),
            forall|k: int| 0 <= k < i ==> #[trigger] views(texts@)[k] != text@,
        decreases texts.len() - i,
    {
        if same(&texts[i], text) {
            assert(views(texts@)[i as int] == text@);
            return true;
        }
        i = i + 1;
    }
    false
}

/// What is in force in an element.
struct Element {
    role: Role,
    bindings: Vec<Pair>,
    known: Vec<Vec<char>>,
    default_namespace: Vec<char>,
}

impl View for Element {
    type V = ElementView;

    closed spec fn view(&self) -> ElementView {
        ElementView {
            role: self.role,
            bindings: views(self.bindings@),
            known: views(self.known@),
            default_namespace: self.default_namespace@,
        }
    }
}

fn to_child_role(parent: Role, local: &Vec<char>) -> (role: Role)
    ensures
        role == child_role(parent, local@),
{
    match parent {
        Role::Root => if is_text(local, "link") {
            Role::Link
        } else if is_text(local, "joint") || is_text(local, "material") {
            Role::Part
        } else {
            Role::Dropped
        },
        Role::Link => if is_text(local, "visual") || is_text(local, "inertial") || is_text(
            local,
            "collision",
        ) {
            Role::Part
        } else {
            Role::Dropped
        },
        Role::Part => Role::Part,
        Role::Dropped => Role::Dropped,
    }
}

proof fn lemma_take_next<T: View>(s: Seq<T>, i: int)
    requires
        0 <= i < s.len(),
    ensures
        views(s).take(i + 1).drop_last() == views(s).take(i),
        views(s).take(i + 1).last() == s[i]@,
{
    assert(views(s).take(i + 1).drop_last() =~= views(s).take(i));
}

proof fn lemma_views_push<T: View>(s: Seq<T>, t: T)
    ensures
        views(s.push(t)) == views(s).push(t@),
{
    assert(views(s.push(t)) =~= views(s).push(t@));
}

fn to_bound(bindings: &Vec<Pair>, attributes: &Vec<Pair>) -> (inner: Vec<Pair>)
    ensures
        views(inner@) == bound(views(bindings@), views(attributes@)),
{
    let ghost outer = views(bindings@);
    let ghost all = views(attributes@);
    let mut inner: Vec<Pair> = copy_pairs(bindings);
    let mut i: usize = 0;
    while i < attributes.len()
        invariant
            i <= attributes.len(),
            all == views(attributes@),
            views(inner@) == bound(outer, all.take(i as int)),
        decreases attributes.len() - i,
    {
        let ghost before = inner@;
        let attribute: &Pair = &attributes[i];
        proof {
            lemma_take_next(attributes@, i as int);
        }
        if is_text(&attribute.name, "xmlns") {
            let name: Vec<char> = Vec::new();
            assert(name@ =~= seq![]);
            let binding: Pair = Pair { name, value: attribute.value.clone() };
            proof {
                lemma_views_push(before, binding);
            }
            inner.push(binding);
        } else if let Some(prefix) = prefix(&attribute.name) {
            if is_text(&prefix, "xmlns") {
                let binding: Pair = Pair {
                    name: local(&attribute.name),
                    value: attribute.value.clone(),
                };
                proof {
                    lemma_views_push(before, binding);
                }
                inner.push(binding);
            }
        }
        i = i + 1;
    }
    assert(all.take(i as int) =~= all);
    inner
}

fn to_default(default_namespace: &Vec<char>, attributes: &Vec<Pair>) -> (inner: Vec<char>)
    ensures
        inner@ == default_in(default_namespace@, views(attributes@)),
{
    let ghost all = views(attributes@);
    let mut i: usize = attributes.len();
    assert(all.take(i as int) =~= all);
    while i > 0
        invariant
            i <= attributes.len(),
            all == views(attributes@),
            default_in(default_namespace@, all) == default_in(
                default_namespace@,
                all.take(i as int),
            ),
        decreases i,
    {
        i = i - 1;
        proof {
            lemma_take_next(attributes@, i as int);
        }
        if is_text(&attributes[i].name, "xmlns") {
            return attributes[i].value.clone();
        }
    }
    default_namespace.clone()
}

fn does_declare(bindings: &Vec<Pair>, name: &Vec<char>) -> (yes: bool)
    ensures
        yes == declares(views(bindings@), name@),
{
    match prefix(name) {
        Some(prefix) => match namespace(bindings, &prefix) {
            Some(uri) => is_text(uri, "http://www.w3.org/2000/xmlns/"),
            None => false,
        },
        None => false,
    }
}

fn to_known(known: &Vec<Vec<char>>, bindings: &Vec<Pair>, attributes: &Vec<Pair>) -> (inner: Vec<
    Vec<char>,
>)
    ensures
        views(inner@) == views(known@) + declared(views(bindings@), views(attributes@)),
{
    let ghost all = views(attributes@);
    let mut inner: Vec<Vec<char>> = copy_texts(known);
    let mut i: usize = 0;
    assert(views(inner@) =~= views(known@) + Seq::<Seq<char>>::empty());
    while i < attributes.len()
        invariant
            i <= attributes.len(),
            all == views(attributes@),
            views(inner@) == views(known@) + declared(views(bindings@), all.take(i as int)),
        decreases attributes.len() - i,
    {
        let ghost before = inner@;
        proof {
            lemma_take_next(attributes@, i as int);
        }
        if does_declare(bindings, &attributes[i].name) {
            let value: Vec<char> = attributes[i].value.clone();
            proof {
                lemma_views_push(before, value);
                assert(views(before).push(value@) =~= views(known@) + declared(
                    views(bindings@),
                    all.take(i as int),
                ).push(value@));
            }
            inner.push(value);
        }
        i = i + 1;
    }
    assert(all.take(i as int) =~= all);
    inner
}

impl Element {
    fn inner(&self, role: Role, attributes: &Vec<Pair>) -> (inner: Element)
        ensures
            inner@ == self@.inner(role, views(attributes@)),
    {
        let bindings: Vec<Pair> = to_bound(&self.bindings, attributes);
        let known: Vec<Vec<char>> = to_known(&self.known, &bindings, attributes);
        let default_namespace: Vec<char> = to_default(&self.default_namespace, attributes);
        Element { role, bindings, known, default_namespace }
    }

    fn is_odd_name(&self, name: &Vec<char>) -> (yes: bool)
        ensures
            yes == odd_name(self@.bindings, self@.known, name@),
    {
        is_text(name, "xmlns:") || match prefix(name) {
            Some(prefix) => match namespace(&self.bindings, &prefix) {
                Some(uri) => !holds(&self.known, uri),
                None => false,
            },
            None => false,
        }
    }

    fn is_odd_tag(&self, tag: &Vec<char>) -> (yes: bool)
        ensures
            yes == odd_tag(self@.bindings, self@.known, self@.default_namespace, tag@),
    {
        match prefix(tag) {
            Some(prefix) => prefix.len() > 0 && match namespace(&self.bindings, &prefix) {
                Some(uri) => !same(uri, &self.default_namespace) && !holds(&self.known, uri),
                None => false,
            },
            None => false,
        }
    }

    fn is_odd(&self, tag: &Vec<char>, attributes: &Vec<Pair>) -> (yes: bool)
        ensures
            yes == self@.odd(tag@, views(attributes@)),
    {
        if self.is_odd_tag(tag) {
            return true;
        }
        let ghost all = views(attributes@);
        let mut i: usize = 0;
        while i < attributes.len()
            invariant
                i <= attributes.len(),
                all == views(attributes@),
                forall|k: int|
                    0 <= k < i ==> !odd_name(
                        self@.bindings,
                        self@.known,
                        #[trigger] all[k].name,
                    ),
            decreases attributes.len() - i,
        {
            assert(all[i as int].name == attributes@[i as int].name@);
            if self.is_odd_name(&attributes[i].name) {
                return true;
            }
            i = i + 1;
        }
        false
    }
}

fn make_around_root() -> (around: Element)
    ensures
        around@ == around_root(),
{
    let xml: Pair = Pair {
        name: characters("xml"),
        value: characters("http://www.w3.org/XML/1998/namespace"),
    };
    let xmlns: Pair = Pair {
        name: characters("xmlns"),
        value: characters("http://www.w3.org/2000/xmlns/"),
    };
    let mut known: Vec<Vec<char>> = Vec::new();
    known.push(characters("http://www.w3.org/XML/1998/namespace"));
    known.push(characters("http://www.w3.org/2000/xmlns/"));
    let mut bindings: Vec<Pair> = Vec::new();
    bindings.push(xml);
    bindings.push(xmlns);
    let around: Element = Element {
        role: Role::Root,
        bindings,
        known,
        default_namespace: no_chars(),
    };
    assert(around@.bindings =~= around_root().bindings);
    assert(around@.known =~= around_root().known);
    assert(around@.default_namespace =~= around_root().default_namespace);
    around
}

/// The open elements, and what was found.
struct Nesting {
    open: Vec<Element>,
    ended: bool,
    odd: bool,
    ambiguous: Ghost<bool>,
}

impl View for Nesting {
    type V = NestingView;

    closed spec fn view(&self) -> NestingView {
        NestingView {
            open: views(self.open@),
            ended: self.ended,
            odd: self.odd,
            ambiguous: self.ambiguous@,
        }
    }
}

impl Nesting {
    fn opened(&mut self, tag: &Vec<char>, attributes: &Vec<Pair>)
        ensures
            final(self)@ == old(self)@.opened(tag@, views(attributes@)),
    {
        if self.ended {
            return;
        }
        let ghost before = self@;
        let inner: Element = if self.open.len() == 0 {
            make_around_root().inner(Role::Root, attributes)
        } else {
            let around: &Element = &self.open[self.open.len() - 1];
            assert(around@ == views(self.open@).last());
            around.inner(to_child_role(around.role, &local(tag)), attributes)
        };
        let dropped: bool = matches!(inner.role, Role::Dropped);
        if !dropped && inner.is_odd(tag, attributes) {
            self.odd = true;
        }
        proof {
            self.ambiguous@ = before.ambiguous || !dropped && !declared(
                inner@.bindings,
                views(attributes@),
            ).no_duplicates();
            lemma_views_push(self.open@, inner);
        }
        self.open.push(inner);
    }

    fn closed(&mut self)
        ensures
            final(self)@ == old(self)@.closed(),
    {
        if self.ended || self.open.len() == 0 {
            return;
        }
        let ghost before = self.open@;
        self.open.pop();
        self.ended = self.open.len() == 0;
        assert(views(self.open@) =~= views(before).drop_last());
    }
}

/// What a scan has found.
struct Scan {
    mode: Mode,
    level: u8,
    quote: char,
    buf: Vec<char>,
    tag: Vec<char>,
    name: Vec<char>,
    attributes: Vec<Pair>,
    nesting: Nesting,
    overflown: bool,
}

impl View for Scan {
    type V = ScanView;

    closed spec fn view(&self) -> ScanView {
        ScanView {
            mode: self.mode,
            level: self.level,
            quote: self.quote,
            buf: self.buf@,
            tag: self.tag@,
            name: self.name@,
            attributes: views(self.attributes@),
            nesting: self.nesting@,
            overflown: self.overflown,
        }
    }
}

fn single(c: char) -> (v: Vec<char>)
    ensures
        v@ == seq![c],
{
    let mut v: Vec<char> = Vec::new();
    v.push(c);
    assert(v@ =~= seq![c]);
    v
}

fn no_chars() -> (v: Vec<char>)
    ensures
        v@ == Seq::<char>::empty(),
{
    Vec::new()
}

fn no_pairs() -> (v: Vec<Pair>)
    ensures
        views(v@) == Seq::<PairView>::empty(),
{
    let v: Vec<Pair> = Vec::new();
    assert(views(v@) =~= Seq::<PairView>::empty());
    v
}

impl Scan {
    fn start() -> (scan: Scan)
        ensures
            scan@ == ScanView::start(),
    {
        let nesting: Nesting = Nesting {
            open: Vec::new(),
            ended: false,
            odd: false,
            ambiguous: Ghost(false),
        };
        assert(nesting@.open =~= seq![]);
        Scan {
            mode: Mode::Outside,
            level: 0,
            quote: '"',
            buf: no_chars(),
            tag: no_chars(),
            name: no_chars(),
            attributes: no_pairs(),
            nesting,
            overflown: false,
        }
    }

    fn to(&mut self, mode: Mode)
        ensures
            final(self)@ == old(self)@.to(mode),
    {
        self.mode = mode;
        self.level = 0;
    }

    /// Takes the next character inside a tag.
    fn next_in_tag(&mut self, c: char)
        requires
            old(self)@.mode is TagName || old(self)@.mode is InTag || old(
                self,
            )@.mode is AttributeName || old(self)@.mode is Delimiter || old(
                self,
            )@.mode is AttributeValue,
        ensures
            final(self)@ == old(self)@.next(c),
    {
        match self.mode {
            Mode::TagName => if c == '/' {
                self.nesting.opened(&self.buf, &no_pairs());
                self.to(Mode::EmptyTagEnd);
            } else if c == '>' {
                self.nesting.opened(&self.buf, &no_pairs());
                self.to(Mode::Outside);
            } else if space(c) {
                self.tag = self.buf.clone();
                self.attributes = no_pairs();
                self.to(Mode::InTag);
            } else {
                self.buf.push(c);
            },
            Mode::InTag => if c == '/' {
                self.nesting.opened(&self.tag, &self.attributes);
                self.to(Mode::EmptyTagEnd);
            } else if c == '>' {
                self.nesting.opened(&self.tag, &self.attributes);
                self.to(Mode::Outside);
            } else if !space(c) {
                self.buf = single(c);
                self.to(Mode::AttributeName);
            },
            Mode::AttributeName => if c == '=' {
                self.name = self.buf.clone();
                self.buf = no_chars();
                self.to(Mode::Delimiter);
            } else if space(c) {
                self.level = 1;
            } else if self.level == 0 {
                self.buf.push(c);
            } else {
                self.to(Mode::Stopped);
            },
            Mode::Delimiter => if c == '"' || c == '\'' {
                self.quote = c;
                self.to(Mode::AttributeValue);
            } else if !space(c) {
                self.to(Mode::Stopped);
            },
            _ => if c == self.quote {
                match unescape(&self.buf) {
                    Some(value) => {
                        let ghost before = self.attributes@;
                        let attribute: Pair = Pair { name: self.name.clone(), value };
                        proof {
                            lemma_views_push(before, attribute);
                        }
                        self.attributes.push(attribute);
                        self.to(Mode::InTag);
                    },
                    None => {
                        self.to(Mode::Stopped);
                    },
                }
            } else {
                self.buf.push(c);
            },
        }
    }

    /// Takes the next character.
    fn next(&mut self, c: char)
        ensures
            final(self)@ == old(self)@.next(c),
    {
        match self.mode {
            Mode::Outside => if c == '<' {
                self.to(Mode::TagOpened);
            },
            Mode::TagOpened => if c == '?' {
                self.to(Mode::Instruction);
            } else if c == '!' {
                self.to(Mode::Exclamation);
            } else if c == '/' {
                self.to(Mode::CloseName);
            } else {
                self.buf = single(c);
                self.to(Mode::TagName);
            },
            Mode::Instruction => if c == '?' {
                self.level = 1;
            } else if c == '>' && self.level == 1 {
                self.to(Mode::Outside);
            },
            Mode::CloseName => if c == '>' {
                self.nesting.closed();
                self.to(Mode::Outside);
            } else if space(c) {
                self.nesting.closed();
                self.to(Mode::CloseTagEnd);
            },
            Mode::EmptyTagEnd => if c == '>' {
                self.nesting.closed();
                self.to(Mode::Outside);
            } else {
                self.to(Mode::Stopped);
            },
            Mode::CloseTagEnd => if c == '>' {
                self.to(Mode::Outside);
            } else if !space(c) {
                self.to(Mode::Stopped);
            },
            Mode::Exclamation => if c == '-' {
                self.to(Mode::CommentOpening);
            } else if c == '[' {
                self.to(Mode::CdataOpening);
            } else if c == 'D' {
                self.to(Mode::Doctype);
            } else {
                self.to(Mode::Stopped);
            },
            Mode::CdataOpening => if c != to_cdata_opening(self.level) {
                self.to(Mode::Stopped);
            } else if self.level >= 5 {
                self.to(Mode::Cdata);
            } else {
                self.level = self.level + 1;
            },
            Mode::Cdata => if c == ']' {
                if self.level == 255 {
                    self.overflown = self.overflown || !self.nesting.ended;
                    self.to(Mode::Stopped);
                } else {
                    self.level = self.level + 1;
                }
            } else if c == '>' && self.level >= 2 {
                self.to(Mode::Outside);
            } else {
                self.to(Mode::Cdata);
            },
            Mode::CommentOpening => if c == '-' {
                self.to(Mode::Comment);
            } else {
                self.to(Mode::Stopped);
            },
            Mode::Comment => if c != '-' {
                self.to(Mode::Comment);
            } else if self.level == 0 {
                self.level = 1;
            } else {
                self.to(Mode::CommentEnd);
            },
            Mode::CommentEnd => if c == '>' {
                self.to(Mode::Outside);
            } else {
                self.to(Mode::Stopped);
            },
            Mode::Doctype => if self.level < 6 {
                if c == to_doctype_opening(self.level) {
                    self.level = self.level + 1;
                } else {
                    self.to(Mode::Stopped);
                }
            } else if self.level == 6 {
                if space(c) {
                    self.level = 7;
                } else {
                    self.to(Mode::Stopped);
                }
            } else if c == '>' {
                self.to(Mode::Outside);
            },
            Mode::Stopped => {},
            _ => {
                self.next_in_tag(c);
            },
        }
    }
}

fn to_cdata_opening(i: u8) -> (c: char)
    ensures
        c == cdata_opening(i),
{
    match i {
        0 => 'C',
        1 => 'D',
        2 => 'A',
        3 => 'T',
        4 => 'A',
        _ => '[',
    }
}

fn to_doctype_opening(i: u8) -> (c: char)
    ensures
        c == doctype_opening(i),
{
    match i {
        0 => 'O',
        1 => 'C',
        2 => 'T',
        3 => 'Y',
        4 => 'P',
        _ => 'E',
    }
}

/// Tells whether the reader takes the text without a panic.
pub fn is_readable(text: &str) -> (yes: bool)
    ensures
        yes == readable(text@),
{
    let s: Vec<char> = characters(text);
    if s.len() >= 0xffff_ffff {
        return false;
    }
    let mut found: Scan = Scan::start();
    let mut i: usize = 0;
    while i < s.len()
        invariant
            i <= s.len(),
            found@ == scan(s@.take(i as int)),
        decreases s.len() - i,
    {
        proof {
            assert(s@.take(i + 1).drop_last() =~= s@.take(i as int));
        }
        found.next(s[i]);
        i = i + 1;
    }
    assert(s@.take(i as int) =~= s@);
    !found.overflown && !(found.nesting.ended && found.nesting.odd)
}

} // verus!
