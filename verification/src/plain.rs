//! Texts that are sure to be readable, told by what stands in them.

use vstd::prelude::*;

use crate::names::{lacks, law_numbers_are_written_in_decimal, stands_at};
use crate::text::{decimal, digit};
use crate::xml::{
    around_root, bound, declared, declares, entity_char, is_space, local_of, namespace_of, numeral,
    odd_name, odd_tag, position, position_from, prefix_of, readable, scan, unambiguous, unescaped,
    xml_uri, xmlns_uri, ElementView, Mode, NestingView, PairView, Role, ScanView,
};

verus! {

/// The word by which namespaces are declared.
pub open spec fn xmlns() -> Seq<char> {
    seq!['x', 'm', 'l', 'n', 's']
}

/// The word by which namespaces of prefixes are declared, up to the prefix.
pub open spec fn xmlns_colon() -> Seq<char> {
    seq!['x', 'm', 'l', 'n', 's', ':']
}

/// What comes first of a section in which closing brackets are counted.
pub open spec fn cdata_mark() -> Seq<char> {
    seq!['<', '!', '[']
}

/// Whether a character may stand right before the name of an attribute: a space, or the mark that
/// ends the value of the attribute before.
pub open spec fn is_before_name(c: char) -> bool {
    c == ' ' || c == '\t' || c == '\r' || c == '\n' || c == '"' || c == '\''
}

/// Whether a character may stand right behind the name of an attribute.
pub open spec fn is_behind_name(c: char) -> bool {
    c == ' ' || c == '\t' || c == '\r' || c == '\n' || c == '='
}

/// Whether 256 closing brackets stand in a row from position `k` on.
pub open spec fn has_brackets_at(s: Seq<char>, k: int) -> bool {
    0 <= k && k + 256 <= s.len() && forall|i: int| k <= i < k + 256 ==> #[trigger] s[i] == ']'
}

/// Whether the closing brackets of a text can be counted: 256 of them stand nowhere in a row, or
/// there is nothing in which they are counted.
pub open spec fn has_countable_brackets(s: Seq<char>) -> bool {
    ||| forall|k: int| !#[trigger] has_brackets_at(s, k)
    ||| forall|k: int| !#[trigger] stands_at(s, cdata_mark(), k)
}

/// Whether no name in a text starts with a colon.
pub open spec fn has_no_leading_colon(s: Seq<char>) -> bool {
    forall|k: int| 1 <= k < s.len() && #[trigger] s[k] == ':' ==> !is_before_name(s[k - 1])
}

/// Whether a text declares no namespace for names without a prefix.
pub open spec fn has_no_default(s: Seq<char>) -> bool {
    forall|k: int| #[trigger]
        stands_at(s, xmlns(), k) && k + 5 < s.len() ==> !is_behind_name(s[k + 5])
}

/// Whether a text declares only prefixes that can be written with: none that is empty, and not the
/// prefix `xmlns` itself.
pub open spec fn has_sound_prefixes(s: Seq<char>) -> bool {
    &&& forall|k: int| !#[trigger] stands_at(s, xmlns_colon() + xmlns(), k)
    &&& forall|k: int| #[trigger]
        stands_at(s, xmlns_colon(), k) && k + 6 < s.len() ==> !is_behind_name(s[k + 6])
}

/// Whether `t` stands in a text at position `a` as the name of an attribute may.
spec fn name_at(s: Seq<char>, t: Seq<char>, a: int) -> bool {
    &&& 1 <= a
    &&& a + t.len() < s.len()
    &&& t.len() > 0
    &&& s.subrange(a, a + t.len()) == t
    &&& is_before_name(s[a - 1])
    &&& is_behind_name(s[a + t.len()])
}

/// Whether the names of attributes stand in a text, one behind the other and before `end`.
spec fn placed(s: Seq<char>, attributes: Seq<PairView>, end: int) -> bool
    decreases attributes.len(),
{
    attributes.len() == 0 || exists|a: int| #[trigger]
        name_at(s, attributes.last().name, a) && a + attributes.last().name.len() <= end && placed(
            s,
            attributes.drop_last(),
            a,
        )
}

/// Whether a value is what a part of the text comes to.
spec fn is_value(s: Seq<char>, value: Seq<char>) -> bool {
    exists|a: int, b: int|
        0 <= a <= b <= s.len() && unescaped(#[trigger] s.subrange(a, b)) == Some(value)
}

spec fn are_values(s: Seq<char>, attributes: Seq<PairView>) -> bool {
    forall|i: int| 0 <= i < attributes.len() ==> is_value(s, (#[trigger] attributes[i]).value)
}

/// Whether `t` has begun at position `a` as the name of an attribute, and goes on up to `n`.
spec fn begun_at(s: Seq<char>, t: Seq<char>, a: int, n: int) -> bool {
    1 <= a < n <= s.len() && t == s.subrange(a, n) && is_before_name(s[a - 1])
}

spec fn begun(s: Seq<char>, t: Seq<char>, attributes: Seq<PairView>, n: int) -> bool {
    exists|a: int| #[trigger] begun_at(s, t, a, n) && placed(s, attributes, a)
}

/// Whether `t` stands before `n` as the name of an attribute, behind those of `attributes`.
spec fn named(s: Seq<char>, t: Seq<char>, attributes: Seq<PairView>, n: int) -> bool {
    exists|a: int| #[trigger]
        name_at(s, t, a) && a + t.len() <= n && placed(s, attributes, a)
}

/// What holds of the names and values that a scan has read, when it stands at `n`.
spec fn reads_names(s: Seq<char>, n: int, v: ScanView) -> bool {
    &&& v.quote == '"' || v.quote == '\''
    &&& match v.mode {
        Mode::InTag => n > 0 && is_before_name(s[n - 1]) && placed(s, v.attributes, n)
            && are_values(s, v.attributes),
        Mode::AttributeName => {
            &&& are_values(s, v.attributes)
            &&& if v.level == 0 {
                begun(s, v.buf, v.attributes, n)
            } else {
                named(s, v.buf, v.attributes, n)
            }
        },
        Mode::Delimiter => {
            &&& are_values(s, v.attributes)
            &&& v.buf.len() == 0
            &&& named(s, v.name, v.attributes, n)
        },
        Mode::AttributeValue => {
            &&& are_values(s, v.attributes)
            &&& v.buf.len() <= n
            &&& v.buf == s.subrange(n - v.buf.len(), n)
            &&& named(s, v.name, v.attributes, n)
        },
        _ => true,
    }
}

proof fn lemma_placed_further(s: Seq<char>, attributes: Seq<PairView>, end: int, further: int)
    requires
        placed(s, attributes, end),
        end <= further,
    ensures
        placed(s, attributes, further),
{
    if attributes.len() > 0 {
        let a = choose|a: int| #[trigger]
            name_at(s, attributes.last().name, a) && a + attributes.last().name.len() <= end
                && placed(s, attributes.drop_last(), a);
        assert(name_at(s, attributes.last().name, a));
    }
}

proof fn lemma_scan_next(s: Seq<char>, n: int)
    requires
        0 <= n < s.len(),
    ensures
        scan(s.take(n + 1)) == scan(s.take(n)).next(s[n]),
{
    assert(s.take(n + 1).drop_last() =~= s.take(n));
    assert(s.take(n + 1).last() == s[n]);
}

proof fn lemma_named_further(
    s: Seq<char>,
    t: Seq<char>,
    attributes: Seq<PairView>,
    n: int,
    further: int,
)
    requires
        named(s, t, attributes, n),
        n <= further,
    ensures
        named(s, t, attributes, further),
{
    let a = choose|a: int| #[trigger]
        name_at(s, t, a) && a + t.len() <= n && placed(s, attributes, a);
    assert(name_at(s, t, a) && a + t.len() <= further && placed(s, attributes, a));
}

proof fn lemma_name_goes_on(s: Seq<char>, n: int, v: ScanView)
    requires
        0 <= n < s.len(),
        v.mode is AttributeName,
        reads_names(s, n, v),
    ensures
        reads_names(s, n + 1, v.next(s[n])),
{
    let c = s[n];
    if v.level == 0 {
        let a = choose|a: int| #[trigger] begun_at(s, v.buf, a, n) && placed(s, v.attributes, a);
        assert(v.buf.len() == n - a);
        if c == '=' || is_space(c) {
            assert(name_at(s, v.buf, a));
            assert(named(s, v.buf, v.attributes, n + 1));
        } else {
            assert(s.subrange(a, n + 1) =~= v.buf.push(c));
            assert(begun_at(s, v.buf.push(c), a, n + 1));
            assert(begun(s, v.buf.push(c), v.attributes, n + 1));
        }
    } else {
        lemma_named_further(s, v.buf, v.attributes, n, n + 1);
    }
}

proof fn lemma_value_goes_on(s: Seq<char>, n: int, v: ScanView)
    requires
        0 <= n < s.len(),
        v.mode is AttributeValue,
        reads_names(s, n, v),
    ensures
        reads_names(s, n + 1, v.next(s[n])),
{
    let c = s[n];
    lemma_named_further(s, v.name, v.attributes, n, n + 1);
    if c != v.quote {
        assert(s.subrange(n + 1 - v.buf.push(c).len(), n + 1) =~= v.buf.push(c));
    } else if let Some(value) = unescaped(v.buf) {
        let more = v.attributes.push(PairView { name: v.name, value });
        let a = choose|a: int| #[trigger]
            name_at(s, v.name, a) && a + v.name.len() <= n && placed(s, v.attributes, a);
        assert(more.drop_last() =~= v.attributes);
        assert(more.last().name == v.name);
        assert(name_at(s, more.last().name, a));
        assert(placed(s, more, n + 1));
        assert(is_value(s, value)) by {
            assert(unescaped(s.subrange(n - v.buf.len(), n)) == Some(value));
        }
        assert forall|i: int| 0 <= i < more.len() implies is_value(
            s,
            (#[trigger] more[i]).value,
        ) by {
            if i < v.attributes.len() {
                assert(is_value(s, v.attributes[i].value));
            }
        }
    }
}

/// A scan reads the names and the values of attributes from the text.
proof fn lemma_reads_names(s: Seq<char>, n: int)
    requires
        0 <= n <= s.len(),
    ensures
        reads_names(s, n, scan(s.take(n))),
    decreases n,
{
    if n == 0 {
        assert(s.take(0).len() == 0);
    } else {
        lemma_reads_names(s, n - 1);
        lemma_scan_next(s, n - 1);
        let v = scan(s.take(n - 1));
        let c = s[n - 1];
        match v.mode {
            Mode::AttributeName => {
                lemma_name_goes_on(s, n - 1, v);
            },
            Mode::AttributeValue => {
                lemma_value_goes_on(s, n - 1, v);
            },
            Mode::InTag => {
                if is_space(c) {
                    lemma_placed_further(s, v.attributes, n - 1, n);
                } else if c != '/' && c != '>' {
                    assert(s.subrange(n - 1, n) =~= seq![c]);
                    assert(begun_at(s, seq![c], n - 1, n));
                    assert(begun(s, seq![c], v.attributes, n));
                }
            },
            Mode::Delimiter => {
                lemma_named_further(s, v.name, v.attributes, n - 1, n);
                assert(s.subrange(n as int, n as int) =~= v.buf);
            },
            Mode::TagName => {
                if is_space(c) {
                    assert(placed(s, seq![], n));
                }
            },
            _ => {},
        }
    }
}

proof fn lemma_position(s: Seq<char>, c: char, i: int)
    requires
        0 <= i <= s.len(),
    ensures
        i <= position_from(s, c, i) <= s.len(),
        position_from(s, c, i) < s.len() ==> s[position_from(s, c, i)] == c,
        forall|k: int| i <= k < position_from(s, c, i) ==> #[trigger] s[k] != c,
    decreases s.len() - i,
{
    if i < s.len() && s[i] != c {
        lemma_position(s, c, i + 1);
    }
}

/// What is asked of the name of an attribute. Either no name starts with a colon, or none is the
/// word `xmlns` alone.
spec fn is_good_name(t: Seq<char>, defaults: bool) -> bool {
    &&& prefix_of(t) == Some(xmlns()) ==> local_of(t).len() > 0 && local_of(t) != xmlns()
    &&& t != xmlns_colon()
    &&& if defaults {
        prefix_of(t) != Some(Seq::<char>::empty())
    } else {
        t != xmlns()
    }
}

proof fn lemma_prefix(t: Seq<char>)
    ensures
        prefix_of(t) == Some(xmlns()) ==> t.len() >= 6 && (forall|i: int|
            0 <= i < 6 ==> #[trigger] t[i] == xmlns_colon()[i]) && local_of(t) == t.skip(6),
        prefix_of(t) == Some(Seq::<char>::empty()) ==> t.len() > 0 && t[0] == ':',
{
    lemma_position(t, ':', 0);
    let p = position(t, ':');
    if prefix_of(t) == Some(xmlns()) {
        assert(t.take(p) == xmlns());
        assert(p == 5);
        assert forall|i: int| 0 <= i < 6 implies #[trigger] t[i] == xmlns_colon()[i] by {
            if i < 5 {
                assert(t.take(p)[i] == t[i]);
            }
        }
    }
    if prefix_of(t) == Some(Seq::<char>::empty()) {
        assert(t.take(p).len() == 0);
    }
}

proof fn lemma_good_name(s: Seq<char>, t: Seq<char>, a: int, defaults: bool)
    requires
        has_sound_prefixes(s),
        defaults ==> has_no_leading_colon(s),
        !defaults ==> has_no_default(s),
        name_at(s, t, a),
    ensures
        is_good_name(t, defaults),
        prefix_of(t) == Some(xmlns()) ==> stands_at(s, xmlns_colon(), a),
{
    lemma_prefix(t);
    assert forall|i: int| 0 <= i < t.len() implies #[trigger] t[i] == s[a + i] by {
        assert(s.subrange(a, a + t.len())[i] == s[a + i]);
    }
    if prefix_of(t) == Some(xmlns()) {
        assert forall|i: int| 0 <= i < 6 implies s[a + i] == #[trigger] xmlns_colon()[i] by {
            assert(t[i] == s[a + i]);
        }
        assert(stands_at(s, xmlns_colon(), a));
        if local_of(t).len() == 0 {
            assert(t.len() == 6);
        }
        if local_of(t) == xmlns() {
            let both = xmlns_colon() + xmlns();
            assert forall|i: int| 0 <= i < both.len() implies s[a + i] == #[trigger] both[i] by {
                assert(t[i] == s[a + i]);
                if i >= 6 {
                    assert(local_of(t)[i - 6] == t[i]);
                }
            }
            assert(t.len() == 11);
            assert(stands_at(s, both, a));
        }
    }
    if t == xmlns_colon() {
        assert forall|i: int| 0 <= i < 6 implies s[a + i] == #[trigger] xmlns_colon()[i] by {
            assert(t[i] == s[a + i]);
        }
        assert(stands_at(s, xmlns_colon(), a));
    }
    if t == xmlns() {
        assert forall|i: int| 0 <= i < 5 implies s[a + i] == #[trigger] xmlns()[i] by {
            assert(t[i] == s[a + i]);
        }
        assert(stands_at(s, xmlns(), a));
    }
    if prefix_of(t) == Some(Seq::<char>::empty()) {
        assert(s[a] == t[0]);
    }
}

spec fn are_good_names(attributes: Seq<PairView>, defaults: bool) -> bool {
    forall|i: int|
        0 <= i < attributes.len() ==> is_good_name((#[trigger] attributes[i]).name, defaults)
}

proof fn lemma_good_names(
    s: Seq<char>,
    attributes: Seq<PairView>,
    end: int,
    defaults: bool,
)
    requires
        has_sound_prefixes(s),
        defaults ==> has_no_leading_colon(s),
        !defaults ==> has_no_default(s),
        placed(s, attributes, end),
    ensures
        are_good_names(attributes, defaults),
    decreases attributes.len(),
{
    if attributes.len() > 0 {
        let t = attributes.last().name;
        let a = choose|a: int| #[trigger]
            name_at(s, t, a) && a + t.len() <= end && placed(s, attributes.drop_last(), a);
        lemma_good_name(s, t, a, defaults);
        lemma_good_names(s, attributes.drop_last(), a, defaults);
        assert forall|i: int| 0 <= i < attributes.len() implies is_good_name(
            (#[trigger] attributes[i]).name,
            defaults,
        ) by {
            if i < attributes.len() - 1 {
                assert(is_good_name(attributes.drop_last()[i].name, defaults));
            }
        }
    }
}

/// Whether all that is bound can be written with, in an element: what a prefix stands for is known,
/// but perhaps for the empty prefix.
spec fn is_sound(
    bindings: Seq<PairView>,
    known: Seq<Seq<char>>,
    defaults: bool,
) -> bool {
    &&& namespace_of(bindings, xmlns()) == Some(xmlns_uri())
    &&& forall|p: Seq<char>| #[trigger]
        namespace_of(bindings, p) is Some ==> p.len() == 0 && defaults || known.contains(
            namespace_of(bindings, p)->0,
        )
}

proof fn lemma_xmlns()
    ensures
        "xmlns"@ == xmlns(),
        "xmlns:"@ == xmlns_colon(),
        xmlns_uri().len() > 0,
        xml_uri().len() > 0,
        xml_uri() != xmlns_uri(),
        "xml"@.len() == 3,
{
    reveal_strlit("xmlns");
    reveal_strlit("xmlns:");
    reveal_strlit("xml");
    reveal_strlit("http://www.w3.org/XML/1998/namespace");
    reveal_strlit("http://www.w3.org/2000/xmlns/");
    assert("xmlns"@ =~= xmlns());
    assert("xmlns:"@ =~= xmlns_colon());
}

proof fn lemma_declared(bindings: Seq<PairView>, attributes: Seq<PairView>, i: int)
    requires
        0 <= i < attributes.len(),
        declares(bindings, attributes[i].name),
    ensures
        declared(bindings, attributes).contains(attributes[i].value),
    decreases attributes.len(),
{
    let before = declared(bindings, attributes.drop_last());
    if i < attributes.len() - 1 {
        lemma_declared(bindings, attributes.drop_last(), i);
        let k = choose|k: int| 0 <= k < before.len() && before[k] == attributes[i].value;
        assert(declared(bindings, attributes)[k] == attributes[i].value);
    } else {
        assert(declared(bindings, attributes)[before.len() as int] == attributes[i].value);
    }
}

/// What is bound in an element was bound around it or is declared in it.
proof fn lemma_bound(
    around: Seq<PairView>,
    known: Seq<Seq<char>>,
    attributes: Seq<PairView>,
    defaults: bool,
    p: Seq<char>,
)
    requires
        is_sound(around, known, defaults),
        are_good_names(attributes, defaults),
    ensures
        namespace_of(bound(around, attributes), xmlns()) == Some(xmlns_uri()),
        namespace_of(bound(around, attributes), p) matches Some(u) ==> {
            ||| p.len() == 0 && defaults
            ||| known.contains(u)
            ||| exists|i: int|
                0 <= i < attributes.len() && prefix_of((#[trigger] attributes[i]).name) == Some(
                    xmlns(),
                ) && attributes[i].value == u
        },
    decreases attributes.len(),
{
    lemma_xmlns();
    if attributes.len() == 0 {
        assert(namespace_of(around, p) == namespace_of(bound(around, attributes), p));
    } else {
        let rest = attributes.drop_last();
        let last = attributes.last();
        assert(last == attributes[attributes.len() - 1]);
        assert(is_good_name(attributes[attributes.len() - 1].name, defaults));
        assert forall|i: int| 0 <= i < rest.len() implies is_good_name(
            (#[trigger] rest[i]).name,
            defaults,
        ) by {
            assert(is_good_name(attributes[i].name, defaults));
        }
        lemma_bound(around, known, rest, defaults, p);
        let before = bound(around, rest);
        let now = bound(around, attributes);
        if exists|i: int|
            0 <= i < rest.len() && prefix_of((#[trigger] rest[i]).name) == Some(xmlns())
                && namespace_of(before, p) == Some(rest[i].value) {
            let i = choose|i: int|
                0 <= i < rest.len() && prefix_of((#[trigger] rest[i]).name) == Some(xmlns())
                    && namespace_of(before, p) == Some(rest[i].value);
            assert(prefix_of(attributes[i].name) == Some(xmlns()));
            assert(attributes[i].value == rest[i].value);
        }
        if last.name == xmlns() {
            let pair = PairView { name: Seq::<char>::empty(), value: last.value };
            assert(now == before.push(pair));
            assert(now.drop_last() =~= before);
            assert(now.last() == pair);
            if p.len() == 0 {
                assert(p =~= Seq::<char>::empty());
            }
            assert(pair.name.len() != xmlns().len());
        } else if prefix_of(last.name) == Some(xmlns()) {
            let pair = PairView { name: local_of(last.name), value: last.value };
            assert(now == before.push(pair));
            assert(now.drop_last() =~= before);
            assert(now.last() == pair);
        } else {
            assert(now == before);
        }
    }
}

/// In an element whose attributes have good names all can be written, and all that is bound in it
/// can be written with.
proof fn lemma_inner(
    around: ElementView,
    role: Role,
    tag: Seq<char>,
    attributes: Seq<PairView>,
    defaults: bool,
)
    requires
        is_sound(around.bindings, around.known, defaults),
        are_good_names(attributes, defaults),
    ensures
        ({
            let inner = around.inner(role, attributes);
            &&& is_sound(inner.bindings, inner.known, defaults)
            &&& !inner.odd(tag, attributes)
        }),
{
    lemma_xmlns();
    let inner = around.inner(role, attributes);
    let b = inner.bindings;
    let more = declared(b, attributes);
    lemma_bound(around.bindings, around.known, attributes, defaults, xmlns());
    assert forall|p: Seq<char>| #[trigger] namespace_of(b, p) is Some implies p.len() == 0
        && defaults || inner.known.contains(namespace_of(b, p)->0) by {
        lemma_bound(around.bindings, around.known, attributes, defaults, p);
        let u = namespace_of(b, p)->0;
        if around.known.contains(u) {
            let k = choose|k: int| 0 <= k < around.known.len() && around.known[k] == u;
            assert(inner.known[k] == u);
        } else if !(p.len() == 0 && defaults) {
            let i = choose|i: int|
                0 <= i < attributes.len() && prefix_of((#[trigger] attributes[i]).name) == Some(
                    xmlns(),
                ) && attributes[i].value == u;
            lemma_declared(b, attributes, i);
            let k = choose|k: int| 0 <= k < more.len() && more[k] == u;
            assert(inner.known[around.known.len() + k] == u);
        }
    }
    assert(!odd_tag(b, inner.known, inner.default_namespace, tag)) by {
        if prefix_of(tag) is Some {
            assert(namespace_of(b, prefix_of(tag)->0) is Some ==> prefix_of(tag)->0.len() == 0
                || inner.known.contains(namespace_of(b, prefix_of(tag)->0)->0));
        }
    }
    assert forall|i: int| 0 <= i < attributes.len() implies !odd_name(
        b,
        inner.known,
        #[trigger] attributes[i].name,
    ) by {
        let t = attributes[i].name;
        assert(is_good_name(t, defaults));
        if prefix_of(t) is Some {
            let p = prefix_of(t)->0;
            if p.len() == 0 {
                assert(p =~= Seq::<char>::empty());
            }
            assert(namespace_of(b, p) is Some ==> p.len() == 0 && defaults
                || inner.known.contains(namespace_of(b, p)->0));
        }
    }
}

spec fn is_sound_nesting(nesting: NestingView, defaults: bool) -> bool {
    &&& !nesting.odd
    &&& forall|i: int|
        0 <= i < nesting.open.len() ==> is_sound(
            (#[trigger] nesting.open[i]).bindings,
            nesting.open[i].known,
            defaults,
        )
}

proof fn lemma_root_sound(defaults: bool)
    ensures
        is_sound(around_root().bindings, around_root().known, defaults),
{
    lemma_xmlns();
    let b = around_root().bindings;
    let known = around_root().known;
    assert(known[0] == xml_uri() && known[1] == xmlns_uri());
    assert(b.last() == (PairView { name: "xmlns"@, value: xmlns_uri() }));
    let one = b.drop_last();
    assert(one.last() == (PairView { name: "xml"@, value: xml_uri() }));
    assert(one.drop_last() =~= seq![]);
    assert forall|p: Seq<char>| #[trigger] namespace_of(b, p) is Some implies known.contains(
        namespace_of(b, p)->0,
    ) by {
        assert(namespace_of(one.drop_last(), p) is None);
        assert(namespace_of(one, p) is Some ==> namespace_of(one, p)->0 == xml_uri());
    }
}

proof fn lemma_opened_sound(
    nesting: NestingView,
    tag: Seq<char>,
    attributes: Seq<PairView>,
    defaults: bool,
)
    requires
        is_sound_nesting(nesting, defaults),
        are_good_names(attributes, defaults),
    ensures
        is_sound_nesting(nesting.opened(tag, attributes), defaults),
{
    if !nesting.ended {
        lemma_root_sound(defaults);
        let around = if nesting.open.len() == 0 {
            around_root()
        } else {
            nesting.open.last()
        };
        if nesting.open.len() > 0 {
            assert(around == nesting.open[nesting.open.len() - 1]);
        }
        let now = nesting.opened(tag, attributes);
        let role = now.open.last().role;
        lemma_inner(around, role, tag, attributes, defaults);
        assert(now.open.last() == around.inner(role, attributes));
        assert forall|i: int| 0 <= i < now.open.len() implies is_sound(
            (#[trigger] now.open[i]).bindings,
            now.open[i].known,
            defaults,
        ) by {
            if i < nesting.open.len() {
                assert(now.open[i] == nesting.open[i]);
            }
        }
    }
}

proof fn lemma_closed_sound(nesting: NestingView, defaults: bool)
    requires
        is_sound_nesting(nesting, defaults),
    ensures
        is_sound_nesting(nesting.closed(), defaults),
{
    let now = nesting.closed();
    assert forall|i: int| 0 <= i < now.open.len() implies is_sound(
        (#[trigger] now.open[i]).bindings,
        now.open[i].known,
        defaults,
    ) by {
        assert(now.open[i] == nesting.open[i]);
    }
}

/// Whether closing brackets were counted right, when a scan stands at `n`.
spec fn counts_brackets(s: Seq<char>, n: int, v: ScanView) -> bool {
    &&& !v.overflown
    &&& match v.mode {
        Mode::TagOpened => n >= 1 && s[n - 1] == '<',
        Mode::Exclamation => n >= 2 && s[n - 2] == '<' && s[n - 1] == '!',
        Mode::CdataOpening => exists|k: int| #[trigger] stands_at(s, cdata_mark(), k),
        Mode::Cdata => {
            &&& exists|k: int| #[trigger] stands_at(s, cdata_mark(), k)
            &&& v.level <= n
            &&& forall|i: int| n - v.level <= i < n ==> #[trigger] s[i] == ']'
        },
        _ => true,
    }
}

proof fn lemma_counts_brackets(s: Seq<char>, n: int)
    requires
        has_countable_brackets(s),
        0 <= n <= s.len(),
    ensures
        counts_brackets(s, n, scan(s.take(n))),
    decreases n,
{
    if n == 0 {
        assert(s.take(0).len() == 0);
    } else {
        lemma_counts_brackets(s, n - 1);
        lemma_scan_next(s, n - 1);
        let v = scan(s.take(n - 1));
        let c = s[n - 1];
        match v.mode {
            Mode::Exclamation => {
                if c == '[' {
                    assert(stands_at(s, cdata_mark(), n - 3));
                }
            },
            Mode::Cdata => {
                if c == ']' && v.level == 255 {
                    assert forall|i: int| n - 256 <= i < n - 256 + 256 implies #[trigger] s[i]
                        == ']' by {}
                    assert(has_brackets_at(s, n - 256));
                }
            },
            _ => {},
        }
    }
}

proof fn lemma_stays_sound(s: Seq<char>, n: int, defaults: bool)
    requires
        has_sound_prefixes(s),
        defaults ==> has_no_leading_colon(s),
        !defaults ==> has_no_default(s),
        0 <= n <= s.len(),
    ensures
        is_sound_nesting(scan(s.take(n)).nesting, defaults),
    decreases n,
{
    if n == 0 {
        assert(s.take(0).len() == 0);
    } else {
        lemma_stays_sound(s, n - 1, defaults);
        lemma_reads_names(s, n - 1);
        lemma_scan_next(s, n - 1);
        let v = scan(s.take(n - 1));
        lemma_closed_sound(v.nesting, defaults);
        match v.mode {
            Mode::TagName => {
                lemma_opened_sound(v.nesting, v.buf, seq![], defaults);
            },
            Mode::InTag => {
                lemma_good_names(s, v.attributes, n - 1, defaults);
                lemma_opened_sound(v.nesting, v.tag, v.attributes, defaults);
            },
            _ => {},
        }
    }
}

/// A text is readable that is not too long, whose closing brackets can be counted, and whose names
/// can all be written: it declares no empty prefix and not the prefix `xmlns`, and it
/// has no name that starts with a colon or declares no namespace for names without a prefix.
pub proof fn law_texts_with_sound_names_are_readable(s: Seq<char>)
    requires
        s.len() < 0xffff_ffff,
        has_countable_brackets(s),
        has_sound_prefixes(s),
        has_no_leading_colon(s) || has_no_default(s),
    ensures
        readable(s),
{
    lemma_stays_sound(s, s.len() as int, has_no_leading_colon(s));
    lemma_counts_brackets(s, s.len() as int);
    assert(s.take(s.len() as int) =~= s);
}

/// A text in which no namespace is declared is readable, if it is not too long and its closing
/// brackets can be counted.
pub proof fn law_texts_without_namespaces_are_readable(s: Seq<char>)
    requires
        s.len() < 0xffff_ffff,
        has_countable_brackets(s),
        forall|k: int| !#[trigger] stands_at(s, xmlns(), k),
    ensures
        readable(s),
        unambiguous(s),
{
    assert forall|k: int| !#[trigger] stands_at(s, xmlns_colon(), k) by {
        if stands_at(s, xmlns_colon(), k) {
            assert forall|i: int| 0 <= i < 5 implies s[k + i] == #[trigger] xmlns()[i] by {
                assert(s[k + i] == xmlns_colon()[i]);
            }
            assert(stands_at(s, xmlns(), k));
        }
    }
    assert forall|k: int| !#[trigger] stands_at(s, xmlns_colon() + xmlns(), k) by {
        let both = xmlns_colon() + xmlns();
        if stands_at(s, both, k) {
            assert forall|i: int| 0 <= i < 6 implies s[k + i] == #[trigger] xmlns_colon()[i] by {
                assert(s[k + i] == both[i]);
            }
            assert(stands_at(s, xmlns_colon(), k));
        }
    }
    law_texts_with_sound_names_are_readable(s);
    law_texts_with_one_prefix_are_unambiguous(s);
}

/// Whether only the prefix `xmlns` stands for the namespace under which prefixes are declared, but
/// perhaps for the empty one.
spec fn is_clear(bindings: Seq<PairView>, defaults: bool) -> bool {
    forall|p: Seq<char>|
        #[trigger] namespace_of(bindings, p) == Some(xmlns_uri()) ==> p == xmlns() || p.len() == 0
            && defaults
}

/// What is asked of an attribute so that it makes nothing unclear.
spec fn is_clear_pair(pair: PairView, defaults: bool) -> bool {
    &&& if defaults {
        prefix_of(pair.name) != Some(Seq::<char>::empty())
    } else {
        pair.name != xmlns()
    }
    &&& prefix_of(pair.name) == Some(xmlns()) ==> pair.value != xmlns_uri()
}

proof fn lemma_bound_clear(
    around: Seq<PairView>,
    attributes: Seq<PairView>,
    defaults: bool,
)
    requires
        is_clear(around, defaults),
        forall|i: int|
            0 <= i < attributes.len() ==> is_clear_pair(#[trigger] attributes[i], defaults),
    ensures
        is_clear(bound(around, attributes), defaults),
    decreases attributes.len(),
{
    lemma_xmlns();
    if attributes.len() > 0 {
        let rest = attributes.drop_last();
        let last = attributes.last();
        assert(is_clear_pair(attributes[attributes.len() - 1], defaults));
        assert forall|i: int| 0 <= i < rest.len() implies is_clear_pair(
            #[trigger] rest[i],
            defaults,
        ) by {
            assert(is_clear_pair(attributes[i], defaults));
        }
        lemma_bound_clear(around, rest, defaults);
        let before = bound(around, rest);
        let now = bound(around, attributes);
        if now != before {
            assert(now.drop_last() =~= before);
        }
        assert forall|p: Seq<char>| #[trigger]
            namespace_of(now, p) == Some(xmlns_uri()) implies p == xmlns() || p.len() == 0
            && defaults by {
            if now == before || now.last().name != p {
                assert(namespace_of(before, p) == Some(xmlns_uri()));
            }
        }
    }
}

/// Where names stand one behind the other and the word that declares prefixes stands at most once,
/// at most one prefix is declared.
proof fn lemma_declared_once(
    s: Seq<char>,
    bindings: Seq<PairView>,
    attributes: Seq<PairView>,
    end: int,
    defaults: bool,
)
    requires
        is_clear(bindings, defaults),
        defaults ==> has_no_leading_colon(s),
        forall|j: int, k: int| #[trigger]
            stands_at(s, xmlns_colon(), j) && #[trigger] stands_at(s, xmlns_colon(), k) ==> j == k,
        placed(s, attributes, end),
    ensures
        declared(bindings, attributes).len() <= 1,
        declared(bindings, attributes).len() == 1 ==> exists|k: int|
            k < end && #[trigger] stands_at(s, xmlns_colon(), k),
    decreases attributes.len(),
{
    if attributes.len() > 0 {
        let t = attributes.last().name;
        let rest = attributes.drop_last();
        let a = choose|a: int| #[trigger]
            name_at(s, t, a) && a + t.len() <= end && placed(s, rest, a);
        lemma_declared_once(s, bindings, rest, a, defaults);
        if declared(bindings, rest).len() == 1 {
            let k = choose|k: int| k < a && #[trigger] stands_at(s, xmlns_colon(), k);
            assert(k < end && stands_at(s, xmlns_colon(), k));
        }
        if declares(bindings, t) {
            lemma_prefix(t);
            let p = prefix_of(t)->0;
            assert(namespace_of(bindings, p) == Some(xmlns_uri()));
            assert forall|i: int| 0 <= i < t.len() implies #[trigger] t[i] == s[a + i] by {
                assert(s.subrange(a, a + t.len())[i] == s[a + i]);
            }
            if p.len() == 0 {
                assert(p =~= Seq::<char>::empty());
                assert(s[a] == t[0]);
            }
            assert(p == xmlns());
            assert forall|i: int| 0 <= i < 6 implies s[a + i] == #[trigger] xmlns_colon()[i] by {
                assert(t[i] == s[a + i]);
            }
            assert(stands_at(s, xmlns_colon(), a));
            if declared(bindings, rest).len() == 1 {
                let k = choose|k: int| k < a && #[trigger] stands_at(s, xmlns_colon(), k);
                assert(stands_at(s, xmlns_colon(), k));
            }
        }
    }
}

spec fn is_clear_nesting(nesting: NestingView, defaults: bool) -> bool {
    &&& !nesting.ambiguous
    &&& forall|i: int|
        0 <= i < nesting.open.len() ==> is_clear((#[trigger] nesting.open[i]).bindings, defaults)
}

/// Whether a text declares at most one prefix, and for no namespace of which another prefix could
/// be made that declares prefixes.
pub open spec fn declares_at_most_once(s: Seq<char>) -> bool {
    ||| forall|k: int| !#[trigger] stands_at(s, xmlns_colon(), k)
    ||| {
        &&& forall|j: int, k: int| #[trigger]
            stands_at(s, xmlns_colon(), j) && #[trigger] stands_at(s, xmlns_colon(), k) ==> j == k
        &&& lacks(s, '&')
        &&& forall|k: int| !#[trigger] stands_at(s, "http://www.w3.org/2000/xmlns/"@, k)
    }
}

proof fn lemma_no_entities(t: Seq<char>)
    requires
        lacks(t, '&'),
    ensures
        unescaped(t) == Some(t),
{
    lemma_position(t, '&', 0);
}

proof fn lemma_clear_pairs(
    s: Seq<char>,
    attributes: Seq<PairView>,
    end: int,
    defaults: bool,
)
    requires
        declares_at_most_once(s),
        defaults ==> has_no_leading_colon(s),
        !defaults ==> has_no_default(s),
        placed(s, attributes, end),
        are_values(s, attributes),
    ensures
        forall|i: int|
            0 <= i < attributes.len() ==> is_clear_pair(#[trigger] attributes[i], defaults),
    decreases attributes.len(),
{
    if attributes.len() > 0 {
        let last = attributes.last();
        let t = last.name;
        let rest = attributes.drop_last();
        let a = choose|a: int| #[trigger]
            name_at(s, t, a) && a + t.len() <= end && placed(s, rest, a);
        assert forall|i: int| 0 <= i < rest.len() implies is_value(
            s,
            (#[trigger] rest[i]).value,
        ) by {
            assert(is_value(s, attributes[i].value));
        }
        lemma_clear_pairs(s, rest, a, defaults);
        lemma_prefix(t);
        assert forall|i: int| 0 <= i < t.len() implies #[trigger] t[i] == s[a + i] by {
            assert(s.subrange(a, a + t.len())[i] == s[a + i]);
        }
        if prefix_of(t) == Some(Seq::<char>::empty()) {
            assert(s[a] == t[0]);
        }
        if t == xmlns() {
            assert forall|i: int| 0 <= i < 5 implies s[a + i] == #[trigger] xmlns()[i] by {
                assert(t[i] == s[a + i]);
            }
            assert(stands_at(s, xmlns(), a));
        }
        if prefix_of(t) == Some(xmlns()) {
            assert forall|i: int| 0 <= i < 6 implies s[a + i] == #[trigger] xmlns_colon()[i] by {
                assert(t[i] == s[a + i]);
            }
            assert(stands_at(s, xmlns_colon(), a));
            assert(is_value(s, attributes[attributes.len() - 1].value));
            let (x, y) = choose|x: int, y: int|
                0 <= x <= y <= s.len() && unescaped(#[trigger] s.subrange(x, y)) == Some(
                    last.value,
                );
            let part = s.subrange(x, y);
            assert forall|i: int| 0 <= i < part.len() implies #[trigger] part[i] != '&' by {
                assert(s[x + i] != '&');
            }
            lemma_no_entities(part);
            if last.value == xmlns_uri() {
                assert forall|i: int| 0 <= i < xmlns_uri().len() implies s[x + i]
                    == #[trigger] xmlns_uri()[i] by {
                    assert(part[i] == s[x + i]);
                }
                assert(stands_at(s, "http://www.w3.org/2000/xmlns/"@, x));
            }
        }
        assert forall|i: int| 0 <= i < attributes.len() implies is_clear_pair(
            #[trigger] attributes[i],
            defaults,
        ) by {
            if i < rest.len() {
                assert(is_clear_pair(rest[i], defaults));
            }
        }
    }
}

proof fn lemma_root_clear(defaults: bool)
    ensures
        is_clear(around_root().bindings, defaults),
{
    lemma_xmlns();
    let b = around_root().bindings;
    assert(b.last() == (PairView { name: "xmlns"@, value: xmlns_uri() }));
    let one = b.drop_last();
    assert(one.last() == (PairView { name: "xml"@, value: xml_uri() }));
    assert(one.drop_last() =~= seq![]);
    assert forall|p: Seq<char>| #[trigger] namespace_of(b, p) == Some(xmlns_uri()) implies p
        == xmlns() || p.len() == 0 && defaults by {
        assert(namespace_of(one.drop_last(), p) is None);
        assert(namespace_of(one, p) is Some ==> namespace_of(one, p)->0 == xml_uri());
    }
}

proof fn lemma_opened_clear(
    s: Seq<char>,
    nesting: NestingView,
    tag: Seq<char>,
    attributes: Seq<PairView>,
    end: int,
    defaults: bool,
)
    requires
        declares_at_most_once(s),
        defaults ==> has_no_leading_colon(s),
        !defaults ==> has_no_default(s),
        placed(s, attributes, end),
        are_values(s, attributes),
        is_clear_nesting(nesting, defaults),
    ensures
        is_clear_nesting(nesting.opened(tag, attributes), defaults),
{
    if !nesting.ended {
        lemma_root_clear(defaults);
        lemma_clear_pairs(s, attributes, end, defaults);
        let around = if nesting.open.len() == 0 {
            around_root()
        } else {
            nesting.open.last()
        };
        if nesting.open.len() > 0 {
            assert(around == nesting.open[nesting.open.len() - 1]);
        }
        lemma_bound_clear(around.bindings, attributes, defaults);
        let bindings = bound(around.bindings, attributes);
        lemma_declared_once(s, bindings, attributes, end, defaults);
        let now = nesting.opened(tag, attributes);
        assert(now.open.last().bindings == bindings);
        assert(declared(bindings, attributes).no_duplicates());
        assert forall|i: int| 0 <= i < now.open.len() implies is_clear(
            (#[trigger] now.open[i]).bindings,
            defaults,
        ) by {
            if i < nesting.open.len() {
                assert(now.open[i] == nesting.open[i]);
            }
        }
    }
}

proof fn lemma_stays_clear(s: Seq<char>, n: int, defaults: bool)
    requires
        declares_at_most_once(s),
        defaults ==> has_no_leading_colon(s),
        !defaults ==> has_no_default(s),
        0 <= n <= s.len(),
    ensures
        is_clear_nesting(scan(s.take(n)).nesting, defaults),
    decreases n,
{
    if n == 0 {
        assert(s.take(0).len() == 0);
    } else {
        lemma_stays_clear(s, n - 1, defaults);
        lemma_reads_names(s, n - 1);
        lemma_scan_next(s, n - 1);
        let v = scan(s.take(n - 1));
        let closed = v.nesting.closed();
        assert forall|i: int| 0 <= i < closed.open.len() implies is_clear(
            (#[trigger] closed.open[i]).bindings,
            defaults,
        ) by {
            assert(closed.open[i] == v.nesting.open[i]);
        }
        match v.mode {
            Mode::TagName => {
                lemma_opened_clear(s, v.nesting, v.buf, seq![], n - 1, defaults);
            },
            Mode::InTag => {
                lemma_opened_clear(s, v.nesting, v.tag, v.attributes, n - 1, defaults);
            },
            _ => {},
        }
    }
}

/// In a text that declares at most one prefix the same is found in every process.
pub proof fn law_texts_with_one_prefix_are_unambiguous(s: Seq<char>)
    requires
        declares_at_most_once(s),
        has_no_leading_colon(s) || has_no_default(s),
    ensures
        unambiguous(s),
{
    lemma_stays_clear(s, s.len() as int, has_no_leading_colon(s));
    assert(s.take(s.len() as int) =~= s);
}

proof fn lemma_declared_values(
    bindings: Seq<PairView>,
    attributes: Seq<PairView>,
    value: Seq<char>,
) -> (i: int)
    requires
        declared(bindings, attributes).contains(value),
    ensures
        0 <= i < attributes.len(),
        attributes[i].value == value,
    decreases attributes.len(),
{
    let all = declared(bindings, attributes);
    let k = choose|k: int| 0 <= k < all.len() && all[k] == value;
    if attributes.len() == 0 {
        0
    } else {
        let rest = attributes.drop_last();
        if k < declared(bindings, rest).len() {
            assert(declared(bindings, rest)[k] == value);
            lemma_declared_values(bindings, rest, value)
        } else {
            attributes.len() - 1
        }
    }
}

proof fn lemma_declared_distinct(bindings: Seq<PairView>, attributes: Seq<PairView>)
    requires
        forall|i: int, k: int|
            0 <= i < k < attributes.len() ==> (#[trigger] attributes[i]).value != (
            #[trigger] attributes[k]).value,
    ensures
        declared(bindings, attributes).no_duplicates(),
    decreases attributes.len(),
{
    if attributes.len() > 0 {
        let rest = attributes.drop_last();
        let last = attributes.len() - 1;
        assert forall|i: int, k: int| 0 <= i < k < rest.len() implies (
        #[trigger] rest[i]).value != (#[trigger] rest[k]).value by {
            assert(attributes[i].value != attributes[k].value);
        }
        lemma_declared_distinct(bindings, rest);
        let before = declared(bindings, rest);
        let value = attributes.last().value;
        assert(!before.contains(value)) by {
            if before.contains(value) {
                let i = lemma_declared_values(bindings, rest, value);
                assert(attributes[i].value == attributes[last].value);
            }
        }
    }
}

/// An element whose attributes all have different values leaves nothing ambiguous, whatever
/// prefixes they declare, and neither does the end of one.
pub proof fn law_different_values_leave_nothing_ambiguous(
    nesting: NestingView,
    tag: Seq<char>,
    attributes: Seq<PairView>,
)
    requires
        forall|i: int, k: int|
            0 <= i < k < attributes.len() ==> (#[trigger] attributes[i]).value != (
            #[trigger] attributes[k]).value,
    ensures
        nesting.opened(tag, attributes).ambiguous == nesting.ambiguous,
        nesting.closed().ambiguous == nesting.ambiguous,
{
    assert forall|bindings: Seq<PairView>| #[trigger]
        declared(bindings, attributes).no_duplicates() by {
        lemma_declared_distinct(bindings, attributes);
    }
}

proof fn lemma_entity(before: Seq<char>, name: Seq<char>, behind: Seq<char>, c: char)
    requires
        lacks(before, '&'),
        lacks(name, '&'),
        lacks(name, ';'),
        entity_char(name) == Some(c),
    ensures
        unescaped(before + seq!['&'] + name + seq![';'] + behind) == match unescaped(behind) {
            Some(text) => Some(before + seq![c] + text),
            None => None,
        },
{
    let s = before + seq!['&'] + name + seq![';'] + behind;
    let start = before.len() as int;
    let rest = s.skip(start + 1);
    assert(rest =~= name + seq![';'] + behind);
    lemma_first(s, '&', start);
    lemma_first(rest, ';', name.len() as int);
    lemma_position(rest, '&', 0);
    if position(rest, '&') < name.len() {
        assert(rest[position(rest, '&')] == name[position(rest, '&')]);
    }
    assert(rest.take(name.len() as int) =~= name);
    assert(rest.skip(name.len() as int + 1) =~= behind);
    assert(s.take(start) =~= before);
    assert(before.push(c) =~= before + seq![c]);
}

proof fn lemma_first(s: Seq<char>, c: char, at: int)
    requires
        0 <= at < s.len(),
        s[at] == c,
        forall|i: int| 0 <= i < at ==> #[trigger] s[i] != c,
    ensures
        position(s, c) == at,
{
    lemma_position(s, c, 0);
}

proof fn lemma_numeral(n: nat)
    ensures
        numeral(decimal(n), false) == Some(n),
    decreases n,
{
    assert(digit(n % 10) as nat == 48 + n % 10);
    if n < 10 {
        assert(decimal(n).drop_last() =~= seq![]);
        assert(decimal(n).last() == digit(n));
        assert(numeral(decimal(n).drop_last(), false) == Some(0nat));
    } else {
        lemma_numeral(n / 10);
        assert(decimal(n).drop_last() =~= decimal(n / 10));
        assert(decimal(n).last() == digit(n % 10));
    }
}

/// A text without entities stands for itself.
pub proof fn law_texts_without_entities_stand_for_themselves(s: Seq<char>)
    requires
        lacks(s, '&'),
    ensures
        unescaped(s) == Some(s),
{
    lemma_no_entities(s);
}

/// Whether an entity with this name stands for this mark.
pub open spec fn is_name_of_mark(name: Seq<char>, c: char) -> bool {
    ||| name == seq!['l', 't'] && c == '<'
    ||| name == seq!['g', 't'] && c == '>'
    ||| name == seq!['a', 'm', 'p'] && c == '&'
    ||| name == seq!['a', 'p', 'o', 's'] && c == '\''
    ||| name == seq!['q', 'u', 'o', 't'] && c == '"'
}

/// Each of the five named entities stands for its mark, wherever it stands.
pub proof fn law_named_entities_stand_for_their_marks(
    before: Seq<char>,
    name: Seq<char>,
    behind: Seq<char>,
    c: char,
)
    requires
        lacks(before, '&'),
        is_name_of_mark(name, c),
    ensures
        unescaped(before + seq!['&'] + name + seq![';'] + behind) == match unescaped(behind) {
            Some(text) => Some(before + seq![c] + text),
            None => None,
        },
{
    reveal_strlit("quot");
    reveal_strlit("apos");
    reveal_strlit("gt");
    reveal_strlit("lt");
    reveal_strlit("amp");
    assert("lt"@ =~= seq!['l', 't']);
    assert("gt"@ =~= seq!['g', 't']);
    assert("amp"@ =~= seq!['a', 'm', 'p']);
    assert("apos"@ =~= seq!['a', 'p', 'o', 's']);
    assert("quot"@ =~= seq!['q', 'u', 'o', 't']);
    assert("lt"@[0] != "gt"@[0] && "quot"@[0] != "apos"@[0]);
    assert(entity_char(name) == Some(c));
    lemma_entity(before, name, behind, c);
}

/// An entity with a number in decimal stands for the character with that number, wherever it
/// stands.
pub proof fn law_numbered_entities_stand_for_their_characters(
    before: Seq<char>,
    behind: Seq<char>,
    c: char,
)
    requires
        lacks(before, '&'),
    ensures
        unescaped(before + seq!['&'] + (seq!['#'] + decimal(c as nat)) + seq![';'] + behind)
            == match unescaped(behind) {
            Some(text) => Some(before + seq![c] + text),
            None => None,
        },
{
    let digits = decimal(c as nat);
    let name = seq!['#'] + digits;
    law_numbers_are_written_in_decimal(c as nat);
    lemma_numeral(c as nat);
    assert(name.skip(1) =~= digits);
    assert('0' <= digits[0] <= '9');
    assert(name[0] == '#' && name[1] == digits[0]);
    assert forall|i: int| 0 <= i < name.len() implies name[i] != '&' && name[i] != ';' by {
        if i > 0 {
            assert('0' <= digits[i - 1] <= '9');
        }
    }
    assert(entity_char(name) == Some(c)) by {
        reveal_strlit("quot");
        reveal_strlit("apos");
        reveal_strlit("gt");
        reveal_strlit("lt");
        reveal_strlit("amp");
        assert("quot"@[0] == 'q' && "apos"@[0] == 'a' && "gt"@[0] == 'g');
        assert("lt"@[0] == 'l' && "amp"@[0] == 'a');
    }
    lemma_entity(before, name, behind, c);
}

/// What further characters make of a scan.
spec fn goes_on(v: ScanView, s: Seq<char>) -> ScanView
    decreases s.len(),
{
    if s.len() == 0 {
        v
    } else {
        goes_on(v, s.drop_last()).next(s.last())
    }
}

proof fn lemma_scan_goes_on(a: Seq<char>, b: Seq<char>)
    ensures
        scan(a + b) == goes_on(scan(a), b),
    decreases b.len(),
{
    if b.len() == 0 {
        assert(a + b =~= a);
    } else {
        assert((a + b).drop_last() =~= a + b.drop_last());
        assert((a + b).last() == b.last());
        lemma_scan_goes_on(a, b.drop_last());
    }
}

proof fn lemma_goes_on_further(v: ScanView, a: Seq<char>, b: Seq<char>)
    ensures
        goes_on(v, a + b) == goes_on(goes_on(v, a), b),
    decreases b.len(),
{
    if b.len() == 0 {
        assert(a + b =~= a);
    } else {
        assert((a + b).drop_last() =~= a + b.drop_last());
        assert((a + b).last() == b.last());
        lemma_goes_on_further(v, a, b.drop_last());
    }
}

proof fn lemma_one_by_one(v: ScanView, s: Seq<char>, c: char)
    ensures
        goes_on(v, s.push(c)) == goes_on(v, s).next(c),
        goes_on(v, Seq::<char>::empty()) == v,
{
    assert(s.push(c).drop_last() =~= s);
}

/// Outside of tags nothing is counted.
proof fn lemma_outside_counts_nothing(s: Seq<char>)
    ensures
        scan(s).mode is Outside ==> scan(s).level == 0,
    decreases s.len(),
{
    if s.len() > 0 {
        lemma_outside_counts_nothing(s.drop_last());
    }
}

/// Whether a text ends outside of all tags, comments and the like.
pub open spec fn ends_outside(s: Seq<char>) -> bool {
    scan(s).mode is Outside
}

/// What is put into a text at a place outside of all tags makes no difference to what is found in
/// it, if the scan stands behind it as it stood before.
proof fn lemma_inserted(before: Seq<char>, part: Seq<char>, after: Seq<char>)
    requires
        goes_on(scan(before), part) == scan(before),
    ensures
        scan(before + part + after) == scan(before + after),
{
    lemma_scan_goes_on(before, part);
    lemma_scan_goes_on(before + part, after);
    lemma_scan_goes_on(before, after);
}

proof fn lemma_text_kept(v: ScanView, part: Seq<char>)
    requires
        v.mode is Outside,
        lacks(part, '<'),
    ensures
        goes_on(v, part) == v,
    decreases part.len(),
{
    if part.len() > 0 {
        let rest = part.drop_last();
        assert forall|i: int| 0 <= i < rest.len() implies #[trigger] rest[i] != '<' by {
            assert(part[i] != '<');
        }
        lemma_text_kept(v, rest);
        assert(part.last() == part[part.len() - 1]);
    }
}

/// Text between tags makes no difference to whether the whole is readable, but for its length.
pub proof fn law_text_between_tags_does_not_matter(
    before: Seq<char>,
    part: Seq<char>,
    after: Seq<char>,
)
    requires
        ends_outside(before),
        lacks(part, '<'),
        (before + part + after).len() < 0xffff_ffff,
    ensures
        readable(before + part + after) == readable(before + after),
        unambiguous(before + part + after) == unambiguous(before + after),
{
    lemma_text_kept(scan(before), part);
    lemma_inserted(before, part, after);
}

proof fn lemma_comment_kept(v: ScanView, part: Seq<char>)
    requires
        v.mode is Comment,
        v.level == 0,
        lacks(part, '-'),
    ensures
        goes_on(v, part) == v,
    decreases part.len(),
{
    if part.len() > 0 {
        let rest = part.drop_last();
        assert forall|i: int| 0 <= i < rest.len() implies #[trigger] rest[i] != '-' by {
            assert(part[i] != '-');
        }
        lemma_comment_kept(v, rest);
        assert(part.last() == part[part.len() - 1]);
    }
}

/// A comment makes no difference to whether the whole is readable, but for its length, whatever
/// stands in it.
pub proof fn law_comments_do_not_matter(
    before: Seq<char>,
    comment: Seq<char>,
    after: Seq<char>,
)
    requires
        ends_outside(before),
        lacks(comment, '-'),
        (before + (seq!['<', '!', '-', '-'] + comment + seq!['-', '-', '>']) + after).len()
            < 0xffff_ffff,
    ensures
        ({
            let part = seq!['<', '!', '-', '-'] + comment + seq!['-', '-', '>'];
            &&& readable(before + part + after) == readable(before + after)
            &&& unambiguous(before + part + after) == unambiguous(before + after)
        }),
{
    let start = seq!['<', '!', '-', '-'];
    let end = seq!['-', '-', '>'];
    let part = start + comment + end;
    let v = scan(before);
    lemma_outside_counts_nothing(before);
    let none = Seq::<char>::empty();
    lemma_one_by_one(v, none, '<');
    lemma_one_by_one(v, none.push('<'), '!');
    lemma_one_by_one(v, none.push('<').push('!'), '-');
    lemma_one_by_one(v, none.push('<').push('!').push('-'), '-');
    assert(none.push('<').push('!').push('-').push('-') =~= start);
    let inside = goes_on(v, start);
    assert(inside == v.to(Mode::Comment));
    lemma_comment_kept(inside, comment);
    lemma_goes_on_further(v, start, comment);
    lemma_goes_on_further(v, start + comment, end);
    lemma_one_by_one(inside, none, '-');
    lemma_one_by_one(inside, none.push('-'), '-');
    lemma_one_by_one(inside, none.push('-').push('-'), '>');
    assert(none.push('-').push('-').push('>') =~= end);
    assert(goes_on(v, part) == v);
    lemma_inserted(before, part, after);
}

proof fn lemma_instruction_kept(v: ScanView, part: Seq<char>)
    requires
        v.mode is Instruction,
        v.level == 0,
        lacks(part, '?'),
    ensures
        goes_on(v, part) == v,
    decreases part.len(),
{
    if part.len() > 0 {
        let rest = part.drop_last();
        assert forall|i: int| 0 <= i < rest.len() implies #[trigger] rest[i] != '?' by {
            assert(part[i] != '?');
        }
        lemma_instruction_kept(v, rest);
        assert(part.last() == part[part.len() - 1]);
    }
}

/// An instruction such as that of the XML version makes no difference to whether the whole is
/// readable, but for its length.
pub proof fn law_instructions_do_not_matter(
    before: Seq<char>,
    instruction: Seq<char>,
    after: Seq<char>,
)
    requires
        ends_outside(before),
        lacks(instruction, '?'),
        (before + (seq!['<', '?'] + instruction + seq!['?', '>']) + after).len() < 0xffff_ffff,
    ensures
        ({
            let part = seq!['<', '?'] + instruction + seq!['?', '>'];
            &&& readable(before + part + after) == readable(before + after)
            &&& unambiguous(before + part + after) == unambiguous(before + after)
        }),
{
    let start = seq!['<', '?'];
    let end = seq!['?', '>'];
    let part = start + instruction + end;
    let v = scan(before);
    lemma_outside_counts_nothing(before);
    let none = Seq::<char>::empty();
    lemma_one_by_one(v, none, '<');
    lemma_one_by_one(v, none.push('<'), '?');
    assert(none.push('<').push('?') =~= start);
    let inside = goes_on(v, start);
    assert(inside == v.to(Mode::Instruction));
    lemma_instruction_kept(inside, instruction);
    lemma_goes_on_further(v, start, instruction);
    lemma_goes_on_further(v, start + instruction, end);
    lemma_one_by_one(inside, none, '?');
    lemma_one_by_one(inside, none.push('?'), '>');
    assert(none.push('?').push('>') =~= end);
    assert(goes_on(v, part) == v);
    lemma_inserted(before, part, after);
}

} // verus!
