//! Properties of decoding that hold for every document.
use vstd::prelude::*;
use crate::decode::{
    is_named, named_children, first_named, scalar_text, spec_str, spec_option, spec_read, spec_field, spec_seq,
    spec_seq_elt, spec_struct, XmlDecodeError,
};
use crate::node::{add_child, build_run, build_spec, first_element, synthetic_root, top_level, Node, ParseEvent};
use crate::scalar::{all_digits, digits_value, spec_parse_i64, spec_parse_u64, unsigned_part};

verus! {

/// The decimal digit for `d`, which is below ten.
pub open spec fn digit_char(d: nat) -> char {
    if d == 0 { '0' } else if d == 1 { '1' } else if d == 2 { '2' } else if d == 3 { '3' }
    else if d == 4 { '4' } else if d == 5 { '5' } else if d == 6 { '6' } else if d == 7 { '7' }
    else if d == 8 { '8' } else { '9' }
}

/// `v` written in decimal, without sign or leading zeros.
pub open spec fn decimal_text(v: nat) -> Seq<char>
    decreases v,
{
    if v < 10 {
        seq![digit_char(v)]
    } else {
        decimal_text(v / 10).push(digit_char(v % 10))
    }
}

/// `v` written in decimal, with a leading `-` when it is negative.
pub open spec fn signed_text(v: int) -> Seq<char> {
    if v < 0 {
        seq!['-'] + decimal_text((-v) as nat)
    } else {
        decimal_text(v as nat)
    }
}

proof fn lemma_digit_char(d: nat)
    requires
        d < 10,
    ensures
        '0' <= digit_char(d) && digit_char(d) <= '9',
        digit_char(d) as nat - '0' as nat == d,
{
}

proof fn lemma_decimal_text(v: nat)
    ensures
        decimal_text(v).len() > 0,
        all_digits(decimal_text(v)),
        digits_value(decimal_text(v)) == v,
        decimal_text(v)[0] != '+',
        decimal_text(v)[0] != '-',
    decreases v,
{
    lemma_digit_char(v % 10);
    if v < 10 {
        lemma_digit_char(v);
        let t = decimal_text(v);
        assert(t.drop_last() =~= Seq::<char>::empty());
        assert(digits_value(Seq::<char>::empty()) == 0);
        assert(t.last() == digit_char(v));
        assert(digits_value(t) == digits_value(t.drop_last()) * 10 + (t.last() as nat - '0' as nat) as nat);
    } else {
        lemma_decimal_text(v / 10);
        let t = decimal_text(v);
        assert(t.drop_last() =~= decimal_text(v / 10));
        assert(t.last() == digit_char(v % 10));
        assert(digits_value(t) == digits_value(decimal_text(v / 10)) * 10 + (v % 10));
        assert(v == (v / 10) * 10 + v % 10);
    }
}

/// A text node holding an unsigned value in decimal reads back as that value;
/// the narrower unsigned reads keep it too, when it fits their width.
pub proof fn law_unsigned_round_trip(v: u64)
    ensures
        spec_read::<u64>(Node::Text { content: decimal_text(v as nat) }) == Ok::<u64, XmlDecodeError>(v),
{
    lemma_decimal_text(v as nat);
    assert(unsigned_part(decimal_text(v as nat), false) == decimal_text(v as nat));
    assert(spec_parse_u64(decimal_text(v as nat)) == Some(v));
}

/// A text node holding a signed value in decimal reads back as that value.
pub proof fn law_signed_round_trip(v: i64)
    ensures
        spec_read::<i64>(Node::Text { content: signed_text(v as int) }) == Ok::<i64, XmlDecodeError>(v),
{
    let m: nat = if v < 0 { (-v) as nat } else { v as nat };
    lemma_decimal_text(m);
    let t = signed_text(v as int);
    if v < 0 {
        assert(t.drop_first() =~= decimal_text(m));
        assert(unsigned_part(t, true) == decimal_text(m));
    } else {
        assert(unsigned_part(t, true) == decimal_text(m));
    }
    assert(spec_parse_i64(t) == Some(v));
}

/// A text node holding one character reads back as that character.
pub proof fn law_char_round_trip(c: char)
    ensures
        spec_read::<char>(Node::Text { content: seq![c] }) == Ok::<char, XmlDecodeError>(c),
{
}

/// A text node reads back, as text, exactly as it stands.
pub proof fn law_text_round_trip(s: Seq<char>)
    ensures
        scalar_text(Node::Text { content: s }) == Ok::<Seq<char>, XmlDecodeError>(s),
{
}

/// Booleans are bytes: the text `1` reads as a nonzero byte, `0` as zero, and
/// `true` is no byte at all.
pub proof fn law_bool_as_byte()
    ensures
        spec_read::<u64>(Node::Text { content: seq!['1'] }) == Ok::<u64, XmlDecodeError>(1),
        spec_read::<u64>(Node::Text { content: seq!['0'] }) == Ok::<u64, XmlDecodeError>(0),
        spec_read::<u64>(Node::Text { content: seq!['t', 'r', 'u', 'e'] }) == Err::<u64, XmlDecodeError>(
            XmlDecodeError::InvalidFormat,
        ),
{
    law_unsigned_round_trip(1);
    law_unsigned_round_trip(0);
    assert(decimal_text(1) =~= seq!['1']);
    assert(decimal_text(0) =~= seq!['0']);
    assert(!all_digits(seq!['t', 'r', 'u', 'e'])) by {
        assert(!('0' <= 't' && 't' <= '9'));
    }
}

/// Entering a record checks the element's name alone: an element of another
/// name fails with `InvalidFormat`, whatever its children.
pub proof fn law_record_name(
    m: Seq<char>,
    attributes: Seq<(Seq<char>, Seq<char>)>,
    children: Seq<Node>,
    name: Seq<char>,
)
    ensures
        m != name ==> spec_struct(Node::Element { name: m, attributes, children }, name) == Err::<(), XmlDecodeError>(
            XmlDecodeError::InvalidFormat,
        ),
        m == name ==> spec_struct(Node::Element { name: m, attributes, children }, name) == Ok::<(), XmlDecodeError>(()),
{
}

proof fn lemma_first_named(s: Seq<Node>, f: Seq<char>)
    ensures
        first_named(s, f) == if named_children(s, f).len() > 0 {
            Some(named_children(s, f)[0])
        } else {
            None
        },
    decreases s.len(),
{
    if s.len() > 0 {
        lemma_first_named(s.drop_first(), f);
    }
}

/// Field lookup goes by name, not by position: two records whose children
/// hold the same elements named `f`, in the same order, however the other
/// children stand around them, give the same field, optional field and
/// sequence members for `f`.
pub proof fn law_field_by_name(
    name: Seq<char>,
    attributes: Seq<(Seq<char>, Seq<char>)>,
    c1: Seq<Node>,
    c2: Seq<Node>,
    f: Seq<char>,
)
    requires
        named_children(c1, f) == named_children(c2, f),
    ensures
        spec_field(Node::Element { name, attributes, children: c1 }, f) == spec_field(
            Node::Element { name, attributes, children: c2 },
            f,
        ),
        spec_option(Node::Element { name, attributes, children: c1 }, f) == spec_option(
            Node::Element { name, attributes, children: c2 },
            f,
        ),
        spec_seq(Node::Element { name, attributes, children: c1 }, f) == spec_seq(
            Node::Element { name, attributes, children: c2 },
            f,
        ),
        forall|i: int|
            spec_seq_elt(Node::Element { name, attributes, children: c1 }, f, i) == #[trigger] spec_seq_elt(
                Node::Element { name, attributes, children: c2 },
                f,
                i,
            ),
{
    lemma_first_named(c1, f);
    lemma_first_named(c2, f);
}

/// Whether no two element children of `c` share a name.
pub open spec fn distinct_names(c: Seq<Node>) -> bool {
    forall|i: int, j: int|
        0 <= i < j < c.len() && c[i] is Element && c[j] is Element ==> (#[trigger] c[i])->Element_name
            != (#[trigger] c[j])->Element_name
}

proof fn lemma_named_absent(c: Seq<Node>, f: Seq<char>)
    requires
        forall|i: int| 0 <= i < c.len() ==> !is_named(#[trigger] c[i], f),
    ensures
        named_children(c, f) == Seq::<Node>::empty(),
    decreases c.len(),
{
    if c.len() > 0 {
        assert(!is_named(c[0], f));
        assert forall|i: int| 0 <= i < c.drop_first().len() implies !is_named(#[trigger] c.drop_first()[i], f) by {
            assert(c.drop_first()[i] == c[i + 1]);
        }
        lemma_named_absent(c.drop_first(), f);
    }
}

proof fn lemma_named_distinct(c: Seq<Node>, f: Seq<char>, i: int)
    requires
        distinct_names(c),
        0 <= i < c.len(),
        is_named(c[i], f),
    ensures
        named_children(c, f) == seq![c[i]],
    decreases c.len(),
{
    let rest = c.drop_first();
    assert forall|a: int, b: int| 0 <= a < b < rest.len() && rest[a] is Element && rest[b] is Element implies (
    #[trigger] rest[a])->Element_name != (#[trigger] rest[b])->Element_name by {
        assert(rest[a] == c[a + 1] && rest[b] == c[b + 1]);
    }
    if i == 0 {
        assert forall|k: int| 0 <= k < rest.len() implies !is_named(#[trigger] rest[k], f) by {
            assert(rest[k] == c[k + 1]);
            if is_named(c[k + 1], f) {
                assert(c[0] is Element && c[k + 1] is Element);
            }
        }
        lemma_named_absent(rest, f);
        assert(seq![c[0]] + Seq::<Node>::empty() =~= seq![c[0]]);
    } else {
        if is_named(c[0], f) {
            assert(c[0] is Element && c[i] is Element);
        }
        assert(rest[i - 1] == c[i]);
        lemma_named_distinct(rest, f, i - 1);
    }
}

/// Reordering the children of a record, each element child named apart from
/// the others, changes no lookup: `c1` and `c2` hold the same nodes, so every
/// field, optional field and sequence member reads the same.
pub proof fn law_reorder_distinct(
    name: Seq<char>,
    attributes: Seq<(Seq<char>, Seq<char>)>,
    c1: Seq<Node>,
    c2: Seq<Node>,
    f: Seq<char>,
)
    requires
        distinct_names(c1),
        distinct_names(c2),
        forall|x: Node| c1.contains(x) <==> c2.contains(x),
    ensures
        named_children(c1, f) == named_children(c2, f),
        spec_field(Node::Element { name, attributes, children: c1 }, f) == spec_field(
            Node::Element { name, attributes, children: c2 },
            f,
        ),
        spec_option(Node::Element { name, attributes, children: c1 }, f) == spec_option(
            Node::Element { name, attributes, children: c2 },
            f,
        ),
        spec_seq(Node::Element { name, attributes, children: c1 }, f) == spec_seq(
            Node::Element { name, attributes, children: c2 },
            f,
        ),
        forall|i: int|
            spec_seq_elt(Node::Element { name, attributes, children: c1 }, f, i) == #[trigger] spec_seq_elt(
                Node::Element { name, attributes, children: c2 },
                f,
                i,
            ),
{
    if exists|i: int| 0 <= i < c1.len() && is_named(#[trigger] c1[i], f) {
        let i = choose|i: int| 0 <= i < c1.len() && is_named(#[trigger] c1[i], f);
        assert(c1.contains(c1[i]));
        let j = choose|j: int| 0 <= j < c2.len() && c2[j] == c1[i];
        lemma_named_distinct(c1, f, i);
        lemma_named_distinct(c2, f, j);
    } else {
        lemma_named_absent(c1, f);
        assert forall|j: int| 0 <= j < c2.len() implies !is_named(#[trigger] c2[j], f) by {
            if is_named(c2[j], f) {
                assert(c2.contains(c2[j]));
                let i = choose|i: int| 0 <= i < c1.len() && c1[i] == c2[j];
                assert(is_named(c1[i], f));
            }
        }
        lemma_named_absent(c2, f);
    }
    law_field_by_name(name, attributes, c1, c2, f);
}

proof fn lemma_named_concat(a: Seq<Node>, b: Seq<Node>, f: Seq<char>)
    ensures
        named_children(a + b, f) == named_children(a, f) + named_children(b, f),
    decreases a.len(),
{
    if a.len() == 0 {
        assert(a + b =~= b);
        assert(named_children(a, f) + named_children(b, f) =~= named_children(b, f));
    } else {
        lemma_named_concat(a.drop_first(), b, f);
        assert((a + b).drop_first() =~= a.drop_first() + b);
        assert((a + b)[0] == a[0]);
        if is_named(a[0], f) {
            assert(seq![a[0]] + (named_children(a.drop_first(), f) + named_children(b, f)) =~= (seq![a[0]]
                + named_children(a.drop_first(), f)) + named_children(b, f));
        }
    }
}

/// Swapping two neighbouring children that are not both named `f` keeps the
/// elements named `f` and their order, and so, by `law_field_by_name`, every
/// lookup of `f`.
pub proof fn law_swap_keeps_named(s: Seq<Node>, i: int, f: Seq<char>)
    requires
        0 <= i,
        i + 1 < s.len(),
        !(is_named(s[i], f) && is_named(s[i + 1], f)),
    ensures
        named_children(s.update(i, s[i + 1]).update(i + 1, s[i]), f) == named_children(s, f),
{
    let t = s.update(i, s[i + 1]).update(i + 1, s[i]);
    let pre = s.subrange(0, i);
    let post = s.subrange(i + 2, s.len() as int);
    assert(s =~= pre + (seq![s[i], s[i + 1]] + post));
    assert(t =~= pre + (seq![s[i + 1], s[i]] + post));
    lemma_named_concat(pre, seq![s[i], s[i + 1]] + post, f);
    lemma_named_concat(pre, seq![s[i + 1], s[i]] + post, f);
    lemma_named_concat(seq![s[i], s[i + 1]], post, f);
    lemma_named_concat(seq![s[i + 1], s[i]], post, f);
    let x = seq![s[i]];
    let y = seq![s[i + 1]];
    assert(seq![s[i], s[i + 1]] =~= x + y);
    assert(seq![s[i + 1], s[i]] =~= y + x);
    lemma_named_concat(x, y, f);
    lemma_named_concat(y, x, f);
    assert(x.drop_first() =~= Seq::<Node>::empty());
    assert(y.drop_first() =~= Seq::<Node>::empty());
    assert(named_children(Seq::<Node>::empty(), f) =~= Seq::<Node>::empty());
    assert(x[0] == s[i]);
    assert(y[0] == s[i + 1]);
    assert(named_children(x, f) =~= if is_named(s[i], f) { x } else { Seq::<Node>::empty() });
    assert(named_children(y, f) =~= if is_named(s[i + 1], f) { y } else { Seq::<Node>::empty() });
    assert(named_children(x, f) + named_children(y, f) =~= named_children(y, f) + named_children(x, f));
}

/// A sequence field written as `s.len()` sibling elements of its name reads
/// as a sequence of exactly that length, its members in document order; no
/// such element is an empty sequence.
pub proof fn law_sequence_length(
    name: Seq<char>,
    attributes: Seq<(Seq<char>, Seq<char>)>,
    s: Seq<Node>,
    f: Seq<char>,
)
    requires
        forall|i: int| 0 <= i < s.len() ==> is_named(#[trigger] s[i], f),
    ensures
        spec_seq(Node::Element { name, attributes, children: s }, f) == Ok::<nat, XmlDecodeError>(s.len()),
        forall|i: int|
            0 <= i < s.len() ==> #[trigger] spec_seq_elt(Node::Element { name, attributes, children: s }, f, i)
                == Ok::<Node, XmlDecodeError>(s[i]),
    decreases s.len(),
{
    lemma_all_named(s, f);
}

proof fn lemma_all_named(s: Seq<Node>, f: Seq<char>)
    requires
        forall|i: int| 0 <= i < s.len() ==> is_named(#[trigger] s[i], f),
    ensures
        named_children(s, f) == s,
    decreases s.len(),
{
    if s.len() > 0 {
        assert(forall|i: int| 0 <= i < s.drop_first().len() ==> s.drop_first()[i] == s[i + 1]);
        lemma_all_named(s.drop_first(), f);
        assert(seq![s[0]] + s.drop_first() =~= s);
    }
}

/// An optional field with no element of its name is absent; one whose first
/// element of that name is empty (here with attributes `a`) is present, and
/// reads as empty text: the two outcomes differ.
pub proof fn law_option_presence(
    name: Seq<char>,
    attributes: Seq<(Seq<char>, Seq<char>)>,
    s: Seq<Node>,
    f: Seq<char>,
    a: Seq<(Seq<char>, Seq<char>)>,
)
    ensures
        (forall|i: int| 0 <= i < s.len() ==> !is_named(#[trigger] s[i], f)) ==> spec_option(
            Node::Element { name, attributes, children: s },
            f,
        ) == Ok::<Option<Node>, XmlDecodeError>(None),
        first_named(s, f) == Some(Node::Element { name: f, attributes: a, children: Seq::empty() }) ==> spec_option(
            Node::Element { name, attributes, children: s },
            f,
        ) == Ok::<Option<Node>, XmlDecodeError>(
            Some(Node::Element { name: f, attributes: a, children: Seq::empty() }),
        ),
        scalar_text(Node::Element { name: f, attributes: a, children: Seq::empty() }) == Ok::<
            Seq<char>,
            XmlDecodeError,
        >(Seq::empty()),
        spec_str(Node::Element { name: f, attributes: a, children: Seq::empty() }) == Ok::<
            Seq<char>,
            XmlDecodeError,
        >(Seq::empty()),
{
    lemma_none_named(s, f);
}

proof fn lemma_none_named(s: Seq<Node>, f: Seq<char>)
    ensures
        (forall|i: int| 0 <= i < s.len() ==> !is_named(#[trigger] s[i], f)) ==> first_named(s, f) is None,
    decreases s.len(),
{
    if s.len() > 0 {
        lemma_none_named(s.drop_first(), f);
        if forall|i: int| 0 <= i < s.len() ==> !is_named(#[trigger] s[i], f) {
            assert(!is_named(s[0], f));
            assert forall|i: int| 0 <= i < s.drop_first().len() implies !is_named(
                #[trigger] s.drop_first()[i],
                f,
            ) by {
                assert(s.drop_first()[i] == s[i + 1]);
            }
        }
    }
}

proof fn lemma_run_concat(st: Seq<Node>, a: Seq<ParseEvent>, b: Seq<ParseEvent>)
    requires
        forall|i: int| 0 <= i < a.len() ==> !(#[trigger] a[i] is EndDocument),
        build_run(st, a) is Ok,
    ensures
        build_run(st, a + b) == build_run(build_run(st, a)->Ok_0, b),
    decreases a.len(),
{
    if a.len() == 0 {
        assert(a + b =~= b);
    } else {
        assert((a + b)[0] == a[0]);
        assert((a + b).drop_first() =~= a.drop_first() + b);
        assert(!(a[0] is EndDocument));
        assert forall|i: int| 0 <= i < a.drop_first().len() implies !(#[trigger] a.drop_first()[i] is EndDocument) by {
            assert(a.drop_first()[i] == a[i + 1]);
        }
        let rest = a.drop_first();
        match a[0] {
            ParseEvent::StartElement { name, attributes } => {
                lemma_run_concat(
                    st.push(
                        Node::Element {
                            name: name@,
                            attributes: crate::attrs::normalize(crate::node::attrs_view(attributes@)),
                            children: Seq::empty(),
                        },
                    ),
                    rest,
                    b,
                );
            },
            ParseEvent::EndElement { .. } => {
                if st.len() >= 2 {
                    lemma_run_concat(add_child(st.drop_last(), st.last()), rest, b);
                }
            },
            ParseEvent::Characters(t) => {
                lemma_run_concat(add_child(st, Node::Text { content: t@ }), rest, b);
            },
            ParseEvent::CData(t) => {
                lemma_run_concat(add_child(st, Node::Text { content: t@ }), rest, b);
            },
            ParseEvent::Error(_) => {},
            ParseEvent::EndDocument => {},
            _ => {
                lemma_run_concat(st, rest, b);
            },
        }
    }
}

/// Whether `n` is the element `r0` with possibly more children after its own.
spec fn extends(r0: Node, n: Node) -> bool {
    &&& r0 is Element
    &&& n is Element
    &&& n->Element_name == r0->Element_name
    &&& n->Element_attributes == r0->Element_attributes
    &&& r0->Element_children.len() <= n->Element_children.len()
    &&& n->Element_children.subrange(0, r0->Element_children.len() as int) == r0->Element_children
}

proof fn lemma_add_child_extends(r0: Node, st: Seq<Node>, c: Node)
    requires
        st.len() >= 1,
        extends(r0, st[0]),
    ensures
        add_child(st, c).len() == st.len(),
        extends(r0, add_child(st, c)[0]),
{
    match st.last() {
        Node::Element { name, attributes, children } => {
            let k = r0->Element_children.len() as int;
            if st.len() == 1 {
                assert(children.push(c).subrange(0, k) =~= children.subrange(0, k));
            } else {
                assert(add_child(st, c)[0] == st[0]);
            }
        },
        Node::Text { .. } => {},
    }
}

proof fn lemma_run_extends(r0: Node, st: Seq<Node>, evs: Seq<ParseEvent>)
    requires
        st.len() >= 1,
        extends(r0, st[0]),
        build_run(st, evs) is Ok,
    ensures
        build_run(st, evs)->Ok_0.len() >= 1,
        extends(r0, build_run(st, evs)->Ok_0[0]),
    decreases evs.len(),
{
    if evs.len() > 0 {
        let rest = evs.drop_first();
        match evs[0] {
            ParseEvent::StartElement { name, attributes } => {
                let n = Node::Element {
                    name: name@,
                    attributes: crate::attrs::normalize(crate::node::attrs_view(attributes@)),
                    children: Seq::empty(),
                };
                assert(st.push(n)[0] == st[0]);
                lemma_run_extends(r0, st.push(n), rest);
            },
            ParseEvent::EndElement { .. } => {
                if st.len() >= 2 {
                    assert(st.drop_last()[0] == st[0]);
                    lemma_add_child_extends(r0, st.drop_last(), st.last());
                    lemma_run_extends(r0, add_child(st.drop_last(), st.last()), rest);
                }
            },
            ParseEvent::Characters(t) => {
                lemma_add_child_extends(r0, st, Node::Text { content: t@ });
                lemma_run_extends(r0, add_child(st, Node::Text { content: t@ }), rest);
            },
            ParseEvent::CData(t) => {
                lemma_add_child_extends(r0, st, Node::Text { content: t@ });
                lemma_run_extends(r0, add_child(st, Node::Text { content: t@ }), rest);
            },
            ParseEvent::Error(_) => {},
            ParseEvent::EndDocument => {},
            _ => {
                lemma_run_extends(r0, st, rest);
            },
        }
    }
}

proof fn lemma_first_element_prefix(s: Seq<Node>, t: Seq<Node>, e: Node)
    requires
        first_element(s) == Some(e),
        s.len() <= t.len(),
        t.subrange(0, s.len() as int) == s,
    ensures
        first_element(t) == Some(e),
    decreases s.len(),
{
    assert(s.len() > 0);
    assert(t[0] == t.subrange(0, s.len() as int)[0]);
    if !(s[0] is Element) {
        assert(t.drop_first().subrange(0, s.len() - 1) =~= s.drop_first());
        lemma_first_element_prefix(s.drop_first(), t.drop_first(), e);
    }
}

/// Content after the first top-level element, once that element is closed,
/// leaves the decoded root unchanged: the root is still that element,
/// whatever follows, unless what follows is itself a fatal build error (an
/// upstream error or an end tag with no element open).
pub proof fn law_trailing_content(pre: Seq<ParseEvent>, post: Seq<ParseEvent>, r: Node, e: Node)
    requires
        forall|i: int| 0 <= i < pre.len() ==> !(#[trigger] pre[i] is EndDocument),
        build_run(seq![synthetic_root()], pre) == Ok::<Seq<Node>, crate::node::BuildError>(seq![r]),
        first_element(r->Element_children) == Some(e),
        build_run(seq![r], post) is Ok,
    ensures
        build_spec(pre + post) == Ok::<Node, crate::node::BuildError>(e),
{
    let root = synthetic_root();
    assert(root->Element_children.subrange(0, 0) =~= root->Element_children);
    lemma_run_extends(root, seq![root], pre);
    assert(seq![r][0] == r);
    lemma_run_concat(seq![root], pre, post);
    assert(r->Element_children.subrange(0, r->Element_children.len() as int) =~= r->Element_children);
    lemma_run_extends(r, seq![r], post);
    let st2 = build_run(seq![r], post)->Ok_0;
    lemma_first_element_prefix(r->Element_children, st2[0]->Element_children, e);
}

/// Content after a prefix of the events that closes every element it opens
/// only adds top-level nodes: the top-level nodes of `pre` stay the first
/// ones, in order, unless what follows is itself a fatal build error.
pub proof fn law_trailing_top_level(pre: Seq<ParseEvent>, post: Seq<ParseEvent>)
    requires
        forall|i: int| 0 <= i < pre.len() ==> !(#[trigger] pre[i] is EndDocument),
        build_run(seq![synthetic_root()], pre) is Ok,
        build_run(seq![synthetic_root()], pre)->Ok_0.len() == 1,
        build_run(build_run(seq![synthetic_root()], pre)->Ok_0, post) is Ok,
    ensures
        top_level(pre) is Ok,
        top_level(pre + post) is Ok,
        top_level(pre)->Ok_0.len() <= top_level(pre + post)->Ok_0.len(),
        top_level(pre + post)->Ok_0.subrange(0, top_level(pre)->Ok_0.len() as int) == top_level(pre)->Ok_0,
{
    let root = synthetic_root();
    assert(root->Element_children.subrange(0, 0) =~= root->Element_children);
    lemma_run_extends(root, seq![root], pre);
    let st = build_run(seq![root], pre)->Ok_0;
    let r = st[0];
    assert(st =~= seq![r]);
    lemma_run_concat(seq![root], pre, post);
    assert(r->Element_children.subrange(0, r->Element_children.len() as int) =~= r->Element_children);
    lemma_run_extends(r, seq![r], post);
}

} // verus!
