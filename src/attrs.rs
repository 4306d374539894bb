//! Attribute lists: a mapping from names to values, held as pairs in
//! ascending order of name, each name once.
use vstd::prelude::*;
use crate::node::attrs_view;

verus! {

/// Whether the name `a` comes before `b`: ordered character by character by
/// code point, a proper prefix first. This is the order of `String`, since
/// UTF-8 keeps the order of code points.
pub open spec fn key_less(a: Seq<char>, b: Seq<char>) -> bool
    decreases a.len(),
{
    if a.len() == 0 {
        b.len() > 0
    } else if b.len() == 0 {
        false
    } else if a[0] != b[0] {
        a[0] < b[0]
    } else {
        key_less(a.drop_first(), b.drop_first())
    }
}

/// Whether the names of `a` are in strictly ascending order, so each once.
pub open spec fn attrs_sorted(a: Seq<(Seq<char>, Seq<char>)>) -> bool {
    forall|i: int, j: int| 0 <= i < j < a.len() ==> key_less(#[trigger] a[i].0, #[trigger] a[j].0)
}

/// `a` with the name `k` set to `v`: its pair replaced where `k` stands,
/// otherwise a new pair put where the order wants it.
pub open spec fn insert_attr(a: Seq<(Seq<char>, Seq<char>)>, k: Seq<char>, v: Seq<char>) -> Seq<(Seq<char>, Seq<char>)>
    decreases a.len(),
{
    if a.len() == 0 {
        seq![(k, v)]
    } else if a[0].0 == k {
        seq![(k, v)] + a.drop_first()
    } else if key_less(k, a[0].0) {
        seq![(k, v)] + a
    } else {
        seq![a[0]] + insert_attr(a.drop_first(), k, v)
    }
}

/// The attribute mapping that the pairs `a` give, in ascending order of
/// name; where a name comes twice, its last value holds.
pub open spec fn normalize(a: Seq<(Seq<char>, Seq<char>)>) -> Seq<(Seq<char>, Seq<char>)>
    decreases a.len(),
{
    if a.len() == 0 {
        Seq::empty()
    } else {
        insert_attr(normalize(a.drop_last()), a.last().0, a.last().1)
    }
}

proof fn lemma_key_less_asym(a: Seq<char>, b: Seq<char>)
    ensures
        key_less(a, b) ==> !key_less(b, a),
    decreases a.len(),
{
    if a.len() > 0 && b.len() > 0 && a[0] == b[0] {
        lemma_key_less_asym(a.drop_first(), b.drop_first());
    }
}

proof fn lemma_key_less_total(a: Seq<char>, b: Seq<char>)
    ensures
        a != b ==> key_less(a, b) || key_less(b, a),
    decreases a.len(),
{
    if a.len() > 0 && b.len() > 0 && a[0] == b[0] {
        lemma_key_less_total(a.drop_first(), b.drop_first());
        if a.drop_first() == b.drop_first() {
            assert(a =~= seq![a[0]] + a.drop_first());
            assert(b =~= seq![b[0]] + b.drop_first());
        }
    } else if a.len() > 0 && b.len() > 0 {
    } else if a.len() == 0 && b.len() == 0 {
        assert(a =~= b);
    }
}

proof fn lemma_key_less_trans(a: Seq<char>, b: Seq<char>, c: Seq<char>)
    requires
        key_less(a, b),
        key_less(b, c),
    ensures
        key_less(a, c),
    decreases a.len(),
{
    if a.len() > 0 && a[0] == b[0] && b[0] == c[0] {
        lemma_key_less_trans(a.drop_first(), b.drop_first(), c.drop_first());
    }
}

proof fn lemma_insert_sorted(a: Seq<(Seq<char>, Seq<char>)>, k: Seq<char>, v: Seq<char>)
    requires
        attrs_sorted(a),
    ensures
        attrs_sorted(insert_attr(a, k, v)),
        forall|i: int|
            0 <= i < insert_attr(a, k, v).len() ==> (#[trigger] insert_attr(a, k, v)[i]).0 == k || exists|j: int|
                0 <= j < a.len() && a[j].0 == insert_attr(a, k, v)[i].0,
    decreases a.len(),
{
    let r = insert_attr(a, k, v);
    if a.len() == 0 {
    } else {
        let rest = a.drop_first();
        assert forall|i: int, j: int| 0 <= i < j < rest.len() implies key_less(#[trigger] rest[i].0, #[trigger] rest[j].0) by {
            assert(rest[i] == a[i + 1] && rest[j] == a[j + 1]);
        }
        if a[0].0 == k {
            assert forall|i: int, j: int| 0 <= i < j < r.len() implies key_less(#[trigger] r[i].0, #[trigger] r[j].0) by {
                if i == 0 {
                    assert(r[j] == a[j]);
                } else {
                    assert(r[i] == a[i] && r[j] == a[j]);
                }
            }
            assert forall|i: int| 0 <= i < r.len() implies (#[trigger] r[i]).0 == k || exists|j: int|
                0 <= j < a.len() && a[j].0 == r[i].0 by {
                if i > 0 {
                    assert(r[i] == a[i]);
                }
            }
        } else if key_less(k, a[0].0) {
            assert forall|i: int, j: int| 0 <= i < j < r.len() implies key_less(#[trigger] r[i].0, #[trigger] r[j].0) by {
                if i == 0 {
                    assert(r[j] == a[j - 1]);
                    if j > 1 {
                        assert(key_less(a[0].0, a[j - 1].0));
                        lemma_key_less_trans(k, a[0].0, a[j - 1].0);
                    }
                } else {
                    assert(r[i] == a[i - 1] && r[j] == a[j - 1]);
                }
            }
            assert forall|i: int| 0 <= i < r.len() implies (#[trigger] r[i]).0 == k || exists|j: int|
                0 <= j < a.len() && a[j].0 == r[i].0 by {
                if i > 0 {
                    assert(r[i] == a[i - 1]);
                }
            }
        } else {
            lemma_key_less_total(k, a[0].0);
            lemma_insert_sorted(rest, k, v);
            let t = insert_attr(rest, k, v);
            assert(r == seq![a[0]] + t);
            assert forall|i: int, j: int| 0 <= i < j < r.len() implies key_less(#[trigger] r[i].0, #[trigger] r[j].0) by {
                if i == 0 {
                    assert(r[j] == t[j - 1]);
                    if t[j - 1].0 != k {
                        let m = choose|m: int| 0 <= m < rest.len() && rest[m].0 == t[j - 1].0;
                        assert(rest[m] == a[m + 1]);
                    }
                } else {
                    assert(r[i] == t[i - 1] && r[j] == t[j - 1]);
                }
            }
            assert forall|i: int| 0 <= i < r.len() implies (#[trigger] r[i]).0 == k || exists|j: int|
                0 <= j < a.len() && a[j].0 == r[i].0 by {
                if i == 0 {
                    assert(a[0].0 == r[0].0);
                } else {
                    assert(r[i] == t[i - 1]);
                    if t[i - 1].0 != k {
                        let m = choose|m: int| 0 <= m < rest.len() && rest[m].0 == t[i - 1].0;
                        assert(rest[m] == a[m + 1]);
                    }
                }
            }
        }
    }
}

/// An attribute list as the builder keeps it, and as markup writes it, holds
/// its names in strictly ascending order: each name once.
pub proof fn law_attributes_sorted(a: Seq<(Seq<char>, Seq<char>)>)
    ensures
        attrs_sorted(normalize(a)),
    decreases a.len(),
{
    if a.len() > 0 {
        law_attributes_sorted(a.drop_last());
        lemma_insert_sorted(normalize(a.drop_last()), a.last().0, a.last().1);
    }
}

/// The value of the first pair named `key` in `a`.
pub open spec fn lookup(a: Seq<(Seq<char>, Seq<char>)>, key: Seq<char>) -> Option<Seq<char>>
    decreases a.len(),
{
    if a.len() == 0 {
        None
    } else if a[0].0 == key {
        Some(a[0].1)
    } else {
        lookup(a.drop_first(), key)
    }
}

/// The value of the last pair named `key` in `a`.
pub open spec fn last_value(a: Seq<(Seq<char>, Seq<char>)>, key: Seq<char>) -> Option<Seq<char>>
    decreases a.len(),
{
    if a.len() == 0 {
        None
    } else if a.last().0 == key {
        Some(a.last().1)
    } else {
        last_value(a.drop_last(), key)
    }
}

proof fn lemma_lookup_insert(a: Seq<(Seq<char>, Seq<char>)>, k: Seq<char>, v: Seq<char>, key: Seq<char>)
    ensures
        lookup(insert_attr(a, k, v), key) == if key == k {
            Some(v)
        } else {
            lookup(a, key)
        },
    decreases a.len(),
{
    let r = insert_attr(a, k, v);
    if a.len() == 0 {
        assert(r.drop_first() =~= Seq::<(Seq<char>, Seq<char>)>::empty());
        assert(lookup(Seq::<(Seq<char>, Seq<char>)>::empty(), key) is None);
        assert(r[0] == (k, v));
    } else if a[0].0 == k {
        assert(r[0] == (k, v));
        assert(r.drop_first() =~= a.drop_first());
    } else if key_less(k, a[0].0) {
        assert(r[0] == (k, v));
        assert(r.drop_first() =~= a);
    } else {
        lemma_lookup_insert(a.drop_first(), k, v, key);
        assert(r[0] == a[0]);
        assert(r.drop_first() =~= insert_attr(a.drop_first(), k, v));
    }
}

/// The builder's attribute mapping gives each name the last value that the
/// pairs `a` gave it, and holds no other name.
pub proof fn law_attributes_last_value(a: Seq<(Seq<char>, Seq<char>)>, key: Seq<char>)
    ensures
        lookup(normalize(a), key) == last_value(a, key),
    decreases a.len(),
{
    if a.len() > 0 {
        law_attributes_last_value(a.drop_last(), key);
        lemma_lookup_insert(normalize(a.drop_last()), a.last().0, a.last().1, key);
    }
}

/// Whether the name `a` comes before `b`.
pub fn name_less(a: &str, b: &str) -> (r: bool)
    ensures
        r == key_less(a@, b@),
{
    let la = a.unicode_len();
    let lb = b.unicode_len();
    let mut i: usize = 0;
    assert(a@.subrange(0, la as int) =~= a@);
    assert(b@.subrange(0, lb as int) =~= b@);
    while i < la && i < lb
        invariant
            i <= la,
            i <= lb,
            la == a@.len(),
            lb == b@.len(),
            key_less(a@, b@) == key_less(a@.subrange(i as int, la as int), b@.subrange(i as int, lb as int)),
        decreases la - i,
    {
        let ghost sa = a@.subrange(i as int, la as int);
        let ghost sb = b@.subrange(i as int, lb as int);
        assert(sa.drop_first() =~= a@.subrange(i + 1, la as int));
        assert(sb.drop_first() =~= b@.subrange(i + 1, lb as int));
        let c = a.get_char(i);
        let d = b.get_char(i);
        assert(sa[0] == c && sb[0] == d);
        if c != d {
            return c < d;
        }
        i += 1;
    }
    assert(a@.subrange(i as int, la as int).len() == la - i);
    i >= la && i < lb
}

/// Sets the name `k` to `v` in the attribute list `attrs`.
fn set_attr(attrs: &mut Vec<(String, String)>, k: String, v: String)
    ensures
        attrs_view(final(attrs)@) == insert_attr(attrs_view(old(attrs)@), k@, v@),
{
    let ghost a = attrs_view(attrs@);
    let mut i: usize = 0;
    assert(a.subrange(0, a.len() as int) =~= a);
    while i < attrs.len()
        invariant
            i <= attrs.len(),
            a == attrs_view(old(attrs)@),
            attrs@ == old(attrs)@,
            a.len() == attrs@.len(),
            insert_attr(a, k@, v@) == a.subrange(0, i as int) + insert_attr(a.subrange(i as int, a.len() as int), k@, v@),
        decreases attrs.len() - i,
    {
        let ghost rest = a.subrange(i as int, a.len() as int);
        assert(rest[0] == a[i as int]);
        assert(a[i as int] == (attrs@[i as int].0@, attrs@[i as int].1@));
        assert(rest.drop_first() =~= a.subrange(i + 1, a.len() as int));
        let same = crate::decode::same_text(attrs[i].0.as_str(), k.as_str());
        if same {
            attrs.set(i, (k, v));
            assert(attrs_view(attrs@) =~= a.subrange(0, i as int) + (seq![(k@, v@)] + rest.drop_first()));
            return;
        }
        if name_less(k.as_str(), attrs[i].0.as_str()) {
            attrs.insert(i, (k, v));
            assert(attrs_view(attrs@) =~= a.subrange(0, i as int) + (seq![(k@, v@)] + rest));
            return;
        }
        assert(a.subrange(0, i + 1) =~= a.subrange(0, i as int) + seq![a[i as int]]);
        assert(a.subrange(0, i as int) + (seq![a[i as int]] + insert_attr(rest.drop_first(), k@, v@)) =~= a.subrange(
            0,
            i + 1,
        ) + insert_attr(a.subrange(i + 1, a.len() as int), k@, v@));
        i += 1;
    }
    assert(a.subrange(i as int, a.len() as int) =~= Seq::<(Seq<char>, Seq<char>)>::empty());
    attrs.push((k, v));
    assert(attrs_view(attrs@) =~= a.subrange(0, i as int) + seq![(k@, v@)]);
}

/// The attribute mapping of the pairs `a`, in ascending order of name, each
/// name once with its last value.
pub fn normalized(a: &Vec<(String, String)>) -> (r: Vec<(String, String)>)
    ensures
        attrs_view(r@) == normalize(attrs_view(a@)),
{
    let ghost av = attrs_view(a@);
    let mut out: Vec<(String, String)> = Vec::new();
    let mut i: usize = 0;
    assert(av.subrange(0, 0) =~= Seq::<(Seq<char>, Seq<char>)>::empty());
    assert(attrs_view(out@) =~= Seq::<(Seq<char>, Seq<char>)>::empty());
    while i < a.len()
        invariant
            i <= a.len(),
            av == attrs_view(a@),
            av.len() == a@.len(),
            attrs_view(out@) == normalize(av.subrange(0, i as int)),
        decreases a.len() - i,
    {
        assert(av.subrange(0, i + 1).drop_last() =~= av.subrange(0, i as int));
        assert(av[i as int] == (a@[i as int].0@, a@[i as int].1@));
        let k = a[i].0.clone();
        let v = a[i].1.clone();
        set_attr(&mut out, k, v);
        i += 1;
    }
    assert(av.subrange(0, a.len() as int) =~= av);
    out
}

} // verus!
