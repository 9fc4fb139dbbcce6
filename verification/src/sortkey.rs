//! Sort keys made of texts and numbers, compared part by part, and a stable
//! sort of keyed items: the orders reports are listed in.

use vstd::prelude::*;

use crate::text::{compare_text, lemma_text_lt_irreflexive, lemma_text_lt_total, lemma_text_lt_transitive, text_lt};

verus! {

/// One part of a sort key.
pub enum KeyPart {
    Num(i128),
    Text(String),
}

/// One part of a sort key, by value.
pub enum KeyView {
    Num(int),
    Text(Seq<char>),
}

impl View for KeyPart {
    type V = KeyView;

    open spec fn view(&self) -> KeyView {
        match self {
            KeyPart::Num(n) => KeyView::Num(*n as int),
            KeyPart::Text(t) => KeyView::Text(t@),
        }
    }
}

pub open spec fn key_view(k: Seq<KeyPart>) -> Seq<KeyView> {
    k.map_values(|p: KeyPart| p@)
}

/// Numbers before texts; numbers by value, texts in `str` order.
pub open spec fn part_lt(a: KeyView, b: KeyView) -> bool {
    match (a, b) {
        (KeyView::Num(x), KeyView::Num(y)) => x < y,
        (KeyView::Text(x), KeyView::Text(y)) => text_lt(x, y),
        (KeyView::Num(_), KeyView::Text(_)) => true,
        (KeyView::Text(_), KeyView::Num(_)) => false,
    }
}

/// Keys compared part by part; a key that runs out first is the smaller.
pub open spec fn key_lt(a: Seq<KeyView>, b: Seq<KeyView>) -> bool
    decreases a.len(),
{
    if a.len() == 0 {
        b.len() > 0
    } else if b.len() == 0 {
        false
    } else if a[0] == b[0] {
        key_lt(a.drop_first(), b.drop_first())
    } else {
        part_lt(a[0], b[0])
    }
}

proof fn lemma_part_lt(a: KeyView, b: KeyView, c: KeyView)
    ensures
        !part_lt(a, a),
        part_lt(a, b) && part_lt(b, c) ==> part_lt(a, c),
        a != b ==> part_lt(a, b) || part_lt(b, a),
{
    match a {
        KeyView::Text(x) => {
            lemma_text_lt_irreflexive(x);
            match b {
                KeyView::Text(y) => {
                    lemma_text_lt_total(x, y);
                    match c {
                        KeyView::Text(z) => {
                            if text_lt(x, y) && text_lt(y, z) {
                                lemma_text_lt_transitive(x, y, z);
                            }
                        },
                        _ => {},
                    }
                },
                _ => {},
            }
        },
        _ => {},
    }
}

pub proof fn lemma_key_lt_irreflexive(a: Seq<KeyView>)
    ensures
        !key_lt(a, a),
    decreases a.len(),
{
    if a.len() > 0 {
        lemma_key_lt_irreflexive(a.drop_first());
    }
}

pub proof fn lemma_key_lt_transitive(a: Seq<KeyView>, b: Seq<KeyView>, c: Seq<KeyView>)
    requires
        key_lt(a, b),
        key_lt(b, c),
    ensures
        key_lt(a, c),
    decreases a.len(),
{
    if a.len() > 0 && b.len() > 0 && c.len() > 0 {
        lemma_part_lt(a[0], b[0], c[0]);
        if a[0] == b[0] && b[0] == c[0] {
            lemma_key_lt_transitive(a.drop_first(), b.drop_first(), c.drop_first());
        }
    }
}

pub proof fn lemma_key_lt_total(a: Seq<KeyView>, b: Seq<KeyView>)
    ensures
        key_lt(a, b) || key_lt(b, a) || a == b,
    decreases a.len(),
{
    if a.len() > 0 && b.len() > 0 {
        lemma_part_lt(a[0], b[0], a[0]);
        if a[0] == b[0] {
            lemma_key_lt_total(a.drop_first(), b.drop_first());
            if a.drop_first() == b.drop_first() {
                assert(a =~= seq![a[0]] + a.drop_first());
                assert(b =~= seq![b[0]] + b.drop_first());
            }
        }
    } else if a.len() == 0 && b.len() == 0 {
        assert(a =~= b);
    }
}

/// Not-after is transitive.
pub proof fn lemma_key_le_transitive(a: Seq<KeyView>, b: Seq<KeyView>, c: Seq<KeyView>)
    requires
        !key_lt(b, a),
        !key_lt(c, b),
    ensures
        !key_lt(c, a),
{
    lemma_key_lt_total(a, b);
    lemma_key_lt_total(b, c);
    if key_lt(c, a) {
        if a == b {
        } else if b == c {
        } else {
            lemma_key_lt_transitive(c, a, b);
        }
    }
}

/// Three-way comparison of two keys: -1, 0 or 1.
pub fn compare_keys(a: &Vec<KeyPart>, b: &Vec<KeyPart>) -> (r: i8)
    ensures
        r == -1 <==> key_lt(key_view(a@), key_view(b@)),
        r == 1 <==> key_lt(key_view(b@), key_view(a@)),
        r == 0 <==> key_view(a@) == key_view(b@),
{
    let ghost av = key_view(a@);
    let ghost bv = key_view(b@);
    let mut i: usize = 0;
    assert(av.skip(0) =~= av && bv.skip(0) =~= bv);
    assert(av.take(0) =~= bv.take(0));
    while i < a.len() && i < b.len()
        invariant
            i <= a.len(),
            i <= b.len(),
            av == key_view(a@),
            bv == key_view(b@),
            av.take(i as int) == bv.take(i as int),
            key_lt(av, bv) == key_lt(av.skip(i as int), bv.skip(i as int)),
            key_lt(bv, av) == key_lt(bv.skip(i as int), av.skip(i as int)),
        decreases a.len() - i,
    {
        let ghost sa = av.skip(i as int);
        let ghost sb = bv.skip(i as int);
        assert(sa[0] == av[i as int] && sb[0] == bv[i as int]);
        let c: i8 = match (&a[i], &b[i]) {
            (KeyPart::Num(x), KeyPart::Num(y)) => if *x < *y {
                -1
            } else if *x > *y {
                1
            } else {
                0
            },
            (KeyPart::Text(x), KeyPart::Text(y)) => compare_text(x.as_str(), y.as_str()),
            (KeyPart::Num(_), KeyPart::Text(_)) => -1,
            (KeyPart::Text(_), KeyPart::Num(_)) => 1,
        };
        proof {
            lemma_part_lt(av[i as int], bv[i as int], av[i as int]);
        }
        if c != 0 {
            proof {
                assert(av[i as int] != bv[i as int]);
            }
            return c;
        }
        assert(av[i as int] == bv[i as int]);
        assert(sa.drop_first() =~= av.skip(i + 1));
        assert(sb.drop_first() =~= bv.skip(i + 1));
        assert(av.take(i + 1) =~= av.take(i as int).push(av[i as int]));
        assert(bv.take(i + 1) =~= bv.take(i as int).push(bv[i as int]));
        i += 1;
    }
    if a.len() == b.len() {
        assert(av =~= av.take(i as int));
        assert(bv =~= bv.take(i as int));
        0
    } else if a.len() < b.len() {
        assert(av.skip(i as int).len() == 0);
        assert(av != bv);
        -1
    } else {
        assert(bv.skip(i as int).len() == 0);
        assert(av != bv);
        1
    }
}

/// The keys of keyed items.
pub open spec fn keys_in<T>(s: Seq<(Vec<KeyPart>, T)>) -> Seq<Seq<KeyView>> {
    s.map_values(|e: (Vec<KeyPart>, T)| key_view(e.0@))
}

/// Items in key order: none has a smaller key than one left of it.
pub open spec fn keyed_sorted<T>(s: Seq<(Vec<KeyPart>, T)>) -> bool {
    forall|i: int, j: int| 0 <= i < j < s.len() ==> !key_lt(#[trigger] keys_in(s)[j], #[trigger] keys_in(s)[i])
}

/// The items of keyed items, by key view and item.
pub open spec fn keyed_view<T>(s: Seq<(Vec<KeyPart>, T)>) -> Seq<(Seq<KeyView>, T)> {
    s.map_values(|e: (Vec<KeyPart>, T)| (key_view(e.0@), e.1))
}

/// Sort keyed items into key order, keeping items with equal keys in the
/// order they came.
pub fn sort_keyed<T>(v: &mut Vec<(Vec<KeyPart>, T)>)
    ensures
        keyed_sorted(final(v)@),
        keyed_view(final(v)@).to_multiset() == keyed_view(old(v)@).to_multiset(),
        final(v).len() == old(v).len(),
{
    let n = v.len();
    let ghost orig = keyed_view(v@);
    if n == 0 {
        return;
    }
    let mut i: usize = 1;
    while i < n
        invariant
            1 <= i <= n,
            n == v.len(),
            keyed_view(v@).to_multiset() == orig.to_multiset(),
            forall|p: int, q: int| 0 <= p < q < i ==> !key_lt(#[trigger] keys_in(v@)[q], #[trigger] keys_in(v@)[p]),
        decreases n - i,
    {
        let ghost before = v@;
        let x = v.remove(i);
        let ghost xk = key_view(x.0@);
        let mut j: usize = i;
        while j > 0 && compare_keys(&x.0, &v[j - 1].0) == -1
            invariant
                0 <= j <= i < n,
                v.len() == n - 1,
                v@ == before.remove(i as int),
                xk == key_view(x.0@),
                forall|k: int| j <= k < i ==> key_lt(xk, #[trigger] keys_in(v@)[k]),
            decreases j,
        {
            j -= 1;
        }
        v.insert(j, x);
        proof {
            let mid = before.remove(i as int);
            assert(v@ =~= mid.insert(j as int, x));
            let after = keyed_view(v@);
            let bv = keyed_view(before);
            let mv = keyed_view(mid);
            assert(mv =~= bv.remove(i as int));
            assert(after =~= mv.insert(j as int, (xk, x.1)));
            vstd::seq_lib::to_multiset_remove(bv, i as int);
            vstd::seq_lib::to_multiset_insert(mv, j as int, (xk, x.1));
            assert(bv[i as int] == (xk, x.1));
            assert(bv.contains((xk, x.1)));
            vstd::seq_lib::to_multiset_contains(bv, (xk, x.1));
            broadcast use vstd::multiset::group_multiset_axioms;
            assert(after.to_multiset() =~= bv.to_multiset());
            let kb = keys_in(before);
            let kt = keys_in(v@);
            assert(forall|k: int| 0 <= k < i ==> #[trigger] keys_in(mid)[k] == kb[k]);
            assert forall|p: int, q: int| 0 <= p < q < i + 1 implies !key_lt(#[trigger] kt[q], #[trigger] kt[p]) by {
                if q < j {
                    assert(kt[p] == kb[p] && kt[q] == kb[q]);
                } else if p > j {
                    assert(kt[p] == kb[p - 1] && kt[q] == kb[q - 1]);
                } else if p < j && j < q {
                    assert(kt[p] == kb[p] && kt[q] == kb[q - 1]);
                } else if q == j {
                    assert(kt[q] == xk && kt[p] == kb[p]);
                    assert(!key_lt(xk, keys_in(mid)[j - 1]));
                    if p < j - 1 {
                        assert(!key_lt(kb[j - 1], kb[p]));
                        lemma_key_le_transitive(kb[p], kb[j - 1], xk);
                    }
                } else {
                    assert(p == j);
                    assert(kt[p] == xk && kt[q] == kb[q - 1]);
                    assert(key_lt(xk, keys_in(mid)[q - 1]));
                    if key_lt(kb[q - 1], xk) {
                        lemma_key_lt_transitive(xk, kb[q - 1], xk);
                        lemma_key_lt_irreflexive(xk);
                    }
                }
            }
        }
        i += 1;
    }
}


/// Every item's key is `f` of the item.
pub open spec fn keyed_by<T>(s: Seq<(Vec<KeyPart>, T)>, f: spec_fn(T) -> Seq<KeyView>) -> bool {
    forall|i: int| 0 <= i < s.len() ==> #[trigger] keys_in(s)[i] == f(s[i].1)
}

/// Rearranging keyed items keeps each key with its item.
pub proof fn lemma_keyed_by<T>(a: Seq<(Vec<KeyPart>, T)>, b: Seq<(Vec<KeyPart>, T)>, f: spec_fn(T) -> Seq<KeyView>)
    requires
        keyed_view(a).to_multiset() == keyed_view(b).to_multiset(),
        keyed_by(b, f),
    ensures
        keyed_by(a, f),
{
    keyed_view(a).to_multiset_ensures();
    keyed_view(b).to_multiset_ensures();
    assert forall|i: int| 0 <= i < a.len() implies #[trigger] keys_in(a)[i] == f(a[i].1) by {
        let e = keyed_view(a)[i];
        assert(keyed_view(a).contains(e));
        assert(keyed_view(a).to_multiset().count(e) > 0);
        assert(keyed_view(b).contains(e));
        let j = choose|j: int| 0 <= j < keyed_view(b).len() && keyed_view(b)[j] == e;
        assert(keys_in(b)[j] == f(b[j].1));
    }
}

/// The items of keyed items, in order.
pub open spec fn items_of<T>(s: Seq<(Vec<KeyPart>, T)>) -> Seq<T> {
    s.map_values(|e: (Vec<KeyPart>, T)| e.1)
}

/// The items, in order, with their keys dropped.
pub fn unkey<T>(v: Vec<(Vec<KeyPart>, T)>) -> (r: Vec<T>)
    ensures
        r@ == items_of(v@),
{
    let ghost orig = v@;
    let mut v = v;
    let mut r: Vec<T> = Vec::new();
    let n = v.len();
    let mut i: usize = 0;
    while i < n
        invariant
            i <= n,
            n == orig.len(),
            v@ == orig.skip(i as int),
            r@ == items_of(orig.take(i as int)),
        decreases n - i,
    {
        let (_, item) = v.remove(0);
        assert(orig.skip(i as int)[0] == orig[i as int]);
        assert(v@ =~= orig.skip(i + 1));
        r.push(item);
        assert(orig.take(i + 1) =~= orig.take(i as int).push(orig[i as int]));
        assert(r@ =~= items_of(orig.take(i + 1)));
        i += 1;
    }
    assert(orig.take(n as int) =~= orig);
    r
}

} // verus!
