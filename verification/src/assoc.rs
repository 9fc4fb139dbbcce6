//! Association lists keyed by text.
//!
//! A `Vec<(String, V)>` whose keys are strictly increasing is an ordered map:
//! its lookups are those of a map, and walking it gives the keys in `str`
//! order, which is the order the reports list them in.

use vstd::prelude::*;

use crate::graph::same_text;
use crate::seqs::{first_index, lemma_first_index, lemma_first_index_at};
use crate::text::{
    compare_text, lemma_text_lt_irreflexive, lemma_text_lt_total, lemma_text_lt_transitive,
    str_eq, text_lt,
};

verus! {

/// The keys of an association list.
pub open spec fn keys_of<V>(s: Seq<(String, V)>) -> Seq<Seq<char>> {
    s.map_values(|e: (String, V)| e.0@)
}

/// The value an association list holds under `k`: that of its first entry
/// with that key.
pub open spec fn assoc<V>(s: Seq<(String, V)>, k: Seq<char>) -> Option<V> {
    match first_index(keys_of(s), same_text(k)) {
        Some(i) => Some(s[i].1),
        None => None,
    }
}

/// Keys in strictly increasing `str` order: the walk order of an ordered map.
pub open spec fn keys_sorted<V>(s: Seq<(String, V)>) -> bool {
    forall|i: int, j: int| 0 <= i < j < s.len() ==> text_lt(#[trigger] s[i].0@, #[trigger] s[j].0@)
}

/// No key occurs twice.
pub open spec fn keys_distinct<V>(s: Seq<(String, V)>) -> bool {
    forall|i: int, j: int| 0 <= i < j < s.len() ==> #[trigger] s[i].0@ != #[trigger] s[j].0@
}

pub proof fn lemma_sorted_distinct<V>(s: Seq<(String, V)>)
    requires
        keys_sorted(s),
    ensures
        keys_distinct(s),
{
    assert forall|i: int, j: int| 0 <= i < j < s.len() implies #[trigger] s[i].0@ != #[trigger] s[j].0@ by {
        assert(text_lt(s[i].0@, s[j].0@));
        lemma_text_lt_irreflexive(s[i].0@);
    }
}

/// A key held at `i` and nowhere before is looked up there.
pub proof fn lemma_assoc_first<V>(s: Seq<(String, V)>, i: int)
    requires
        0 <= i < s.len(),
        forall|j: int| 0 <= j < i ==> #[trigger] s[j].0@ != s[i].0@,
    ensures
        assoc(s, s[i].0@) == Some(s[i].1),
{
    let ks = keys_of(s);
    assert forall|j: int| 0 <= j < i implies !same_text(s[i].0@)(#[trigger] ks[j]) by {
        assert(ks[j] == s[j].0@);
    }
    lemma_first_index_at(ks, same_text(s[i].0@), i);
}

/// With distinct keys, the entry at `i` is what its key looks up.
pub proof fn lemma_assoc_index<V>(s: Seq<(String, V)>, i: int)
    requires
        keys_distinct(s),
        0 <= i < s.len(),
    ensures
        assoc(s, s[i].0@) == Some(s[i].1),
{
    lemma_assoc_first(s, i);
}

/// A key held nowhere looks up nothing.
pub proof fn lemma_assoc_absent<V>(s: Seq<(String, V)>, k: Seq<char>)
    requires
        forall|j: int| 0 <= j < s.len() ==> #[trigger] s[j].0@ != k,
    ensures
        assoc(s, k) is None,
{
    let ks = keys_of(s);
    assert forall|j: int| 0 <= j < ks.len() implies !same_text(k)(#[trigger] ks[j]) by {
        assert(ks[j] == s[j].0@);
    }
    lemma_first_index_at(ks, same_text(k), ks.len() as int);
}

/// What a lookup answers is held by some entry, and nothing is held when it
/// answers nothing.
pub proof fn lemma_assoc_found<V>(s: Seq<(String, V)>, k: Seq<char>)
    ensures
        assoc(s, k) matches Some(v) ==> exists|i: int|
            0 <= i < s.len() && #[trigger] s[i].0@ == k && s[i].1 == v,
        assoc(s, k) is None ==> forall|j: int| 0 <= j < s.len() ==> #[trigger] s[j].0@ != k,
{
    let ks = keys_of(s);
    lemma_first_index(ks, same_text(k));
    match first_index(ks, same_text(k)) {
        Some(i) => {
            assert(ks[i] == s[i].0@);
        },
        None => {
            assert forall|j: int| 0 <= j < s.len() implies #[trigger] s[j].0@ != k by {
                assert(ks[j] == s[j].0@);
                assert(!same_text(k)(ks[j]));
            }
        },
    }
}

/// Two lists with the same keys in the same places look a key up at the same
/// index.
pub proof fn lemma_assoc_same_keys<V, W>(a: Seq<(String, V)>, b: Seq<(String, W)>, k: Seq<char>)
    requires
        a.len() == b.len(),
        forall|j: int| 0 <= j < a.len() ==> #[trigger] a[j].0@ == b[j].0@,
    ensures
        assoc(a, k) is Some <==> assoc(b, k) is Some,
        assoc(a, k) is Some ==> exists|j: int|
            0 <= j < a.len() && a[j].0@ == k && assoc(a, k) == Some(#[trigger] a[j].1) && assoc(b, k) == Some(b[j].1),
{
    assert(keys_of(a) =~= keys_of(b));
    lemma_first_index(keys_of(a), same_text(k));
    match first_index(keys_of(a), same_text(k)) {
        Some(i) => {
            assert(keys_of(a)[i] == a[i].0@);
        },
        None => {},
    }
}

/// The entry under `k`, if any.
pub fn assoc_get<'a, V>(s: &'a Vec<(String, V)>, k: &str) -> (r: Option<&'a V>)
    ensures
        r matches Some(v) ==> assoc(s@, k@) == Some(*v),
        r is None ==> assoc(s@, k@) is None,
{
    let mut i: usize = 0;
    while i < s.len()
        invariant
            i <= s.len(),
            forall|j: int| 0 <= j < i ==> #[trigger] s@[j].0@ != k@,
        decreases s.len() - i,
    {
        if str_eq(s[i].0.as_str(), k) {
            proof {
                lemma_assoc_first(s@, i as int);
            }
            return Some(&s[i].1);
        }
        i += 1;
    }
    proof {
        lemma_assoc_absent(s@, k@);
    }
    None
}

/// Whether an association list holds `k`.
pub fn assoc_has<V>(s: &Vec<(String, V)>, k: &str) -> (r: bool)
    ensures
        r == (assoc(s@, k@) is Some),
{
    assoc_get(s, k).is_some()
}

/// Where `k` belongs in a sorted list: past every smaller key and before the rest.
fn sorted_position<V>(s: &Vec<(String, V)>, k: &str) -> (i: usize)
    requires
        keys_sorted(s@),
    ensures
        i <= s.len(),
        forall|j: int| 0 <= j < i ==> text_lt(#[trigger] s@[j].0@, k@),
        i < s.len() ==> !text_lt(s@[i as int].0@, k@),
{
    let mut i: usize = 0;
    while i < s.len()
        invariant
            i <= s.len(),
            forall|j: int| 0 <= j < i ==> text_lt(#[trigger] s@[j].0@, k@),
        ensures
            i <= s.len(),
            forall|j: int| 0 <= j < i ==> text_lt(#[trigger] s@[j].0@, k@),
            i < s.len() ==> !text_lt(s@[i as int].0@, k@),
        decreases s.len() - i,
    {
        if compare_text(s[i].0.as_str(), k) != -1 {
            break;
        }
        i += 1;
    }
    i
}

/// Inserting at the position `sorted_position` gives keeps the keys sorted.
proof fn lemma_insert_sorted<V>(s: Seq<(String, V)>, i: int, e: (String, V))
    requires
        keys_sorted(s),
        0 <= i <= s.len(),
        forall|j: int| 0 <= j < i ==> text_lt(#[trigger] s[j].0@, e.0@),
        i < s.len() ==> text_lt(e.0@, s[i].0@),
    ensures
        keys_sorted(s.insert(i, e)),
{
    let n = s.insert(i, e);
    assert forall|a: int, b: int| 0 <= a < b < n.len() implies text_lt(
        #[trigger] n[a].0@,
        #[trigger] n[b].0@,
    ) by {
        if b < i {
        } else if a > i {
            assert(n[a] == s[a - 1] && n[b] == s[b - 1]);
        } else if a == i {
            assert(n[b] == s[b - 1]);
            if b - 1 > i {
                lemma_text_lt_transitive(e.0@, s[i].0@, s[b - 1].0@);
            }
        } else if b == i {
            assert(n[a] == s[a]);
        } else {
            assert(n[a] == s[a] && n[b] == s[b - 1]);
            if a < i && b - 1 >= i {
                assert(text_lt(s[a].0@, e.0@));
                if b - 1 > i {
                    lemma_text_lt_transitive(e.0@, s[i].0@, s[b - 1].0@);
                }
                lemma_text_lt_transitive(s[a].0@, e.0@, s[b - 1].0@);
            }
        }
    }
}

/// A lookup in `s.insert(i, e)` where no entry of `s` has `e`'s key: `e` under
/// its key, and every other key as before.
proof fn lemma_insert_lookups<V>(s: Seq<(String, V)>, i: int, e: (String, V))
    requires
        keys_distinct(s),
        0 <= i <= s.len(),
        forall|j: int| 0 <= j < s.len() ==> #[trigger] s[j].0@ != e.0@,
    ensures
        keys_distinct(s.insert(i, e)),
        assoc(s.insert(i, e), e.0@) == Some(e.1),
        forall|o: Seq<char>| o != e.0@ ==> #[trigger] assoc(s.insert(i, e), o) == assoc(s, o),
{
    let n = s.insert(i, e);
    assert forall|a: int, b: int| 0 <= a < b < n.len() implies #[trigger] n[a].0@ != #[trigger] n[b].0@ by {
        if a < i && b < i {
        } else if a < i && b == i {
        } else if a < i {
            assert(n[b] == s[b - 1]);
        } else if a == i {
            assert(n[b] == s[b - 1]);
        } else {
            assert(n[a] == s[a - 1] && n[b] == s[b - 1]);
        }
    }
    assert(n[i] == e);
    lemma_assoc_index(n, i);
    assert forall|o: Seq<char>| o != e.0@ implies #[trigger] assoc(n, o) == assoc(s, o) by {
        lemma_assoc_found(s, o);
        match assoc(s, o) {
            Some(v) => {
                let a = choose|a: int| 0 <= a < s.len() && #[trigger] s[a].0@ == o && s[a].1 == v;
                if a < i {
                    assert(n[a] == s[a]);
                    lemma_assoc_index(n, a);
                } else {
                    assert(n[a + 1] == s[a]);
                    lemma_assoc_index(n, a + 1);
                }
            },
            None => {
                assert forall|j: int| 0 <= j < n.len() implies #[trigger] n[j].0@ != o by {
                    if j < i {
                        assert(n[j] == s[j]);
                    } else if j > i {
                        assert(n[j] == s[j - 1]);
                    }
                }
                lemma_assoc_absent(n, o);
            },
        }
    }
}

/// A lookup in `s.update(i, e)` where `e` has the key `s` holds at `i`.
pub proof fn lemma_update_lookups<V>(s: Seq<(String, V)>, i: int, e: (String, V))
    requires
        keys_sorted(s),
        0 <= i < s.len(),
        s[i].0@ == e.0@,
    ensures
        keys_sorted(s.update(i, e)),
        assoc(s.update(i, e), e.0@) == Some(e.1),
        forall|o: Seq<char>| o != e.0@ ==> #[trigger] assoc(s.update(i, e), o) == assoc(s, o),
{
    let n = s.update(i, e);
    assert forall|a: int, b: int| 0 <= a < b < n.len() implies text_lt(
        #[trigger] n[a].0@,
        #[trigger] n[b].0@,
    ) by {
        assert(text_lt(s[a].0@, s[b].0@));
    }
    lemma_sorted_distinct(s);
    lemma_sorted_distinct(n);
    lemma_assoc_index(n, i);
    assert forall|o: Seq<char>| o != e.0@ implies #[trigger] assoc(n, o) == assoc(s, o) by {
        lemma_assoc_found(s, o);
        match assoc(s, o) {
            Some(v) => {
                let a = choose|a: int| 0 <= a < s.len() && #[trigger] s[a].0@ == o && s[a].1 == v;
                assert(a != i);
                lemma_assoc_index(n, a);
            },
            None => {
                assert forall|j: int| 0 <= j < n.len() implies #[trigger] n[j].0@ != o by {
                    if j != i {
                        assert(n[j] == s[j]);
                    }
                }
                lemma_assoc_absent(n, o);
            },
        }
    }
}

/// Where `k` is held, if anywhere.
pub fn sorted_index<V>(s: &Vec<(String, V)>, k: &str) -> (r: Option<usize>)
    requires
        keys_sorted(s@),
    ensures
        match r {
            Some(i) => i < s.len() && s@[i as int].0@ == k@ && assoc(s@, k@) == Some(s@[i as int].1),
            None => assoc(s@, k@) is None,
        },
{
    let i = sorted_position(s, k);
    proof {
        lemma_sorted_distinct(s@);
    }
    if i < s.len() && str_eq(s[i].0.as_str(), k) {
        proof {
            lemma_assoc_index(s@, i as int);
        }
        Some(i)
    } else {
        proof {
            assert forall|j: int| 0 <= j < s.len() implies #[trigger] s@[j].0@ != k@ by {
                if j < i {
                    lemma_text_lt_irreflexive(k@);
                } else if j > i {
                    lemma_text_lt_total(s@[i as int].0@, k@);
                    assert(text_lt(s@[i as int].0@, s@[j].0@));
                    lemma_text_lt_transitive(k@, s@[i as int].0@, s@[j].0@);
                    lemma_text_lt_irreflexive(k@);
                }
            }
            lemma_assoc_absent(s@, k@);
        }
        None
    }
}

/// `BTreeMap::insert` on a sorted list: the key now holds `v`, every other key
/// holds what it held, and the keys stay sorted.
pub fn sorted_insert<V>(s: &mut Vec<(String, V)>, k: String, v: V)
    requires
        keys_sorted(old(s)@),
    ensures
        keys_sorted(final(s)@),
        assoc(final(s)@, k@) == Some(v),
        forall|o: Seq<char>| o != k@ ==> #[trigger] assoc(final(s)@, o) == assoc(old(s)@, o),
{
    let i = sorted_position(s, k.as_str());
    let ghost old_s = s@;
    let ghost kv = k@;
    proof {
        lemma_sorted_distinct(old_s);
    }
    if i < s.len() && str_eq(s[i].0.as_str(), k.as_str()) {
        s.set(i, (k, v));
        proof {
            lemma_update_lookups(old_s, i as int, (k, v));
        }
    } else {
        proof {
            if i < old_s.len() {
                lemma_text_lt_total(old_s[i as int].0@, kv);
            }
            assert forall|j: int| 0 <= j < old_s.len() implies #[trigger] old_s[j].0@ != kv by {
                if j < i {
                    lemma_text_lt_irreflexive(kv);
                } else if j > i {
                    assert(text_lt(old_s[i as int].0@, old_s[j].0@));
                    lemma_text_lt_transitive(kv, old_s[i as int].0@, old_s[j].0@);
                    lemma_text_lt_irreflexive(kv);
                }
            }
            lemma_insert_sorted(old_s, i as int, (k, v));
            lemma_insert_lookups(old_s, i as int, (k, v));
        }
        s.insert(i, (k, v));
    }
}

/// The list under `k` with `x` appended, creating an empty list first when the
/// key is new: `BTreeMap::entry(k).or_default().push(x)`.
pub fn sorted_push<X>(s: &mut Vec<(String, Vec<X>)>, k: String, x: X)
    requires
        keys_sorted(old(s)@),
    ensures
        keys_sorted(final(s)@),
        assoc(final(s)@, k@) matches Some(items) && items@ == (match assoc(old(s)@, k@) {
            Some(before) => before@,
            None => Seq::<X>::empty(),
        }).push(x),
        forall|o: Seq<char>| o != k@ ==> #[trigger] assoc(final(s)@, o) == assoc(old(s)@, o),
{
    let i = sorted_position(s, k.as_str());
    let ghost old_s = s@;
    proof {
        lemma_sorted_distinct(old_s);
    }
    if i < s.len() && str_eq(s[i].0.as_str(), k.as_str()) {
        let (key, mut items) = s.remove(i);
        proof {
            assert(old_s[i as int] == (key, items));
            lemma_assoc_index(old_s, i as int);
        }
        items.push(x);
        s.insert(i, (key, items));
        proof {
            assert(s@ =~= old_s.update(i as int, (key, items)));
            lemma_update_lookups(old_s, i as int, (key, items));
        }
    } else {
        let items: Vec<X> = vec![x];
        let ghost kv = k@;
        proof {
            if i < old_s.len() {
                lemma_text_lt_total(old_s[i as int].0@, kv);
            }
            assert forall|j: int| 0 <= j < old_s.len() implies #[trigger] old_s[j].0@ != kv by {
                if j < i {
                    lemma_text_lt_irreflexive(kv);
                } else if j > i {
                    assert(text_lt(old_s[i as int].0@, old_s[j].0@));
                    lemma_text_lt_transitive(kv, old_s[i as int].0@, old_s[j].0@);
                    lemma_text_lt_irreflexive(kv);
                }
            }
            lemma_assoc_absent(old_s, kv);
            lemma_insert_sorted(old_s, i as int, (k, items));
            lemma_insert_lookups(old_s, i as int, (k, items));
            assert(items@ =~= Seq::<X>::empty().push(x));
        }
        s.insert(i, (k, items));
    }
}

/// The keys, in list order.
pub fn assoc_keys<V>(s: &Vec<(String, V)>) -> (r: Vec<String>)
    ensures
        crate::text::texts(r@) == keys_of(s@),
{
    let mut out: Vec<String> = Vec::new();
    let mut i: usize = 0;
    while i < s.len()
        invariant
            i <= s.len(),
            out.len() == i,
            forall|k: int| 0 <= k < i ==> #[trigger] out@[k]@ == s@[k].0@,
        decreases s.len() - i,
    {
        out.push(s[i].0.clone());
        i += 1;
    }
    assert(crate::text::texts(out@) =~= keys_of(s@));
    out
}

/// Whether `t` is one of the strings of `v`.
pub fn contains_text(v: &Vec<String>, t: &str) -> (r: bool)
    ensures
        r == crate::text::texts(v@).contains(t@),
{
    let mut i: usize = 0;
    while i < v.len()
        invariant
            i <= v.len(),
            forall|k: int| 0 <= k < i ==> #[trigger] v@[k]@ != t@,
        decreases v.len() - i,
    {
        if str_eq(v[i].as_str(), t) {
            assert(crate::text::texts(v@)[i as int] == t@);
            return true;
        }
        i += 1;
    }
    proof {
        if crate::text::texts(v@).contains(t@) {
            let k = choose|k: int| 0 <= k < v.len() && crate::text::texts(v@)[k] == t@;
            assert(v@[k]@ == t@);
        }
    }
    false
}


/// `*map.entry(k).or_insert(0) += 1` on a sorted list of counts.
pub fn sorted_bump(s: &mut Vec<(String, i64)>, k: &str)
    requires
        keys_sorted(old(s)@),
        assoc(old(s)@, k@) matches Some(v) ==> v < i64::MAX,
    ensures
        keys_sorted(final(s)@),
        assoc(final(s)@, k@) == Some(match assoc(old(s)@, k@) {
            Some(v) => v + 1,
            None => 1,
        } as i64),
        forall|o: Seq<char>| o != k@ ==> #[trigger] assoc(final(s)@, o) == assoc(old(s)@, o),
{
    let now: i64 = match assoc_get(s, k) {
        Some(v) => *v + 1,
        None => 1,
    };
    let mut key = String::new();
    crate::text::push_str(&mut key, k);
    assert(key@ =~= k@);
    sorted_insert(s, key, now);
}

} // verus!
