//! Least fixed points over small index graphs, computed round by round.
//!
//! Nodes are the indices `0..n`; a link `(x, y)` is an edge from `x` to `y`.
//! Two closures are computed: what is reachable from a start through allowed
//! nodes, and what deep coverage derives from evidence through parents whose
//! every child is covered. Each round adds at least one node or is the last, so
//! the rounds stop within `n`.

use vstd::prelude::*;

verus! {

/// How many flags are set.
pub open spec fn count_true(s: Seq<bool>) -> nat
    decreases s.len(),
{
    if s.len() == 0 {
        0
    } else {
        count_true(s.drop_last()) + if s.last() {
            1nat
        } else {
            0nat
        }
    }
}

proof fn lemma_count_true_bound(s: Seq<bool>)
    ensures
        count_true(s) <= s.len(),
    decreases s.len(),
{
    if s.len() > 0 {
        lemma_count_true_bound(s.drop_last());
    }
}

/// Setting more flags never counts fewer, and setting a new one counts more.
proof fn lemma_count_true_grows(a: Seq<bool>, b: Seq<bool>)
    requires
        a.len() == b.len(),
        forall|i: int| 0 <= i < a.len() && a[i] ==> b[i],
    ensures
        count_true(a) <= count_true(b),
        (exists|i: int| 0 <= i < a.len() && !a[i] && b[i]) ==> count_true(a) < count_true(b),
    decreases a.len(),
{
    if a.len() > 0 {
        lemma_count_true_grows(a.drop_last(), b.drop_last());
        if exists|i: int| 0 <= i < a.len() && !a[i] && b[i] {
            let i = choose|i: int| 0 <= i < a.len() && !a[i] && b[i];
            if i < a.len() - 1 {
                assert(a.drop_last()[i] == a[i] && b.drop_last()[i] == b[i]);
            }
        }
    }
}

/// Whether every link's ends are nodes.
pub open spec fn links_ok(n: nat, links: Seq<(usize, usize)>) -> bool {
    forall|j: int| 0 <= j < links.len() ==> (#[trigger] links[j]).0 < n && links[j].1 < n
}

/// Nodes reachable from `a` in at most `k` steps, entering only `ok` nodes.
pub open spec fn reach_k(links: Seq<(usize, usize)>, ok: Seq<bool>, a: int, k: nat, b: int) -> bool
    decreases k,
{
    if k == 0 {
        b == a
    } else {
        reach_k(links, ok, a, (k - 1) as nat, b) || (ok[b] && exists|j: int|
            0 <= j < links.len() && (#[trigger] links[j]).1 == b && reach_k(links, ok, a, (k - 1) as nat, links[j].0 as int))
    }
}

/// Whether `b` is reachable from `a`, entering only `ok` nodes.
pub open spec fn reachable(links: Seq<(usize, usize)>, ok: Seq<bool>, a: int, b: int) -> bool {
    exists|k: nat| reach_k(links, ok, a, k, b)
}

pub proof fn lemma_reach_mono(links: Seq<(usize, usize)>, ok: Seq<bool>, a: int, k: nat, m: nat, b: int)
    requires
        k <= m,
        reach_k(links, ok, a, k, b),
    ensures
        reach_k(links, ok, a, m, b),
    decreases m - k,
{
    if k < m {
        lemma_reach_mono(links, ok, a, k, (m - 1) as nat, b);
    }
}

/// Once a round adds nothing, no later round does.
proof fn lemma_reach_stable(links: Seq<(usize, usize)>, ok: Seq<bool>, a: int, r: nat, m: nat, n: nat)
    requires
        r <= m,
        forall|b: int| 0 <= b < n ==> #[trigger] reach_k(links, ok, a, r + 1, b) == reach_k(links, ok, a, r, b),
        links_ok(n, links),
        0 <= a < n,
    ensures
        forall|b: int| 0 <= b < n ==> #[trigger] reach_k(links, ok, a, m, b) == reach_k(links, ok, a, r, b),
    decreases m - r,
{
    if m > r {
        lemma_reach_stable(links, ok, a, r, (m - 1) as nat, n);
        assert forall|b: int| 0 <= b < n implies #[trigger] reach_k(links, ok, a, m, b) == reach_k(links, ok, a, r, b) by {
            let prev = (m - 1) as nat;
            if reach_k(links, ok, a, m, b) && !reach_k(links, ok, a, prev, b) {
                let j = choose|j: int|
                    0 <= j < links.len() && (#[trigger] links[j]).1 == b && reach_k(links, ok, a, prev, links[j].0 as int);
                assert(reach_k(links, ok, a, r, links[j].0 as int));
                assert(reach_k(links, ok, a, r + 1, b));
            }
            if reach_k(links, ok, a, prev, b) {
                lemma_reach_mono(links, ok, a, prev, m, b);
            }
        }
    }
}

/// The nodes reachable from `a`, entering only `ok` nodes.
pub fn reach_from(n: usize, links: &Vec<(usize, usize)>, ok: &Vec<bool>, a: usize) -> (r: Vec<bool>)
    requires
        a < n,
        ok.len() == n,
        links_ok(n as nat, links@),
    ensures
        r.len() == n,
        forall|b: int| 0 <= b < n ==> #[trigger] r@[b] == reachable(links@, ok@, a as int, b),
{
    let mut cur: Vec<bool> = Vec::new();
    let mut i: usize = 0;
    while i < n
        invariant
            i <= n,
            cur.len() == i,
            forall|b: int| 0 <= b < i ==> #[trigger] cur@[b] == (b == a),
        decreases n - i,
    {
        cur.push(i == a);
        i += 1;
    }
    let ghost mut k: nat = 0;
    proof {
        lemma_count_true_bound(cur@);
    }
    loop
        invariant
            cur.len() == n,
            ok.len() == n,
            a < n,
            links_ok(n as nat, links@),
            forall|b: int| 0 <= b < n ==> #[trigger] cur@[b] == reach_k(links@, ok@, a as int, k, b),
        decreases n - count_true(cur@),
    {
        let mut next: Vec<bool> = cur.clone();
        proof {
            assert(next@ == cur@);
        }
        let mut j: usize = 0;
        while j < links.len()
            invariant
                j <= links.len(),
                next.len() == n,
                cur.len() == n,
                ok.len() == n,
                links_ok(n as nat, links@),
                forall|b: int| 0 <= b < n ==> #[trigger] cur@[b] == reach_k(links@, ok@, a as int, k, b),
                forall|b: int|
                    0 <= b < n ==> #[trigger] next@[b] == (cur@[b] || (ok@[b] && exists|x: int|
                        0 <= x < j && (#[trigger] links@[x]).1 == b && cur@[links@[x].0 as int])),
            decreases links.len() - j,
        {
            let (x, y) = links[j];
            assert(links@[j as int] == (x, y));
            if cur[x] && ok[y] {
                next.set(y, true);
            }
            proof {
                assert forall|b: int| 0 <= b < n implies #[trigger] next@[b] == (cur@[b] || (ok@[b] && exists|z: int|
                    0 <= z < j + 1 && (#[trigger] links@[z]).1 == b && cur@[links@[z].0 as int])) by {
                    if b == y && cur@[x as int] && ok@[b] {
                        assert(links@[j as int].1 == b && cur@[links@[j as int].0 as int]);
                    }
                }
            }
            j += 1;
        }
        proof {
            assert forall|b: int| 0 <= b < n implies #[trigger] next@[b] == reach_k(links@, ok@, a as int, k + 1, b) by {
                if next@[b] && !cur@[b] {
                    let x = choose|x: int| 0 <= x < links.len() && (#[trigger] links@[x]).1 == b && cur@[links@[x].0 as int];
                    assert(reach_k(links@, ok@, a as int, k, links@[x].0 as int));
                }
                if reach_k(links@, ok@, a as int, k + 1, b) && !reach_k(links@, ok@, a as int, k, b) {
                    let x = choose|x: int|
                        0 <= x < links@.len() && (#[trigger] links@[x]).1 == b && reach_k(links@, ok@, a as int, k, links@[x].0 as int);
                    assert(cur@[links@[x].0 as int]);
                }
            }
        }
        let mut changed = false;
        let mut b: usize = 0;
        while b < n
            invariant
                b <= n,
                next.len() == n,
                cur.len() == n,
                changed <==> exists|c: int| 0 <= c < b && #[trigger] next@[c] != cur@[c],
            decreases n - b,
        {
            if next[b] != cur[b] {
                changed = true;
            }
            b += 1;
        }
        if !changed {
            proof {
                assert forall|c: int| 0 <= c < n implies #[trigger] reach_k(links@, ok@, a as int, k + 1, c) == reach_k(
                    links@,
                    ok@,
                    a as int,
                    k,
                    c,
                ) by {
                    assert(next@[c] == cur@[c]);
                }
                assert forall|c: int| 0 <= c < n implies #[trigger] cur@[c] == reachable(links@, ok@, a as int, c) by {
                    if reachable(links@, ok@, a as int, c) {
                        let m = choose|m: nat| reach_k(links@, ok@, a as int, m, c);
                        if m <= k {
                            lemma_reach_mono(links@, ok@, a as int, m, k, c);
                        } else {
                            lemma_reach_stable(links@, ok@, a as int, k, m, n as nat);
                        }
                    }
                    if cur@[c] {
                        assert(reach_k(links@, ok@, a as int, k, c));
                    }
                }
            }
            return cur;
        }
        proof {
            lemma_count_true_grows(cur@, next@);
            lemma_count_true_bound(next@);
            k = k + 1;
        }
        cur = next;
    }
}

/// The round in which each node is first reached from `a`, entering only `ok`
/// nodes: the length of a shortest chain of links to it.
pub fn distances(n: usize, links: &Vec<(usize, usize)>, ok: &Vec<bool>, a: usize) -> (d: Vec<Option<usize>>)
    requires
        a < n,
        ok.len() == n,
        links_ok(n as nat, links@),
    ensures
        d.len() == n,
        forall|b: int|
            0 <= b < n ==> match #[trigger] d@[b] {
                Some(m) => reach_k(links@, ok@, a as int, m as nat, b) && forall|m2: nat|
                    m2 < m ==> !#[trigger] reach_k(links@, ok@, a as int, m2, b),
                None => !reachable(links@, ok@, a as int, b),
            },
{
    let mut cur: Vec<bool> = Vec::new();
    let mut d: Vec<Option<usize>> = Vec::new();
    let mut i: usize = 0;
    while i < n
        invariant
            i <= n,
            cur.len() == i,
            d.len() == i,
            forall|b: int| 0 <= b < i ==> #[trigger] cur@[b] == (b == a),
            forall|b: int| 0 <= b < i ==> #[trigger] d@[b] == (if b == a { Some(0usize) } else { None }),
        decreases n - i,
    {
        cur.push(i == a);
        if i == a {
            d.push(Some(0));
        } else {
            d.push(None);
        }
        i += 1;
    }
    let mut k: usize = 0;
    proof {
        lemma_count_true_bound(cur@);
        lemma_count_true_grows(Seq::new(n as nat, |b: int| false), cur@);
        assert(cur@[a as int]);
        assert(!Seq::new(n as nat, |b: int| false)[a as int]);
    }
    loop
        invariant
            cur.len() == n,
            d.len() == n,
            ok.len() == n,
            a < n,
            links_ok(n as nat, links@),
            k + 1 <= count_true(cur@),
            count_true(cur@) <= n,
            forall|b: int| 0 <= b < n ==> #[trigger] cur@[b] == reach_k(links@, ok@, a as int, k as nat, b),
            forall|b: int|
                0 <= b < n ==> match #[trigger] d@[b] {
                    Some(m) => m <= k && reach_k(links@, ok@, a as int, m as nat, b) && forall|m2: nat|
                        m2 < m ==> !#[trigger] reach_k(links@, ok@, a as int, m2, b),
                    None => !reach_k(links@, ok@, a as int, k as nat, b),
                },
        decreases n - count_true(cur@),
    {
        let mut next: Vec<bool> = cur.clone();
        proof {
            assert(next@ == cur@);
        }
        let ghost kk: nat = k as nat;
        let mut j: usize = 0;
        while j < links.len()
            invariant
                j <= links.len(),
                next.len() == n,
                cur.len() == n,
                ok.len() == n,
                links_ok(n as nat, links@),
                forall|b: int| 0 <= b < n ==> #[trigger] cur@[b] == reach_k(links@, ok@, a as int, kk, b),
                forall|b: int|
                    0 <= b < n ==> #[trigger] next@[b] == (cur@[b] || (ok@[b] && exists|x: int|
                        0 <= x < j && (#[trigger] links@[x]).1 == b && cur@[links@[x].0 as int])),
            decreases links.len() - j,
        {
            let (x, y) = links[j];
            assert(links@[j as int] == (x, y));
            if cur[x] && ok[y] {
                next.set(y, true);
            }
            proof {
                assert forall|b: int| 0 <= b < n implies #[trigger] next@[b] == (cur@[b] || (ok@[b] && exists|z: int|
                    0 <= z < j + 1 && (#[trigger] links@[z]).1 == b && cur@[links@[z].0 as int])) by {
                    if b == y && cur@[x as int] && ok@[b] {
                        assert(links@[j as int].1 == b && cur@[links@[j as int].0 as int]);
                    }
                }
            }
            j += 1;
        }
        proof {
            assert forall|b: int| 0 <= b < n implies #[trigger] next@[b] == reach_k(links@, ok@, a as int, kk + 1, b) by {
                if next@[b] && !cur@[b] {
                    let x = choose|x: int| 0 <= x < links.len() && (#[trigger] links@[x]).1 == b && cur@[links@[x].0 as int];
                    assert(reach_k(links@, ok@, a as int, kk, links@[x].0 as int));
                }
                if reach_k(links@, ok@, a as int, kk + 1, b) && !reach_k(links@, ok@, a as int, kk, b) {
                    let x = choose|x: int|
                        0 <= x < links@.len() && (#[trigger] links@[x]).1 == b && reach_k(links@, ok@, a as int, kk, links@[x].0 as int);
                    assert(cur@[links@[x].0 as int]);
                }
            }
        }
        let mut changed = false;
        let mut b: usize = 0;
        while b < n
            invariant
                b <= n,
                next.len() == n,
                cur.len() == n,
                d.len() == n,
                k == kk,
                forall|c: int| 0 <= c < n ==> #[trigger] cur@[c] == reach_k(links@, ok@, a as int, kk, c),
                forall|c: int| 0 <= c < n ==> #[trigger] next@[c] == reach_k(links@, ok@, a as int, kk + 1, c),
                changed <==> exists|c: int| 0 <= c < b && #[trigger] next@[c] != cur@[c],
                forall|c: int|
                    b <= c < n ==> match #[trigger] d@[c] {
                        Some(m) => m <= kk && reach_k(links@, ok@, a as int, m as nat, c) && forall|m2: nat|
                            m2 < m ==> !#[trigger] reach_k(links@, ok@, a as int, m2, c),
                        None => !reach_k(links@, ok@, a as int, kk, c),
                    },
                forall|c: int|
                    0 <= c < b ==> match #[trigger] d@[c] {
                        Some(m) => m <= kk + 1 && reach_k(links@, ok@, a as int, m as nat, c) && forall|m2: nat|
                            m2 < m ==> !#[trigger] reach_k(links@, ok@, a as int, m2, c),
                        None => !reach_k(links@, ok@, a as int, kk + 1, c),
                    },
                kk + 1 <= usize::MAX,
            decreases n - b,
        {
            if next[b] != cur[b] {
                changed = true;
                proof {
                    assert forall|m2: nat| m2 < kk + 1 implies !#[trigger] reach_k(links@, ok@, a as int, m2, b as int) by {
                        if reach_k(links@, ok@, a as int, m2, b as int) {
                            lemma_reach_mono(links@, ok@, a as int, m2, kk, b as int);
                        }
                    }
                }
                d.set(b, Some(k + 1));
            } else {
                proof {
                    if d@[b as int] is None && reach_k(links@, ok@, a as int, kk + 1, b as int) {
                        assert(false);
                    }
                }
            }
            b += 1;
        }
        if !changed {
            proof {
                assert forall|c: int| 0 <= c < n implies #[trigger] reach_k(links@, ok@, a as int, kk + 1, c) == reach_k(
                    links@,
                    ok@,
                    a as int,
                    kk,
                    c,
                ) by {
                    assert(next@[c] == cur@[c]);
                }
                assert forall|c: int| 0 <= c < n implies match #[trigger] d@[c] {
                    Some(m) => reach_k(links@, ok@, a as int, m as nat, c) && forall|m2: nat|
                        m2 < m ==> !#[trigger] reach_k(links@, ok@, a as int, m2, c),
                    None => !reachable(links@, ok@, a as int, c),
                } by {
                    if d@[c] is None && reachable(links@, ok@, a as int, c) {
                        let m = choose|m: nat| reach_k(links@, ok@, a as int, m, c);
                        if m <= kk {
                            lemma_reach_mono(links@, ok@, a as int, m, kk, c);
                        } else {
                            lemma_reach_stable(links@, ok@, a as int, kk, m, n as nat);
                        }
                        assert(reach_k(links@, ok@, a as int, kk, c));
                        assert(reach_k(links@, ok@, a as int, kk + 1, c));
                    }
                }
            }
            return d;
        }
        proof {
            lemma_count_true_grows(cur@, next@);
            lemma_count_true_bound(next@);
        }
        k = k + 1;
        cur = next;
    }
}

/// Deep coverage after `k` rounds: evidenced nodes first, then every node with
/// at least one child whose children are all covered.
pub open spec fn cov_k(links: Seq<(usize, usize)>, evidenced: Seq<bool>, k: nat, t: int) -> bool
    decreases k,
{
    if k == 0 {
        evidenced[t]
    } else {
        cov_k(links, evidenced, (k - 1) as nat, t) || ((exists|j: int| 0 <= j < links.len() && (#[trigger] links[j]).1 == t)
            && forall|j: int|
            0 <= j < links.len() && (#[trigger] links[j]).1 == t ==> cov_k(links, evidenced, (k - 1) as nat, links[j].0 as int))
    }
}

/// Deep coverage: the least fixed point.
pub open spec fn deep_covered(links: Seq<(usize, usize)>, evidenced: Seq<bool>, t: int) -> bool {
    exists|k: nat| cov_k(links, evidenced, k, t)
}

proof fn lemma_cov_mono(links: Seq<(usize, usize)>, ev: Seq<bool>, k: nat, m: nat, t: int)
    requires
        k <= m,
        cov_k(links, ev, k, t),
    ensures
        cov_k(links, ev, m, t),
    decreases m - k,
{
    if k < m {
        lemma_cov_mono(links, ev, k, (m - 1) as nat, t);
    }
}

proof fn lemma_cov_stable(links: Seq<(usize, usize)>, ev: Seq<bool>, r: nat, m: nat, n: nat)
    requires
        r <= m,
        forall|t: int| 0 <= t < n ==> #[trigger] cov_k(links, ev, r + 1, t) == cov_k(links, ev, r, t),
        links_ok(n, links),
    ensures
        forall|t: int| 0 <= t < n ==> #[trigger] cov_k(links, ev, m, t) == cov_k(links, ev, r, t),
    decreases m - r,
{
    if m > r {
        lemma_cov_stable(links, ev, r, (m - 1) as nat, n);
        let prev = (m - 1) as nat;
        assert forall|t: int| 0 <= t < n implies #[trigger] cov_k(links, ev, m, t) == cov_k(links, ev, r, t) by {
            if cov_k(links, ev, m, t) && !cov_k(links, ev, prev, t) {
                assert forall|j: int| 0 <= j < links.len() && (#[trigger] links[j]).1 == t implies cov_k(
                    links,
                    ev,
                    r,
                    links[j].0 as int,
                ) by {
                    assert(cov_k(links, ev, prev, links[j].0 as int));
                }
                assert(cov_k(links, ev, r + 1, t));
            }
            if cov_k(links, ev, prev, t) {
                lemma_cov_mono(links, ev, prev, m, t);
            }
        }
    }
}

/// The deep-coverage fixed point of `evidenced` over the links.
pub fn deep_cover(n: usize, links: &Vec<(usize, usize)>, evidenced: &Vec<bool>) -> (r: Vec<bool>)
    requires
        evidenced.len() == n,
        links_ok(n as nat, links@),
    ensures
        r.len() == n,
        forall|t: int| 0 <= t < n ==> #[trigger] r@[t] == deep_covered(links@, evidenced@, t),
{
    let mut cur: Vec<bool> = evidenced.clone();
    assert(cur@ == evidenced@);
    let ghost mut k: nat = 0;
    proof {
        lemma_count_true_bound(cur@);
    }
    loop
        invariant
            cur.len() == n,
            evidenced.len() == n,
            links_ok(n as nat, links@),
            forall|t: int| 0 <= t < n ==> #[trigger] cur@[t] == cov_k(links@, evidenced@, k, t),
        decreases n - count_true(cur@),
    {
        let mut has: Vec<bool> = Vec::new();
        let mut bad: Vec<bool> = Vec::new();
        let mut i: usize = 0;
        while i < n
            invariant
                i <= n,
                has.len() == i,
                bad.len() == i,
                forall|t: int| 0 <= t < i ==> !(#[trigger] has@[t]),
                forall|t: int| 0 <= t < i ==> !(#[trigger] bad@[t]),
            decreases n - i,
        {
            has.push(false);
            bad.push(false);
            i += 1;
        }
        let mut j: usize = 0;
        while j < links.len()
            invariant
                j <= links.len(),
                has.len() == n,
                bad.len() == n,
                cur.len() == n,
                links_ok(n as nat, links@),
                forall|t: int| 0 <= t < n ==> #[trigger] has@[t] == exists|x: int| 0 <= x < j && (#[trigger] links@[x]).1 == t,
                forall|t: int|
                    0 <= t < n ==> #[trigger] bad@[t] == exists|x: int|
                        0 <= x < j && (#[trigger] links@[x]).1 == t && !cur@[links@[x].0 as int],
            decreases links.len() - j,
        {
            let (x, y) = links[j];
            assert(links@[j as int] == (x, y));
            has.set(y, true);
            if !cur[x] {
                bad.set(y, true);
            }
            proof {
                assert forall|t: int| 0 <= t < n implies #[trigger] has@[t] == exists|z: int|
                    0 <= z < j + 1 && (#[trigger] links@[z]).1 == t by {
                    if t == y {
                        assert(links@[j as int].1 == t);
                    }
                }
                assert forall|t: int| 0 <= t < n implies #[trigger] bad@[t] == exists|z: int|
                    0 <= z < j + 1 && (#[trigger] links@[z]).1 == t && !cur@[links@[z].0 as int] by {
                    if t == y && !cur@[x as int] {
                        assert(links@[j as int].1 == t && !cur@[links@[j as int].0 as int]);
                    }
                }
            }
            j += 1;
        }
        let mut next: Vec<bool> = Vec::new();
        let mut t: usize = 0;
        while t < n
            invariant
                t <= n,
                next.len() == t,
                has.len() == n,
                bad.len() == n,
                cur.len() == n,
                forall|u: int| 0 <= u < t ==> #[trigger] next@[u] == (cur@[u] || (has@[u] && !bad@[u])),
            decreases n - t,
        {
            next.push(cur[t] || (has[t] && !bad[t]));
            t += 1;
        }
        let mut changed = false;
        let mut t: usize = 0;
        while t < n
            invariant
                t <= n,
                next.len() == n,
                cur.len() == n,
                changed <==> exists|u: int| 0 <= u < t && #[trigger] next@[u] != cur@[u],
            decreases n - t,
        {
            if next[t] != cur[t] {
                changed = true;
            }
            t += 1;
        }
        proof {
            assert forall|u: int| 0 <= u < n implies #[trigger] next@[u] == cov_k(links@, evidenced@, k + 1, u) by {
                if has@[u] && !bad@[u] {
                    assert forall|x: int| 0 <= x < links@.len() && (#[trigger] links@[x]).1 == u implies cov_k(
                        links@,
                        evidenced@,
                        k,
                        links@[x].0 as int,
                    ) by {
                        assert(cur@[links@[x].0 as int]);
                    }
                }
                if cov_k(links@, evidenced@, k + 1, u) && !cov_k(links@, evidenced@, k, u) {
                    assert(has@[u]);
                    if bad@[u] {
                        let x = choose|x: int|
                            0 <= x < links@.len() && (#[trigger] links@[x]).1 == u && !cur@[links@[x].0 as int];
                        assert(cov_k(links@, evidenced@, k, links@[x].0 as int));
                    }
                }
            }
        }
        if !changed {
            proof {
                assert forall|u: int| 0 <= u < n implies #[trigger] cov_k(links@, evidenced@, k + 1, u) == cov_k(
                    links@,
                    evidenced@,
                    k,
                    u,
                ) by {
                    assert(next@[u] == cur@[u]);
                }
                assert forall|u: int| 0 <= u < n implies #[trigger] cur@[u] == deep_covered(links@, evidenced@, u) by {
                    if deep_covered(links@, evidenced@, u) {
                        let m = choose|m: nat| cov_k(links@, evidenced@, m, u);
                        if m <= k {
                            lemma_cov_mono(links@, evidenced@, m, k, u);
                        } else {
                            lemma_cov_stable(links@, evidenced@, k, m, n as nat);
                        }
                    }
                    if cur@[u] {
                        assert(cov_k(links@, evidenced@, k, u));
                    }
                }
            }
            return cur;
        }
        proof {
            lemma_count_true_grows(cur@, next@);
            lemma_count_true_bound(next@);
            k = k + 1;
        }
        cur = next;
    }
}

} // verus!
