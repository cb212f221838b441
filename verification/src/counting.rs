//! Counting non-crossing partitions: the search tree has C_n leaves.
//!
//! While the elements 1, ..., m are placed, a block is open when no other block has
//! elements on both sides of one of its elements; element m + 1 can join exactly the
//! open blocks without creating a crossing. Joining the t-th open block leaves t open
//! blocks, and opening a new block adds one, so the number of ways to place the
//! remaining elements depends only on how many remain and how many blocks are open.

use vstd::prelude::*;
use crate::enumeration::{
    canonical, completions, extensions_upto, lemma_canonical_join, lemma_canonical_open, nc_list,
    partition_sets,
};
use crate::numbers::{binom, catalan_number, lemma_binom_symmetric, lemma_catalan_binom};
use crate::partition::{blocks_cross_spec, interleaves, non_crossing};

verus! {

/// The number of ways to place m more elements when d blocks are open.
pub open spec fn nc_ways(m: nat, d: nat) -> nat
    decreases m, d, 0nat,
{
    if m == 0 {
        1
    } else {
        ways_sum((m - 1) as nat, d + 1)
    }
}

/// nc_ways(m, 1) + ... + nc_ways(m, d).
pub open spec fn ways_sum(m: nat, d: nat) -> nat
    decreases m, d, 1nat,
{
    if d == 0 {
        0
    } else {
        ways_sum(m, (d - 1) as nat) + nc_ways(m, d)
    }
}

/// Binomial coefficient with C(n, k) = 0 for negative k.
pub open spec fn binom_int(n: nat, k: int) -> int {
    if k < 0 {
        0
    } else {
        binom(n, k as nat) as int
    }
}

/// The ballot number C(2m + d, m) - C(2m + d, m - 1).
pub open spec fn ballot(m: nat, d: nat) -> int {
    binom_int(2 * m + d, m as int) - binom_int(2 * m + d, m - 1)
}

/// Pascal's rule with possibly negative k - 1.
proof fn lemma_pascal(n: nat, k: int)
    requires
        n >= 1,
        k >= 0,
    ensures
        binom_int(n, k) == binom_int((n - 1) as nat, k - 1) + binom_int((n - 1) as nat, k),
{
}

/// ballot(m, d) = ballot(m, d - 1) + ballot(m - 1, d + 1).
proof fn lemma_ballot_step(m: nat, d: nat)
    requires
        m >= 1,
        d >= 1,
    ensures
        ballot(m, d) == ballot(m, (d - 1) as nat) + ballot((m - 1) as nat, d + 1),
{
    let n = 2 * m + d;
    lemma_pascal(n, m as int);
    lemma_pascal(n, m - 1);
    assert((2 * m + (d - 1)) as nat == (n - 1) as nat);
    assert((2 * (m - 1) + (d + 1)) as nat == (n - 1) as nat);
}

/// ballot(m, 0) = ballot(m - 1, 1).
proof fn lemma_ballot_base(m: nat)
    requires
        m >= 1,
    ensures
        ballot(m, 0) == ballot((m - 1) as nat, 1),
{
    let n = 2 * m;
    lemma_pascal(n, m as int);
    lemma_pascal(n, m - 1);
    assert((2 * (m - 1) + 1) as nat == (n - 1) as nat);
    // C(2m - 1, m) = C(2m - 1, m - 1)
    lemma_binom_symmetric((n - 1) as nat, m);
    assert(((n - 1) - m) as nat == (m - 1) as nat);
}

/// ballot(m - 1, 1) + ... + ballot(m - 1, d + 1) = ballot(m, d).
proof fn lemma_ballot_sum(m: nat, d: nat)
    requires
        m >= 1,
        forall|t: nat| 1 <= t <= d + 1 ==> #[trigger] nc_ways((m - 1) as nat, t) == ballot(
            (m - 1) as nat,
            t,
        ),
    ensures
        ways_sum((m - 1) as nat, d + 1) == ballot(m, d),
    decreases d,
{
    let k = (m - 1) as nat;
    assert(ways_sum(k, 0) == 0);
    if d == 0 {
        assert(nc_ways(k, 1) == ballot(k, 1));
        lemma_ballot_base(m);
    } else {
        lemma_ballot_sum(m, (d - 1) as nat);
        assert(nc_ways(k, d + 1) == ballot(k, d + 1));
        lemma_ballot_step(m, d);
    }
}

/// nc_ways(m, d) is the ballot number C(2m + d, m) - C(2m + d, m - 1).
pub proof fn lemma_nc_ways_ballot(m: nat, d: nat)
    ensures
        nc_ways(m, d) == ballot(m, d),
    decreases m, d,
{
    if m == 0 {
        assert(binom(d, 0) == 1);
    } else {
        assert forall|t: nat| 1 <= t <= d + 1 implies #[trigger] nc_ways((m - 1) as nat, t) == ballot(
            (m - 1) as nat,
            t,
        ) by {
            lemma_nc_ways_ballot((m - 1) as nat, t);
        }
        lemma_ballot_sum(m, d);
    }
}

/// With no open blocks, n elements can be placed in C_n ways.
pub proof fn lemma_nc_ways_catalan(n: nat)
    ensures
        nc_ways(n, 0) == catalan_number(n),
{
    lemma_nc_ways_ballot(n, 0);
    lemma_catalan_binom(n);
    if n == 0 {
        assert(binom(0, 0) == 1);
        assert(catalan_number(0) * 1 == 1);
    } else {
        // C(2n, n - 1) = C(2n, n + 1)
        lemma_binom_symmetric(2 * n, (n - 1) as nat);
        assert((2 * n - (n - 1)) as nat == n + 1);
        crate::numbers::lemma_binom_step(2 * n, n);
        let a = binom(2 * n, n);
        let b = binom(2 * n, n + 1);
        let c = catalan_number(n);
        assert(c * (n + 1) == a);
        assert((n + 1) * b == n * a);
        assert(c == a - b) by (nonlinear_arith)
            requires
                c * (n + 1) == a,
                (n + 1) * b == n * a,
        ;
    }
}


/// Block j has elements on both sides of an element of block i.
pub open spec fn straddles(p: Seq<Seq<usize>>, j: int, i: int) -> bool {
    exists|k: int, u: int, v: int|
        #![trigger p[j][u], p[i][k], p[j][v]]
        0 <= k < p[i].len() && 0 <= u < p[j].len() && 0 <= v < p[j].len() && p[j][u] < p[i][k]
            && p[i][k] < p[j][v]
}

/// No other block straddles an element of block i: block i can still grow.
pub open spec fn open_block(p: Seq<Seq<usize>>, i: int) -> bool {
    forall|j: int| 0 <= j < p.len() && j != i ==> !#[trigger] straddles(p, j, i)
}

/// The number of open blocks among the first i.
pub open spec fn open_upto(p: Seq<Seq<usize>>, i: int) -> nat
    decreases i,
{
    if i <= 0 {
        0
    } else {
        open_upto(p, i - 1) + if open_block(p, i - 1) {
            1nat
        } else {
            0nat
        }
    }
}

proof fn lemma_open_upto_same(p: Seq<Seq<usize>>, q: Seq<Seq<usize>>, t: int)
    requires
        forall|k: int| 0 <= k < t ==> #[trigger] open_block(p, k) == open_block(q, k),
    ensures
        open_upto(p, t) == open_upto(q, t),
    decreases t,
{
    if t > 0 {
        lemma_open_upto_same(p, q, t - 1);
        assert(open_block(p, t - 1) == open_block(q, t - 1));
    }
}

proof fn lemma_open_upto_closed(q: Seq<Seq<usize>>, a: int, b: int)
    requires
        0 <= a <= b,
        forall|k: int| a <= k < b ==> !#[trigger] open_block(q, k),
    ensures
        open_upto(q, b) == open_upto(q, a),
    decreases b - a,
{
    if b > a {
        lemma_open_upto_closed(q, a, b - 1);
        assert(!open_block(q, b - 1));
    }
}

/// The sets of joining element e to block i.
proof fn lemma_join_sets(p: Seq<Seq<usize>>, i: int, e: usize)
    requires
        0 <= i < p.len(),
    ensures
        partition_sets(p.update(i, p[i].push(e)))[i] == partition_sets(p)[i].insert(e),
        forall|j: int|
            0 <= j < p.len() && j != i ==> #[trigger] partition_sets(p.update(i, p[i].push(e)))[j]
                == partition_sets(p)[j],
        partition_sets(p.update(i, p[i].push(e))).len() == p.len(),
{
    p[i].lemma_push_to_set_commute(e);
}

/// Blocks i and j of a non-crossing list do not cross.
proof fn lemma_nc_pair(p: Seq<Seq<usize>>, i: int, j: int)
    requires
        nc_list(p),
        0 <= i < p.len(),
        0 <= j < p.len(),
        i != j,
    ensures
        !interleaves(partition_sets(p)[i], partition_sets(p)[j]),
{
    let bs = partition_sets(p);
    if i < j {
        assert(!blocks_cross_spec(bs[i], bs[j]));
    } else {
        assert(!blocks_cross_spec(bs[j], bs[i]));
    }
}

/// Joining m + 1 to block i keeps the list non-crossing exactly when block i is open.
pub proof fn lemma_join_nc(p: Seq<Seq<usize>>, m: int, i: int)
    requires
        canonical(p, m),
        nc_list(p),
        0 <= i < p.len(),
        0 <= m,
        m + 1 <= usize::MAX,
    ensures
        nc_list(p.update(i, p[i].push((m + 1) as usize))) <==> open_block(p, i),
{
    let e = (m + 1) as usize;
    let q = p.update(i, p[i].push(e));
    let ps = partition_sets(p);
    let qs = partition_sets(q);
    lemma_join_sets(p, i, e);
    if open_block(p, i) {
        assert forall|a: int, b: int| 0 <= a < b < qs.len() implies !#[trigger] blocks_cross_spec(
            qs[a],
            qs[b],
        ) by {
            if a != i && b != i {
                assert(qs[a] == ps[a] && qs[b] == ps[b]);
                assert(!blocks_cross_spec(ps[a], ps[b]));
            } else {
                let j = if a == i {
                    b
                } else {
                    a
                };
                lemma_join_no_cross(p, m, i, j);
            }
        }
    } else {
        let j = choose|j: int| 0 <= j < p.len() && j != i && #[trigger] straddles(p, j, i);
        let (k, u, v) = choose|k: int, u: int, v: int|
            #![trigger p[j][u], p[i][k], p[j][v]]
            0 <= k < p[i].len() && 0 <= u < p[j].len() && 0 <= v < p[j].len() && p[j][u] < p[i][k]
                && p[i][k] < p[j][v];
        assert(p[j][v] <= m);
        assert(ps[j].contains(p[j][u]) && ps[j].contains(p[j][v]));
        assert(ps[i].contains(p[i][k]));
        assert(qs[i].contains(p[i][k]) && qs[i].contains(e));
        assert(qs[j] == ps[j]);
        assert(interleaves(qs[j], qs[i]));
        if i < j {
            assert(blocks_cross_spec(qs[i], qs[j]));
        } else {
            assert(blocks_cross_spec(qs[j], qs[i]));
        }
    }
}

/// With block i open, the joined block i does not cross block j.
proof fn lemma_join_no_cross(p: Seq<Seq<usize>>, m: int, i: int, j: int)
    requires
        canonical(p, m),
        nc_list(p),
        open_block(p, i),
        0 <= i < p.len(),
        0 <= j < p.len(),
        i != j,
        0 <= m,
        m + 1 <= usize::MAX,
    ensures
        !blocks_cross_spec(
            partition_sets(p.update(i, p[i].push((m + 1) as usize)))[i],
            partition_sets(p.update(i, p[i].push((m + 1) as usize)))[j],
        ),
        !blocks_cross_spec(
            partition_sets(p.update(i, p[i].push((m + 1) as usize)))[j],
            partition_sets(p.update(i, p[i].push((m + 1) as usize)))[i],
        ),
{
    let e = (m + 1) as usize;
    let q = p.update(i, p[i].push(e));
    let ps = partition_sets(p);
    let qs = partition_sets(q);
    lemma_join_sets(p, i, e);
    lemma_nc_pair(p, i, j);
    lemma_nc_pair(p, j, i);
    assert(qs[j] == ps[j]);
    assert forall|x: usize| ps[j].contains(x) implies x <= m by {
        let t = p[j].index_of(x);
        assert(p[j][t] == x);
    }
    if interleaves(qs[i], qs[j]) {
        let (a1, b1, a2, b2) = choose|a1: usize, b1: usize, a2: usize, b2: usize|
            #![trigger qs[i].contains(a1), qs[j].contains(b1), qs[i].contains(a2), qs[j].contains(b2)]
            qs[i].contains(a1) && qs[j].contains(b1) && qs[i].contains(a2) && qs[j].contains(b2) && a1
                < b1 && b1 < a2 && a2 < b2;
        assert(ps[i].contains(a1) && ps[i].contains(a2));
        assert(interleaves(ps[i], ps[j]));
    }
    if interleaves(qs[j], qs[i]) {
        let (b1, a1, b2, a2) = choose|b1: usize, a1: usize, b2: usize, a2: usize|
            #![trigger qs[j].contains(b1), qs[i].contains(a1), qs[j].contains(b2), qs[i].contains(a2)]
            qs[j].contains(b1) && qs[i].contains(a1) && qs[j].contains(b2) && qs[i].contains(a2) && b1
                < a1 && a1 < b2 && b2 < a2;
        assert(ps[i].contains(a1));
        if a2 == e {
            let k = p[i].index_of(a1);
            let u = p[j].index_of(b1);
            let v = p[j].index_of(b2);
            assert(p[i][k] == a1 && p[j][u] == b1 && p[j][v] == b2);
            assert(straddles(p, j, i));
        } else {
            assert(ps[i].contains(a2));
            assert(interleaves(ps[j], ps[i]));
        }
    }
}

/// After joining m + 1 to the open block i, the open blocks are the open blocks before i
/// and block i itself.
pub proof fn lemma_join_open_count(p: Seq<Seq<usize>>, m: int, i: int)
    requires
        canonical(p, m),
        open_block(p, i),
        0 <= i < p.len(),
        0 <= m,
        m + 1 <= usize::MAX,
    ensures
        open_upto(
            p.update(i, p[i].push((m + 1) as usize)),
            p.len() as int,
        ) == open_upto(p, i) + 1,
{
    let e = (m + 1) as usize;
    let q = p.update(i, p[i].push(e));
    assert(q[i].len() == p[i].len() + 1);
    assert(q[i][p[i].len() as int] == e);
    assert forall|j: int, x: int| 0 <= j < p.len() && 0 <= x < p[j].len() implies #[trigger] q[j][x]
        == p[j][x] by {
        if j == i {
            assert(q[i][x] == p[i].push(e)[x]);
        }
    }
    // block i stays open
    assert(open_block(q, i)) by {
        assert forall|j: int| 0 <= j < q.len() && j != i implies !#[trigger] straddles(q, j, i) by {
            if straddles(q, j, i) {
                let (k, u, v) = choose|k: int, u: int, v: int|
                    #![trigger q[j][u], q[i][k], q[j][v]]
                    0 <= k < q[i].len() && 0 <= u < q[j].len() && 0 <= v < q[j].len() && q[j][u]
                        < q[i][k] && q[i][k] < q[j][v];
                assert(q[j] == p[j]);
                assert(p[j][v] <= m);
                assert(k < p[i].len());
                assert(q[i][k] == p[i][k]);
                assert(straddles(p, j, i));
            }
        }
    }
    // blocks before i keep their state
    assert forall|k: int| 0 <= k < i implies #[trigger] open_block(p, k) == open_block(q, k) by {
        if open_block(p, k) {
            assert forall|j: int| 0 <= j < q.len() && j != k implies !#[trigger] straddles(q, j, k) by {
                if straddles(q, j, k) {
                    let (c, u, v) = choose|c: int, u: int, v: int|
                        #![trigger q[j][u], q[k][c], q[j][v]]
                        0 <= c < q[k].len() && 0 <= u < q[j].len() && 0 <= v < q[j].len() && q[j][u]
                            < q[k][c] && q[k][c] < q[j][v];
                    assert(q[k] == p[k]);
                    assert(p[k][c] <= m);
                    if j != i {
                        assert(q[j] == p[j]);
                        assert(straddles(p, j, k));
                    } else {
                        assert(u < p[i].len());
                        assert(q[i][u] == p[i][u]);
                        if v < p[i].len() {
                            assert(q[i][v] == p[i][v]);
                            assert(straddles(p, i, k));
                        } else {
                            // block k would straddle p[i][u]
                            assert(p[k][0] < p[i][0]);
                            if u > 0 {
                                assert(p[i][0] < p[i][u]);
                            }
                            assert(straddles(p, k, i));
                        }
                    }
                }
            }
        } else {
            let j = choose|j: int| 0 <= j < p.len() && j != k && #[trigger] straddles(p, j, k);
            let (c, u, v) = choose|c: int, u: int, v: int|
                #![trigger p[j][u], p[k][c], p[j][v]]
                0 <= c < p[k].len() && 0 <= u < p[j].len() && 0 <= v < p[j].len() && p[j][u] < p[k][c]
                    && p[k][c] < p[j][v];
            assert(q[j][u] == p[j][u] && q[j][v] == p[j][v] && q[k][c] == p[k][c]);
            assert(straddles(q, j, k));
        }
    }
    // blocks after i become closed: block i straddles their first element
    assert forall|k: int| i < k < q.len() implies !#[trigger] open_block(q, k) by {
        assert(p[i][0] < p[k][0]);
        assert(p[k][0] <= m);
        assert(q[i][0] == p[i][0]);
        assert(q[k][0] == p[k][0]);
        assert(straddles(q, i, k));
    }
    lemma_open_upto_same(p, q, i);
    assert(open_upto(q, i + 1) == open_upto(q, i) + 1);
    lemma_open_upto_closed(q, i + 1, p.len() as int);
}

/// Opening the block {m + 1} keeps the list non-crossing and adds one open block.
pub proof fn lemma_open_new_block(p: Seq<Seq<usize>>, m: int)
    requires
        canonical(p, m),
        nc_list(p),
        0 <= m,
        m + 1 <= usize::MAX,
    ensures
        nc_list(p.push(seq![(m + 1) as usize])),
        open_upto(p.push(seq![(m + 1) as usize]), p.len() + 1int) == open_upto(p, p.len() as int) + 1,
{
    let e = (m + 1) as usize;
    let q = p.push(seq![e]);
    let ps = partition_sets(p);
    let qs = partition_sets(q);
    let last = p.len() as int;
    assert(qs[last] =~= set![e]) by {
        assert(q[last] == seq![e]);
        assert forall|x: usize| seq![e].to_set().contains(x) <==> x == e by {
            if x == e {
                assert(seq![e][0] == e);
            }
        }
    }
    assert forall|a: int, b: int| 0 <= a < b < qs.len() implies !#[trigger] blocks_cross_spec(
        qs[a],
        qs[b],
    ) by {
        assert(qs[a] == ps[a]);
        if b < last {
            assert(qs[b] == ps[b]);
            assert(!blocks_cross_spec(ps[a], ps[b]));
        } else {
            let s = qs[b];
            assert(s == set![e]);
            if interleaves(qs[a], s) {
                let (a1, b1, a2, b2) = choose|a1: usize, b1: usize, a2: usize, b2: usize|
                    #![trigger qs[a].contains(a1), s.contains(b1), qs[a].contains(a2), s.contains(b2)]
                    qs[a].contains(a1) && s.contains(b1) && qs[a].contains(a2) && s.contains(b2) && a1
                        < b1 && b1 < a2 && a2 < b2;
            }
            if interleaves(s, qs[a]) {
                let (a1, b1, a2, b2) = choose|a1: usize, b1: usize, a2: usize, b2: usize|
                    #![trigger s.contains(a1), qs[a].contains(b1), s.contains(a2), qs[a].contains(b2)]
                    s.contains(a1) && qs[a].contains(b1) && s.contains(a2) && qs[a].contains(b2) && a1
                        < b1 && b1 < a2 && a2 < b2;
            }
        }
    }
    assert forall|k: int| 0 <= k < last implies #[trigger] open_block(p, k) == open_block(q, k) by {
        assert(q[k] == p[k]);
        if open_block(p, k) {
            assert forall|j: int| 0 <= j < q.len() && j != k implies !#[trigger] straddles(q, j, k) by {
                if j < last {
                    assert(q[j] == p[j]);
                    if straddles(q, j, k) {
                        let (c, u, v) = choose|c: int, u: int, v: int|
                            #![trigger q[j][u], q[k][c], q[j][v]]
                            0 <= c < q[k].len() && 0 <= u < q[j].len() && 0 <= v < q[j].len()
                                && q[j][u] < q[k][c] && q[k][c] < q[j][v];
                        assert(straddles(p, j, k));
                    }
                }
            }
        } else {
            let j = choose|j: int| 0 <= j < p.len() && j != k && #[trigger] straddles(p, j, k);
            let (c, u, v) = choose|c: int, u: int, v: int|
                #![trigger p[j][u], p[k][c], p[j][v]]
                0 <= c < p[k].len() && 0 <= u < p[j].len() && 0 <= v < p[j].len() && p[j][u] < p[k][c]
                    && p[k][c] < p[j][v];
            assert(q[j] == p[j]);
            assert(straddles(q, j, k));
        }
    }
    assert(open_block(q, last)) by {
        assert forall|j: int| 0 <= j < q.len() && j != last implies !#[trigger] straddles(q, j, last) by {
            assert(q[j] == p[j]);
            if straddles(q, j, last) {
                let (c, u, v) = choose|c: int, u: int, v: int|
                    #![trigger q[j][u], q[last][c], q[j][v]]
                    0 <= c < q[last].len() && 0 <= u < q[j].len() && 0 <= v < q[j].len() && q[j][u]
                        < q[last][c] && q[last][c] < q[j][v];
                assert(p[j][v] <= m);
            }
        }
    }
    lemma_open_upto_same(p, q, last);
}

/// The completions of a canonical non-crossing partial partition of {1, ..., elem - 1}
/// number nc_ways(n + 1 - elem, number of open blocks).
pub proof fn lemma_completions_count(p: Seq<Seq<usize>>, elem: int, n: int)
    requires
        canonical(p, elem - 1),
        nc_list(p),
        1 <= elem <= n + 1,
        n < usize::MAX,
    ensures
        completions(p, elem, n).len() == nc_ways((n + 1 - elem) as nat, open_upto(p, p.len() as int)),
    decreases n + 1 - elem, 1int, 0int,
{
    let d = open_upto(p, p.len() as int);
    if elem > n {
        assert(completions(p, elem, n).len() == 1);
    } else {
        let q = p.push(seq![elem as usize]);
        lemma_extensions_count(p, elem, n, p.len() as int);
        lemma_canonical_open(p, elem - 1);
        lemma_open_new_block(p, elem - 1);
        lemma_completions_count(q, elem + 1, n);
        assert(q.len() == p.len() + 1);
        let m = (n - elem) as nat;
        assert((n + 1 - (elem + 1)) as nat == m);
        assert(nc_ways(m + 1, d) == ways_sum(m, d + 1));
        assert(ways_sum(m, d + 1) == ways_sum(m, d) + nc_ways(m, d + 1));
    }
}

/// The completions through the first i blocks number nc_ways(n - elem, 1) + ... +
/// nc_ways(n - elem, number of open blocks among them).
proof fn lemma_extensions_count(p: Seq<Seq<usize>>, elem: int, n: int, i: int)
    requires
        canonical(p, elem - 1),
        nc_list(p),
        1 <= elem <= n,
        n < usize::MAX,
        0 <= i <= p.len(),
    ensures
        extensions_upto(p, elem, n, i).len() == ways_sum((n - elem) as nat, open_upto(p, i)),
    decreases n + 1 - elem, 0int, i,
{
    let m = (n - elem) as nat;
    if i == 0 {
        assert(extensions_upto(p, elem, n, 0).len() == 0);
    } else {
        lemma_extensions_count(p, elem, n, i - 1);
        let q = p.update(i - 1, p[i - 1].push(elem as usize));
        lemma_join_nc(p, elem - 1, i - 1);
        let prev = extensions_upto(p, elem, n, i - 1);
        if open_block(p, i - 1) {
            lemma_canonical_join(p, elem - 1, i - 1);
            lemma_join_open_count(p, elem - 1, i - 1);
            lemma_completions_count(q, elem + 1, n);
            assert(q.len() == p.len());
            assert((n + 1 - (elem + 1)) as nat == m);
            assert(extensions_upto(p, elem, n, i) == prev + completions(q, elem + 1, n));
            let d = open_upto(p, i);
            assert(d == open_upto(p, i - 1) + 1);
            assert(ways_sum(m, d) == ways_sum(m, (d - 1) as nat) + nc_ways(m, d));
        } else {
            assert(extensions_upto(p, elem, n, i) =~= prev);
        }
    }
}

/// The search from the empty listing yields C_n partitions.
pub proof fn lemma_enumeration_count(n: int)
    requires
        1 <= n < usize::MAX,
    ensures
        completions(seq![], 1, n).len() == catalan_number(n as nat),
{
    let empty = Seq::<Seq<usize>>::empty();
    assert(canonical(empty, 0));
    assert(nc_list(empty));
    lemma_completions_count(empty, 1, n);
    assert(open_upto(empty, 0) == 0);
    lemma_nc_ways_catalan(n as nat);
}
/// nc_ways(0, 0) nc_ways(m, d) + ... + nc_ways(k - 1, 0) nc_ways(m - k + 1, d).
spec fn split_sum(m: nat, d: nat, k: nat) -> int
    decreases k,
{
    if k == 0 {
        0
    } else {
        split_sum(m, d, (k - 1) as nat) + nc_ways((k - 1) as nat, 0) * nc_ways((m - (k - 1)) as nat, d)
    }
}

/// C_0 C_n + C_1 C_(n-1) + ... + C_(k-1) C_(n-k+1).
pub open spec fn catalan_convolution(n: nat, k: nat) -> int
    decreases k,
{
    if k == 0 {
        0
    } else {
        catalan_convolution(n, (k - 1) as nat) + catalan_number((k - 1) as nat) * catalan_number(
            (n - (k - 1)) as nat,
        )
    }
}

/// The step rules of nc_ways: one fewer open block, or one element fewer and one more
/// open block.
proof fn lemma_ways_step(m: nat, d: nat)
    requires
        m >= 1,
    ensures
        d >= 1 ==> nc_ways(m, d) == nc_ways(m, (d - 1) as nat) + nc_ways((m - 1) as nat, d + 1),
        d == 0 ==> nc_ways(m, 0) == nc_ways((m - 1) as nat, 1),
{
    assert(nc_ways(m, d) == ways_sum((m - 1) as nat, d + 1));
    if d >= 1 {
        assert(nc_ways(m, (d - 1) as nat) == ways_sum((m - 1) as nat, d));
    } else {
        assert(ways_sum((m - 1) as nat, 0) == 0);
    }
}

/// For d >= 1, the split sums for d and d - 1 differ by the split sums one element
/// down and one block up (k <= m).
proof fn lemma_split_difference(m: nat, d: nat, k: nat)
    requires
        d >= 1,
        k <= m,
    ensures
        split_sum(m, d, k) - split_sum(m, (d - 1) as nat, k) == split_sum((m - 1) as nat, d + 1, k),
    decreases k,
{
    if k > 0 {
        lemma_split_difference(m, d, (k - 1) as nat);
        let i = (k - 1) as nat;
        let j = (m - i) as nat;
        lemma_ways_step(j, d);
        assert((m - 1 - i) as nat == (j - 1) as nat);
        let a = nc_ways(i, 0) as int;
        let b = nc_ways(j, (d - 1) as nat) as int;
        let c = nc_ways((j - 1) as nat, d + 1) as int;
        assert(a * (b + c) - a * b == a * c) by (nonlinear_arith);
    }
}

/// Shifting one element from the count into an open block: the split sums for (m - 1, 1)
/// and (m, 0) agree up to k <= m.
proof fn lemma_split_shift(m: nat, k: nat)
    requires
        m >= 1,
        k <= m,
    ensures
        split_sum((m - 1) as nat, 1, k) == split_sum(m, 0, k),
    decreases k,
{
    if k > 0 {
        lemma_split_shift(m, (k - 1) as nat);
        let i = (k - 1) as nat;
        lemma_ways_step((m - i) as nat, 0);
        assert((m - 1 - i) as nat == ((m - i) as nat - 1) as nat);
    }
}

/// First passage: nc_ways(m, d + 1) splits by the number of elements placed before the
/// open block count first drops to d.
proof fn lemma_first_passage(m: nat, d: nat)
    ensures
        nc_ways(m, d + 1) == split_sum(m, d, m + 1),
    decreases m, d,
{
    if m == 0 {
        assert(split_sum(0, d, 1) == split_sum(0, d, 0) + nc_ways(0, 0) * nc_ways(0, d));
    } else if d == 0 {
        lemma_ways_step(m, 1);
        lemma_first_passage((m - 1) as nat, 1);
        lemma_split_shift(m, m);
        assert(split_sum(m, 0, m + 1) == split_sum(m, 0, m) + nc_ways(m, 0) * nc_ways(0, 0));
    } else {
        lemma_ways_step(m, d + 1);
        lemma_first_passage(m, (d - 1) as nat);
        lemma_first_passage((m - 1) as nat, d + 1);
        lemma_split_difference(m, d, m);
        assert(split_sum(m, d, m + 1) == split_sum(m, d, m) + nc_ways(m, 0) * nc_ways(0, d));
        assert(split_sum(m, (d - 1) as nat, m + 1) == split_sum(m, (d - 1) as nat, m) + nc_ways(m, 0)
            * nc_ways(0, (d - 1) as nat));
    }
}

/// The split sums at d = 0 are Catalan convolutions.
proof fn lemma_split_catalan(n: nat, k: nat)
    requires
        k <= n + 1,
    ensures
        split_sum(n, 0, k) == catalan_convolution(n, k),
    decreases k,
{
    if k > 0 {
        lemma_split_catalan(n, (k - 1) as nat);
        lemma_nc_ways_catalan((k - 1) as nat);
        lemma_nc_ways_catalan((n - (k - 1)) as nat);
    }
}

/// Catalan's recurrence: C_(n+1) = C_0 C_n + C_1 C_(n-1) + ... + C_n C_0.
pub proof fn law_catalan_recurrence(n: nat)
    ensures
        catalan_number(n + 1) == catalan_convolution(n, n + 1),
{
    lemma_nc_ways_catalan(n + 1);
    lemma_ways_step(n + 1, 0);
    lemma_first_passage(n, 0);
    lemma_split_catalan(n, n + 1);
}

} // verus!
