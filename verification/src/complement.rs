//! Relative Kreweras complements.
//!
//! A partition π of {1, ..., n} whose blocks are read as cycles (each block run through
//! in increasing order, its largest element followed by its smallest) is a permutation
//! of {1, ..., n}. For partitions π and σ of {1, ..., n}, the relative Kreweras
//! complement K_σ(π) is the partition into the cycles of the permutation π⁻¹σ, which
//! sends x to the predecessor in π of the successor of x in σ. With σ the one-block
//! partition 1_n it is the Kreweras complement K(π); for non-crossing π ≤ σ the
//! interval [π, σ] of the non-crossing lattice is a product of the non-crossing
//! lattices of the blocks of K_σ(π).

use std::collections::BTreeSet;
use vstd::prelude::*;
use crate::partition::{block_moebius, finest_blocks, has_element, moebius_product, has_smaller, in_some_block, interval, is_partition_of, lemma_interval_len, set_views};
use crate::sets::{sorted_elements, strictly_increasing};

verus! {

/// A partition of {1, ..., n} into nonempty blocks.
pub open spec fn is_valid_partition(blocks: Seq<Set<usize>>, n: nat) -> bool {
    &&& is_partition_of(blocks, n)
    &&& forall|j: int| 0 <= j < blocks.len() ==> #[trigger] has_element(blocks[j])
}

/// Within the set `s` holding x and y, y follows x cyclically: y is the next larger
/// element, or x is the largest and y the smallest.
pub open spec fn cyclic_next_in(s: Set<usize>, x: usize, y: usize) -> bool {
    ||| x < y && forall|z: usize| #[trigger] s.contains(z) ==> !(x < z && z < y)
    ||| y <= x && forall|z: usize| #[trigger] s.contains(z) ==> y <= z && z <= x
}

/// y follows x cyclically within their common block.
pub open spec fn is_block_next(blocks: Seq<Set<usize>>, x: usize, y: usize) -> bool {
    exists|j: int|
        0 <= j < blocks.len() && #[trigger] blocks[j].contains(x) && blocks[j].contains(y)
            && cyclic_next_in(blocks[j], x, y)
}

/// z is the image of x under π⁻¹σ: the successor of x in σ is the successor of z in π.
pub open spec fn complement_step(pi: Seq<Set<usize>>, sigma: Seq<Set<usize>>, x: usize, z: usize) -> bool {
    exists|y: usize| #[trigger] is_block_next(sigma, x, y) && is_block_next(pi, z, y)
}

/// The permutation π⁻¹σ.
pub open spec fn complement_map(pi: Seq<Set<usize>>, sigma: Seq<Set<usize>>, x: usize) -> usize {
    choose|z: usize| complement_step(pi, sigma, x, z)
}

/// The k-th image of x under π⁻¹σ.
pub open spec fn iterate(pi: Seq<Set<usize>>, sigma: Seq<Set<usize>>, k: nat, x: usize) -> usize
    decreases k,
{
    if k == 0 {
        x
    } else {
        complement_map(pi, sigma, iterate(pi, sigma, (k - 1) as nat, x))
    }
}

/// The cycle of π⁻¹σ through x.
pub open spec fn orbit(pi: Seq<Set<usize>>, sigma: Seq<Set<usize>>, x: usize) -> Set<usize> {
    Set::new(|y: usize| exists|k: nat| #[trigger] iterate(pi, sigma, k, x) == y)
}

/// x is the least element of its cycle.
pub open spec fn is_leader(pi: Seq<Set<usize>>, sigma: Seq<Set<usize>>, x: usize) -> bool {
    forall|y: usize| #[trigger] orbit(pi, sigma, x).contains(y) ==> x <= y
}

/// The cycles whose least element is at most m, in increasing order of least element.
pub open spec fn orbits_upto(pi: Seq<Set<usize>>, sigma: Seq<Set<usize>>, m: int) -> Seq<Set<usize>>
    decreases m,
{
    if m < 1 {
        seq![]
    } else {
        let prev = orbits_upto(pi, sigma, m - 1);
        if is_leader(pi, sigma, m as usize) {
            prev.push(orbit(pi, sigma, m as usize))
        } else {
            prev
        }
    }
}

/// K_σ(π): the cycles of π⁻¹σ on {1, ..., n}, in increasing order of least element.
pub open spec fn relative_complement(pi: Seq<Set<usize>>, sigma: Seq<Set<usize>>, n: nat) -> Seq<Set<usize>> {
    orbits_upto(pi, sigma, n as int)
}

/// The blocks are pairwise disjoint.
pub open spec fn disjoint_blocks(blocks: Seq<Set<usize>>) -> bool {
    forall|i: int, j: int|
        0 <= i < j < blocks.len() ==> (#[trigger] blocks[i]).disjoint(#[trigger] blocks[j])
}

/// Two blocks of disjoint blocks that share an element are the same block.
pub(crate) proof fn lemma_same_block(blocks: Seq<Set<usize>>, i: int, j: int, x: usize)
    requires
        disjoint_blocks(blocks),
        0 <= i < blocks.len(),
        0 <= j < blocks.len(),
        blocks[i].contains(x),
        blocks[j].contains(x),
    ensures
        i == j,
{
    if i < j {
        assert(blocks[i].disjoint(blocks[j]));
    } else if j < i {
        assert(blocks[j].disjoint(blocks[i]));
    }
}

/// The cyclic successor is unique.
pub proof fn lemma_next_unique(blocks: Seq<Set<usize>>, x: usize, y1: usize, y2: usize)
    requires
        disjoint_blocks(blocks),
        is_block_next(blocks, x, y1),
        is_block_next(blocks, x, y2),
    ensures
        y1 == y2,
{
    let j1 = choose|j: int|
        0 <= j < blocks.len() && #[trigger] blocks[j].contains(x) && blocks[j].contains(y1)
            && cyclic_next_in(blocks[j], x, y1);
    let j2 = choose|j: int|
        0 <= j < blocks.len() && #[trigger] blocks[j].contains(x) && blocks[j].contains(y2)
            && cyclic_next_in(blocks[j], x, y2);
    lemma_same_block(blocks, j1, j2, x);
    let s = blocks[j1];
    assert(s.contains(y1) && s.contains(y2));
}

/// The cyclic predecessor is unique.
pub proof fn lemma_prev_unique(blocks: Seq<Set<usize>>, x1: usize, x2: usize, y: usize)
    requires
        disjoint_blocks(blocks),
        is_block_next(blocks, x1, y),
        is_block_next(blocks, x2, y),
    ensures
        x1 == x2,
{
    let j1 = choose|j: int|
        0 <= j < blocks.len() && #[trigger] blocks[j].contains(x1) && blocks[j].contains(y)
            && cyclic_next_in(blocks[j], x1, y);
    let j2 = choose|j: int|
        0 <= j < blocks.len() && #[trigger] blocks[j].contains(x2) && blocks[j].contains(y)
            && cyclic_next_in(blocks[j], x2, y);
    lemma_same_block(blocks, j1, j2, y);
    let s = blocks[j1];
    assert(s.contains(x1) && s.contains(x2));
}

/// A step of π⁻¹σ determines its image.
pub proof fn lemma_step_map(pi: Seq<Set<usize>>, sigma: Seq<Set<usize>>, x: usize, z: usize)
    requires
        disjoint_blocks(pi),
        disjoint_blocks(sigma),
        complement_step(pi, sigma, x, z),
    ensures
        complement_map(pi, sigma, x) == z,
{
    let w = complement_map(pi, sigma, x);
    assert(complement_step(pi, sigma, x, w));
    let y = choose|y: usize| #[trigger] is_block_next(sigma, x, y) && is_block_next(pi, z, y);
    let y2 = choose|y: usize| #[trigger] is_block_next(sigma, x, y) && is_block_next(pi, w, y);
    lemma_next_unique(sigma, x, y, y2);
    lemma_prev_unique(pi, z, w, y);
}

/// π⁻¹σ is one-to-one where it is defined.
pub proof fn lemma_step_injective(
    pi: Seq<Set<usize>>,
    sigma: Seq<Set<usize>>,
    x1: usize,
    x2: usize,
    z: usize,
)
    requires
        disjoint_blocks(pi),
        disjoint_blocks(sigma),
        complement_step(pi, sigma, x1, z),
        complement_step(pi, sigma, x2, z),
    ensures
        x1 == x2,
{
    let y1 = choose|y: usize| #[trigger] is_block_next(sigma, x1, y) && is_block_next(pi, z, y);
    let y2 = choose|y: usize| #[trigger] is_block_next(sigma, x2, y) && is_block_next(pi, z, y);
    lemma_next_unique(pi, z, y1, y2);
    lemma_prev_unique(sigma, x1, x2, y1);
}

/// The index of the block holding x.
fn block_index(bs: &[BTreeSet<usize>], x: usize) -> (j: usize)
    requires
        in_some_block(set_views(bs@), x),
    ensures
        j < bs@.len(),
        bs@[j as int]@.contains(x),
{
    let len = bs.len();
    let mut j: usize = 0;
    while j < len
        invariant
            len == bs@.len(),
            j <= len,
            forall|k: int| 0 <= k < j ==> !(#[trigger] bs@[k])@.contains(x),
        decreases len - j,
    {
        if bs[j].contains(&x) {
            return j;
        }
        j = j + 1;
    }
    proof {
        let k = choose|k: int| 0 <= k < set_views(bs@).len() && #[trigger] set_views(bs@)[k].contains(x);
        assert(set_views(bs@)[k] == bs@[k]@);
        assert(!bs@[k]@.contains(x));
    }
    0
}

/// The position of x in a sequence that holds it.
fn position(v: &Vec<usize>, x: usize) -> (k: usize)
    requires
        v@.contains(x),
    ensures
        k < v@.len(),
        v@[k as int] == x,
{
    let len = v.len();
    let mut k: usize = 0;
    while k < len
        invariant
            len == v@.len(),
            k <= len,
            forall|t: int| 0 <= t < k ==> v@[t] != x,
        decreases len - k,
    {
        if v[k] == x {
            return k;
        }
        k = k + 1;
    }
    proof {
        let t = choose|t: int| 0 <= t < v@.len() && v@[t] == x;
    }
    0
}

/// The successor of x in its block, read cyclically.
fn cyclic_next(bs: &[BTreeSet<usize>], x: usize) -> (y: usize)
    requires
        in_some_block(set_views(bs@), x),
    ensures
        is_block_next(set_views(bs@), x, y),
{
    let j = block_index(bs, x);
    let v = sorted_elements(&bs[j]);
    let ghost s = set_views(bs@)[j as int];
    proof {
        assert(s == bs@[j as int]@);
        assert(v@.to_set().contains(x));
    }
    let k = position(&v, x);
    let len = v.len();
    let y = if k + 1 < len {
        v[k + 1]
    } else {
        v[0]
    };
    proof {
        assert(v@.to_set().contains(y));
        assert forall|z: usize| #[trigger] s.contains(z) implies v@.contains(z) by {
            assert(v@.to_set().contains(z));
        }
        if k + 1 < len {
            assert forall|z: usize| #[trigger] s.contains(z) implies !(x < z && z < y) by {
                assert(v@.contains(z));
                let t = v@.index_of(z);
                assert(v@[t] == z);
                if t <= k {
                    if t < k {
                        assert(v@[t] < v@[k as int]);
                    }
                } else if t > k + 1 {
                    assert(v@[k + 1] < v@[t]);
                }
            }
        } else {
            assert forall|z: usize| #[trigger] s.contains(z) implies y <= z && z <= x by {
                assert(v@.contains(z));
                let t = v@.index_of(z);
                assert(v@[t] == z);
                if 0 < t {
                    assert(v@[0] < v@[t]);
                }
                if t < k {
                    assert(v@[t] < v@[k as int]);
                }
            }
        }
        assert(cyclic_next_in(s, x, y));
        assert(set_views(bs@)[j as int].contains(x));
    }
    y
}

/// The predecessor of y in its block, read cyclically.
fn cyclic_prev(bs: &[BTreeSet<usize>], y: usize) -> (x: usize)
    requires
        in_some_block(set_views(bs@), y),
    ensures
        is_block_next(set_views(bs@), x, y),
{
    let j = block_index(bs, y);
    let v = sorted_elements(&bs[j]);
    let ghost s = set_views(bs@)[j as int];
    proof {
        assert(s == bs@[j as int]@);
        assert(v@.to_set().contains(y));
    }
    let k = position(&v, y);
    let len = v.len();
    let x = if k > 0 {
        v[k - 1]
    } else {
        v[len - 1]
    };
    proof {
        assert(v@.to_set().contains(x));
        assert forall|z: usize| #[trigger] s.contains(z) implies v@.contains(z) by {
            assert(v@.to_set().contains(z));
        }
        if k > 0 {
            assert forall|z: usize| #[trigger] s.contains(z) implies !(x < z && z < y) by {
                assert(v@.contains(z));
                let t = v@.index_of(z);
                assert(v@[t] == z);
                if t < k - 1 {
                    assert(v@[t] < v@[k - 1]);
                } else if t > k {
                    assert(v@[k as int] < v@[t]);
                }
            }
        } else {
            assert forall|z: usize| #[trigger] s.contains(z) implies y <= z && z <= x by {
                assert(v@.contains(z));
                let t = v@.index_of(z);
                assert(v@[t] == z);
                if 0 < t {
                    assert(v@[0] < v@[t]);
                }
                if t < len - 1 {
                    assert(v@[t] < v@[len - 1]);
                }
            }
        }
        assert(cyclic_next_in(s, x, y));
        assert(set_views(bs@)[j as int].contains(y));
    }
    x
}

/// `t` tabulates π⁻¹σ on {1, ..., n}.
spec fn table_ok(pi: Seq<Set<usize>>, sigma: Seq<Set<usize>>, n: nat, t: Seq<usize>) -> bool {
    &&& t.len() == n + 1
    &&& forall|x: usize|
        #![trigger t[x as int]]
        1 <= x <= n ==> t[x as int] == complement_map(pi, sigma, x) && 1 <= t[x as int] <= n
            && complement_step(pi, sigma, x, t[x as int])
}

/// The permutation π⁻¹σ as a table indexed by 1..=n.
fn complement_table(pi: &[BTreeSet<usize>], sigma: &[BTreeSet<usize>], n: usize) -> (t: Vec<usize>)
    requires
        n < usize::MAX,
        is_valid_partition(set_views(pi@), n as nat),
        is_valid_partition(set_views(sigma@), n as nat),
    ensures
        table_ok(set_views(pi@), set_views(sigma@), n as nat, t@),
{
    let ghost p = set_views(pi@);
    let ghost q = set_views(sigma@);
    let mut t: Vec<usize> = Vec::new();
    t.push(0);
    let mut x: usize = 1;
    while x <= n
        invariant
            n < usize::MAX,
            p == set_views(pi@),
            q == set_views(sigma@),
            is_valid_partition(p, n as nat),
            is_valid_partition(q, n as nat),
            1 <= x <= n + 1,
            t@.len() == x,
            forall|w: usize|
                #![trigger t@[w as int]]
                1 <= w < x ==> t@[w as int] == complement_map(p, q, w) && 1 <= t@[w as int] <= n
                    && complement_step(p, q, w, t@[w as int]),
        decreases n + 1 - x,
    {
        assert(in_some_block(q, x));
        let y = cyclic_next(sigma, x);
        proof {
            let j = choose|j: int|
                0 <= j < q.len() && #[trigger] q[j].contains(x) && q[j].contains(y)
                    && cyclic_next_in(q[j], x, y);
            assert(q[j].contains(y));
            assert(1 <= y <= n);
            assert(in_some_block(p, y));
        }
        let z = cyclic_prev(pi, y);
        proof {
            let j = choose|j: int|
                0 <= j < p.len() && #[trigger] p[j].contains(z) && p[j].contains(y)
                    && cyclic_next_in(p[j], z, y);
            assert(p[j].contains(z));
            assert(complement_step(p, q, x, z));
            lemma_step_map(p, q, x, z);
        }
        t.push(z);
        x = x + 1;
    }
    t
}

/// A list of distinct elements of {1, ..., n} has at most n entries.
proof fn lemma_distinct_bound(s: Seq<usize>, n: nat)
    requires
        n <= usize::MAX,
        s.no_duplicates(),
        forall|k: int| 0 <= k < s.len() ==> 1 <= #[trigger] s[k] <= n,
    ensures
        s.len() <= n,
{
    s.unique_seq_to_set();
    lemma_interval_len(n as int);
    assert(s.to_set().subset_of(interval(1, n as int))) by {
        assert forall|y: usize| s.to_set().contains(y) implies interval(1, n as int).contains(y) by {
            let k = s.index_of(y);
        }
    }
    vstd::set_lib::lemma_len_subset(s.to_set(), interval(1, n as int));
}

/// `path` runs once around a cycle of π⁻¹σ.
spec fn is_cycle(pi: Seq<Set<usize>>, sigma: Seq<Set<usize>>, path: Seq<usize>) -> bool {
    &&& path.len() >= 1
    &&& forall|k: int|
        0 <= k < path.len() - 1 ==> complement_map(pi, sigma, #[trigger] path[k]) == path[k + 1]
    &&& complement_map(pi, sigma, path[path.len() - 1]) == path[0]
}

/// Iterating a + b times is iterating a times, then b times.
pub(crate) proof fn lemma_iterate_add(pi: Seq<Set<usize>>, sigma: Seq<Set<usize>>, a: nat, b: nat, x: usize)
    ensures
        iterate(pi, sigma, a + b, x) == iterate(pi, sigma, b, iterate(pi, sigma, a, x)),
    decreases b,
{
    if b > 0 {
        lemma_iterate_add(pi, sigma, a, (b - 1) as nat, x);
        assert((a + b - 1) as nat == a + (b - 1) as nat);
    }
}

/// Along a cycle, iterating j times from position k moves to position k + j.
proof fn lemma_iterate_along(pi: Seq<Set<usize>>, sigma: Seq<Set<usize>>, path: Seq<usize>, k: int, j: nat)
    requires
        is_cycle(pi, sigma, path),
        0 <= k,
        k + j < path.len(),
    ensures
        iterate(pi, sigma, j, path[k]) == path[k + j],
    decreases j,
{
    if j > 0 {
        lemma_iterate_along(pi, sigma, path, k, (j - 1) as nat);
        assert(complement_map(pi, sigma, path[k + j - 1]) == path[k + j - 1 + 1]);
    }
}

/// Iterating from a point of a cycle stays on the cycle.
proof fn lemma_iterate_stays(pi: Seq<Set<usize>>, sigma: Seq<Set<usize>>, path: Seq<usize>, k: int, m: nat)
    requires
        is_cycle(pi, sigma, path),
        0 <= k < path.len(),
    ensures
        path.contains(iterate(pi, sigma, m, path[k])),
    decreases m,
{
    if m == 0 {
        assert(path[k] == path[k]);
    } else {
        lemma_iterate_stays(pi, sigma, path, k, (m - 1) as nat);
        let prev = iterate(pi, sigma, (m - 1) as nat, path[k]);
        let t = path.index_of(prev);
        if t < path.len() - 1 {
            assert(complement_map(pi, sigma, path[t]) == path[t + 1]);
        } else {
            assert(path[path.len() - 1] == prev);
        }
    }
}

/// The cycle of π⁻¹σ through any point of a cycle is the set of its points.
proof fn lemma_cycle_orbit(pi: Seq<Set<usize>>, sigma: Seq<Set<usize>>, path: Seq<usize>, k: int)
    requires
        is_cycle(pi, sigma, path),
        0 <= k < path.len(),
    ensures
        orbit(pi, sigma, path[k]) == path.to_set(),
{
    let len = path.len();
    assert forall|y: usize| orbit(pi, sigma, path[k]).contains(y) implies path.to_set().contains(y) by {
        let m = choose|m: nat| #[trigger] iterate(pi, sigma, m, path[k]) == y;
        lemma_iterate_stays(pi, sigma, path, k, m);
    }
    assert forall|y: usize| path.to_set().contains(y) implies orbit(pi, sigma, path[k]).contains(y) by {
        let t = path.index_of(y);
        if t >= k {
            lemma_iterate_along(pi, sigma, path, k, (t - k) as nat);
            assert(iterate(pi, sigma, (t - k) as nat, path[k]) == y);
        } else {
            let a = (len - 1 - k) as nat;
            lemma_iterate_along(pi, sigma, path, k, a);
            lemma_iterate_add(pi, sigma, a, 1, path[k]);
            assert(iterate(pi, sigma, a + 1, path[k]) == path[0]);
            lemma_iterate_along(pi, sigma, path, 0, t as nat);
            lemma_iterate_add(pi, sigma, a + 1, t as nat, path[k]);
            assert(iterate(pi, sigma, a + 1 + t as nat, path[k]) == y);
        }
    }
    assert(orbit(pi, sigma, path[k]) =~= path.to_set());
}

/// The cycle of π⁻¹σ through x0, as a list starting at x0.
fn follow_cycle(t: &Vec<usize>, x0: usize, n: usize, Ghost(pi): Ghost<Seq<Set<usize>>>, Ghost(sigma): Ghost<Seq<Set<usize>>>) -> (path: Vec<usize>)
    requires
        n < usize::MAX,
        disjoint_blocks(pi),
        disjoint_blocks(sigma),
        table_ok(pi, sigma, n as nat, t@),
        1 <= x0 <= n,
    ensures
        is_cycle(pi, sigma, path@),
        path@[0] == x0,
        path@.no_duplicates(),
        forall|k: int| 0 <= k < path@.len() ==> 1 <= #[trigger] path@[k] <= n,
{
    let mut path: Vec<usize> = Vec::new();
    path.push(x0);
    let mut cur = x0;
    loop
        invariant
            n < usize::MAX,
            disjoint_blocks(pi),
            disjoint_blocks(sigma),
            table_ok(pi, sigma, n as nat, t@),
            1 <= x0 <= n,
            path@.len() >= 1,
            path@[0] == x0,
            cur == path@[path@.len() - 1],
            path@.no_duplicates(),
            forall|k: int| 0 <= k < path@.len() ==> 1 <= #[trigger] path@[k] <= n,
            forall|k: int|
                0 <= k < path@.len() - 1 ==> complement_map(pi, sigma, #[trigger] path@[k]) == path@[k + 1],
        ensures
            is_cycle(pi, sigma, path@),
            path@[0] == x0,
            path@.no_duplicates(),
            forall|k: int| 0 <= k < path@.len() ==> 1 <= #[trigger] path@[k] <= n,
        decreases n - path@.len(),
    {
        proof {
            lemma_distinct_bound(path@, n as nat);
        }
        let y = t[cur];
        if y == x0 {
            break;
        }
        proof {
            assert(t@[cur as int] == complement_map(pi, sigma, cur));
            assert forall|i: int| 0 <= i < path@.len() implies path@[i] != y by {
                if path@[i] == y && i > 0 {
                    let w = path@[i - 1];
                    assert(complement_map(pi, sigma, w) == path@[i - 1 + 1]);
                    assert(t@[w as int] == complement_map(pi, sigma, w));
                    lemma_step_injective(pi, sigma, w, cur, y);
                }
            }
        }
        path.push(y);
        cur = y;
        proof {
            assert(path@.len() <= n) by {
                lemma_distinct_bound(path@, n as nat);
            }
        }
    }
    path
}

/// `result` lists the cycles of π⁻¹σ whose least element is below i: whole cycles, pairwise
/// disjoint, within {1, ..., n}.
spec fn cycles_so_far(
    pi: Seq<Set<usize>>,
    sigma: Seq<Set<usize>>,
    n: nat,
    result: Seq<Set<usize>>,
    i: usize,
) -> bool {
    &&& result == orbits_upto(pi, sigma, i - 1)
    &&& disjoint_blocks(result)
    &&& forall|j: int, y: usize|
        0 <= j < result.len() && #[trigger] result[j].contains(y) ==> 1 <= y <= n && orbit(pi, sigma, y)
            == result[j]
    &&& forall|j: int| 0 <= j < result.len() ==> #[trigger] has_smaller(result[j], i)
}

/// The relative Kreweras complement K_σ(π) of partitions π and σ of {1, ..., n}.
pub fn relative_complement_blocks(pi: &[BTreeSet<usize>], sigma: &[BTreeSet<usize>], n: usize) -> (r: Vec<BTreeSet<usize>>)
    requires
        n < usize::MAX,
        is_valid_partition(set_views(pi@), n as nat),
        is_valid_partition(set_views(sigma@), n as nat),
    ensures
        set_views(r@) == relative_complement(set_views(pi@), set_views(sigma@), n as nat),
        is_valid_partition(set_views(r@), n as nat),
{
    let ghost p = set_views(pi@);
    let ghost q = set_views(sigma@);
    let t = complement_table(pi, sigma, n);
    let mut visited: Vec<bool> = Vec::new();
    let mut k: usize = 0;
    while k <= n
        invariant
            n < usize::MAX,
            k <= n + 1,
            visited@.len() == k,
            forall|x: int| 0 <= x < k ==> !#[trigger] visited@[x],
        decreases n + 1 - k,
    {
        visited.push(false);
        k = k + 1;
    }
    let mut result: Vec<BTreeSet<usize>> = Vec::new();
    let mut i: usize = 1;
    proof {
        assert(set_views(result@) =~= Seq::<Set<usize>>::empty());
        assert(orbits_upto(p, q, 0) == Seq::<Set<usize>>::empty());
    }
    while i <= n
        invariant
            n < usize::MAX,
            p == set_views(pi@),
            q == set_views(sigma@),
            disjoint_blocks(p),
            disjoint_blocks(q),
            table_ok(p, q, n as nat, t@),
            1 <= i <= n + 1,
            visited@.len() == n + 1,
            cycles_so_far(p, q, n as nat, set_views(result@), i),
            forall|x: usize|
                1 <= x <= n ==> (#[trigger] visited@[x as int] <==> in_some_block(set_views(result@), x)),
            forall|x: usize| 1 <= x < i ==> #[trigger] visited@[x as int],
        decreases n + 1 - i,
    {
        let ghost rs = set_views(result@);
        if visited[i] {
            proof {
                let j = choose|j: int| 0 <= j < rs.len() && #[trigger] rs[j].contains(i);
                assert(orbit(p, q, i) == rs[j]);
                assert(has_smaller(rs[j], i));
                let y = choose|y: usize| rs[j].contains(y) && y < i;
                assert(orbit(p, q, i).contains(y));
                assert(!is_leader(p, q, i));
                assert(orbits_upto(p, q, i as int) == orbits_upto(p, q, i - 1));
                assert forall|j: int| 0 <= j < rs.len() implies #[trigger] has_smaller(
                    rs[j],
                    (i + 1) as usize,
                ) by {
                    assert(has_smaller(rs[j], i));
                    let y = choose|y: usize| rs[j].contains(y) && y < i;
                }
                assert(cycles_so_far(p, q, n as nat, rs, (i + 1) as usize));
            }
        } else {
            let path = follow_cycle(&t, i, n, Ghost(p), Ghost(q));
            proof {
                lemma_cycle_orbit(p, q, path@, 0);
                assert forall|y: usize| #[trigger] orbit(p, q, i).contains(y) implies i <= y by {
                    if y < i {
                        assert(path@.to_set().contains(y));
                        let ky = path@.index_of(y);
                        assert(visited@[y as int]);
                        let j = choose|j: int| 0 <= j < rs.len() && #[trigger] rs[j].contains(y);
                        lemma_cycle_orbit(p, q, path@, ky);
                        assert(orbit(p, q, y) == rs[j]);
                        assert(path@.to_set().contains(i));
                        assert(rs[j].contains(i));
                        assert(in_some_block(rs, i));
                    }
                }
                assert(is_leader(p, q, i));
            }
            let mut block: BTreeSet<usize> = BTreeSet::new();
            let plen = path.len();
            let mut k: usize = 0;
            while k < plen
                invariant
                    plen == path@.len(),
                    k <= plen,
                    block@ == path@.take(k as int).to_set(),
                decreases plen - k,
            {
                proof {
                    assert(path@.take(k + 1) == path@.take(k as int).push(path@[k as int]));
                    path@.take(k as int).lemma_push_to_set_commute(path@[k as int]);
                }
                block.insert(path[k]);
                k = k + 1;
            }
            proof {
                assert(path@.take(plen as int) == path@);
            }
            let ghost old_visited = visited@;
            let mut k: usize = 0;
            while k < plen
                invariant
                    plen == path@.len(),
                    k <= plen,
                    visited@.len() == n + 1,
                    old_visited.len() == n + 1,
                    forall|m: int| 0 <= m < plen ==> 1 <= #[trigger] path@[m] <= n,
                    forall|x: usize|
                        1 <= x <= n ==> (#[trigger] visited@[x as int] <==> (old_visited[x as int]
                            || path@.take(k as int).contains(x))),
                decreases plen - k,
            {
                let y = path[k];
                visited.set(y, true);
                proof {
                    assert forall|x: usize|
                        1 <= x <= n implies (#[trigger] visited@[x as int] <==> (old_visited[x as int]
                            || path@.take(k + 1).contains(x))) by {
                        if path@.take(k + 1).contains(x) && x != y {
                            let m = path@.take(k + 1).index_of(x);
                            assert(path@.take(k as int)[m] == x);
                        }
                        if path@.take(k as int).contains(x) {
                            let m = path@.take(k as int).index_of(x);
                            assert(path@.take(k + 1)[m] == x);
                        }
                        if x == y {
                            assert(path@.take(k + 1)[k as int] == x);
                        }
                    }
                }
                k = k + 1;
            }
            proof {
                assert(path@.take(plen as int) == path@);
            }
            result.push(block);
            proof {
                let rs2 = set_views(result@);
                assert(rs2 == rs.push(path@.to_set()));
                assert(rs2 == orbits_upto(p, q, i as int));
                assert forall|a: int, b: int| 0 <= a < b < rs2.len() implies (#[trigger] rs2[a]).disjoint(
                    #[trigger] rs2[b],
                ) by {
                    if b == rs.len() {
                        assert forall|y: usize| rs2[a].contains(y) implies !rs2[b].contains(y) by {
                            if rs2[b].contains(y) {
                                let ky = path@.index_of(y);
                                lemma_cycle_orbit(p, q, path@, ky);
                                assert(orbit(p, q, y) == rs[a]);
                                assert(path@.to_set().contains(i));
                                assert(in_some_block(rs, i));
                            }
                        }
                    } else {
                        assert(rs2[a] == rs[a] && rs2[b] == rs[b]);
                    }
                }
                assert forall|j: int, y: usize|
                    0 <= j < rs2.len() && #[trigger] rs2[j].contains(y) implies 1 <= y <= n && orbit(
                        p,
                        q,
                        y,
                    ) == rs2[j] by {
                    if j == rs.len() {
                        let ky = path@.index_of(y);
                        lemma_cycle_orbit(p, q, path@, ky);
                    } else {
                        assert(rs2[j] == rs[j]);
                    }
                }
                assert forall|j: int| 0 <= j < rs2.len() implies #[trigger] has_smaller(
                    rs2[j],
                    (i + 1) as usize,
                ) by {
                    if j == rs.len() {
                        assert(rs2[j].contains(i));
                    } else {
                        assert(rs2[j] == rs[j]);
                        assert(has_smaller(rs[j], i));
                        let y = choose|y: usize| rs[j].contains(y) && y < i;
                        assert(rs2[j].contains(y));
                    }
                }
                assert forall|x: usize| 1 <= x <= n implies (#[trigger] visited@[x as int]
                    <==> in_some_block(rs2, x)) by {
                    if in_some_block(rs2, x) {
                        let j = choose|j: int| 0 <= j < rs2.len() && #[trigger] rs2[j].contains(x);
                        if j < rs.len() {
                            assert(rs2[j] == rs[j]);
                            assert(in_some_block(rs, x));
                        } else {
                            assert(path@.to_set().contains(x));
                        }
                    }
                    if visited@[x as int] {
                        if old_visited[x as int] {
                            let j = choose|j: int| 0 <= j < rs.len() && #[trigger] rs[j].contains(x);
                            assert(rs2[j] == rs[j]);
                        } else {
                            assert(path@.to_set().contains(x));
                            assert(rs2[rs.len() as int].contains(x));
                        }
                    }
                }
                assert(cycles_so_far(p, q, n as nat, rs2, (i + 1) as usize));
            }
        }
        i = i + 1;
    }
    proof {
        let rs = set_views(result@);
        assert forall|j: int| 0 <= j < rs.len() implies #[trigger] has_element(rs[j]) by {
            assert(has_smaller(rs[j], i));
            let y = choose|y: usize| rs[j].contains(y) && y < i;
        }
        assert forall|j: int, x: usize| 0 <= j < rs.len() && #[trigger] rs[j].contains(x) implies 1 <= x
            <= n by {}
        assert forall|x: usize| 1 <= x <= n implies #[trigger] in_some_block(rs, x) by {
            assert(visited@[x as int]);
        }
        assert(is_partition_of(rs, n as nat));
    }
    result
}

/// The least element of a finite nonempty set.
pub(crate) proof fn lemma_least(s: Set<usize>) -> (m: usize)
    requires
        s.finite(),
        s.len() > 0,
    ensures
        s.contains(m),
        forall|z: usize| #[trigger] s.contains(z) ==> m <= z,
{
    let r = |a: usize, b: usize| a <= b;
    assert(vstd::relations::total_ordering(r)) by {
        assert(vstd::relations::strongly_connected(r)) by {
            assert forall|a: usize, b: usize| #[trigger] r(a, b) || #[trigger] r(b, a) by {}
        }
    }
    s.find_unique_minimal_ensures(r);
    let m = s.find_unique_minimal(r);
    assert(vstd::relations::is_minimal(r, m, s));
    assert forall|z: usize| #[trigger] s.contains(z) implies m <= z by {
        if z < m {
            assert(r(z, m));
            assert(r(m, z));
        }
    }
    m
}

/// A block of a partition of {1, ..., n} is finite.
pub(crate) proof fn lemma_block_finite(bs: Seq<Set<usize>>, n: nat, j: int)
    requires
        n <= usize::MAX,
        is_partition_of(bs, n),
        0 <= j < bs.len(),
    ensures
        bs[j].finite(),
{
    lemma_interval_len(n as int);
    assert(bs[j].subset_of(interval(1, n as int)));
    vstd::set_lib::lemma_len_subset(bs[j], interval(1, n as int));
}

/// Every element of {1, ..., n} has a cyclic successor in its block.
pub proof fn lemma_next_exists(bs: Seq<Set<usize>>, n: nat, x: usize) -> (y: usize)
    requires
        n <= usize::MAX,
        is_partition_of(bs, n),
        1 <= x <= n,
    ensures
        is_block_next(bs, x, y),
{
    assert(in_some_block(bs, x));
    let j = choose|j: int| 0 <= j < bs.len() && #[trigger] bs[j].contains(x);
    let b = bs[j];
    lemma_block_finite(bs, n, j);
    let above = b.filter(|z: usize| x < z);
    vstd::set_lib::lemma_len_subset(above, b);
    if above.len() > 0 {
        let y = lemma_least(above);
        assert forall|z: usize| #[trigger] b.contains(z) implies !(x < z && z < y) by {
            if x < z {
                assert(above.contains(z));
            }
        }
        assert(cyclic_next_in(b, x, y));
        y
    } else {
        assert(b.len() > 0) by {
            if b.len() == 0 {
                b.lemma_len0_is_empty();
                assert(b.contains(x));
            }
        }
        let y = lemma_least(b);
        assert forall|z: usize| #[trigger] b.contains(z) implies y <= z && z <= x by {
            if x < z {
                assert(above.contains(z));
                above.lemma_len0_is_empty();
            }
        }
        assert(cyclic_next_in(b, x, y));
        y
    }
}

/// K_π(π) = 0_n: π⁻¹π is the identity, so every cycle is a single point.
pub proof fn lemma_complement_of_itself(pi: Seq<Set<usize>>, n: nat)
    requires
        n <= usize::MAX,
        is_valid_partition(pi, n),
    ensures
        relative_complement(pi, pi, n) == finest_blocks(n),
{
    assert(disjoint_blocks(pi));
    assert forall|x: usize| 1 <= x <= n implies #[trigger] complement_map(pi, pi, x) == x by {
        let y = lemma_next_exists(pi, n, x);
        assert(complement_step(pi, pi, x, x));
        lemma_step_map(pi, pi, x, x);
    }
    lemma_fixed_orbits(pi, n, n as int);
}

/// Where π⁻¹σ fixes every point of {1, ..., n}, the cycles up to m are the singletons.
proof fn lemma_fixed_orbits(pi: Seq<Set<usize>>, n: nat, m: int)
    requires
        n <= usize::MAX,
        m <= n,
        forall|x: usize| 1 <= x <= n ==> #[trigger] complement_map(pi, pi, x) == x,
    ensures
        orbits_upto(pi, pi, m) == finest_blocks(if m < 0 { 0 } else { m as nat }),
    decreases m,
{
    if m < 1 {
        assert(orbits_upto(pi, pi, m) =~= finest_blocks(if m < 0 { 0 } else { m as nat }));
    } else {
        lemma_fixed_orbits(pi, n, m - 1);
        let x = m as usize;
        assert forall|k: nat| #[trigger] iterate(pi, pi, k, x) == x by {
            lemma_fixed_iterate(pi, n, x, k);
        }
        assert(orbit(pi, pi, x) =~= set![x]) by {
            assert(iterate(pi, pi, 0, x) == x);
        }
        assert(is_leader(pi, pi, x));
        assert(orbits_upto(pi, pi, m) =~= finest_blocks(m as nat));
    }
}

/// Iterating a fixed point leaves it in place.
proof fn lemma_fixed_iterate(pi: Seq<Set<usize>>, n: nat, x: usize, k: nat)
    requires
        1 <= x <= n,
        forall|w: usize| 1 <= w <= n ==> #[trigger] complement_map(pi, pi, w) == w,
    ensures
        iterate(pi, pi, k, x) == x,
    decreases k,
{
    if k > 0 {
        lemma_fixed_iterate(pi, n, x, (k - 1) as nat);
    }
}

/// The greatest element of a finite nonempty set.
pub(crate) proof fn lemma_greatest(s: Set<usize>) -> (m: usize)
    requires
        s.finite(),
        s.len() > 0,
    ensures
        s.contains(m),
        forall|z: usize| #[trigger] s.contains(z) ==> z <= m,
{
    let r = |a: usize, b: usize| a <= b;
    assert(vstd::relations::total_ordering(r)) by {
        assert(vstd::relations::strongly_connected(r)) by {
            assert forall|a: usize, b: usize| #[trigger] r(a, b) || #[trigger] r(b, a) by {}
        }
    }
    s.find_unique_maximal_ensures(r);
    let m = s.find_unique_maximal(r);
    assert(vstd::relations::is_maximal(r, m, s));
    assert forall|z: usize| #[trigger] s.contains(z) implies z <= m by {
        if m < z {
            assert(r(m, z));
            assert(r(z, m));
        }
    }
    m
}

/// In the finest partition the cyclic successor of z is z itself.
proof fn lemma_finest_next(n: nat, z: usize, y: usize)
    requires
        n <= usize::MAX,
    ensures
        is_block_next(finest_blocks(n), z, y) <==> (z == y && 1 <= z <= n),
{
    let f = finest_blocks(n);
    if is_block_next(f, z, y) {
        let j = choose|j: int|
            0 <= j < f.len() && #[trigger] f[j].contains(z) && f[j].contains(y)
                && cyclic_next_in(f[j], z, y);
        assert(f[j] == set![(j + 1) as usize]);
    }
    if z == y && 1 <= z <= n {
        let j = z - 1;
        assert(f[j] == set![(j + 1) as usize]);
        assert(f[j] =~= set![z]);
        assert(f[j].contains(z));
        assert(cyclic_next_in(f[j], z, z));
    }
}

/// The blocks of the finest partition are disjoint.
proof fn lemma_finest_disjoint(n: nat)
    requires
        n <= usize::MAX,
    ensures
        disjoint_blocks(finest_blocks(n)),
{
    let f = finest_blocks(n);
    assert forall|i: int, j: int| 0 <= i < j < f.len() implies (#[trigger] f[i]).disjoint(#[trigger] f[j]) by {
        assert(f[i] == set![(i + 1) as usize]);
        assert(f[j] == set![(j + 1) as usize]);
    }
}

/// With π = 0_n, π⁻¹σ sends x to its cyclic successor in σ.
proof fn lemma_bottom_map(sigma: Seq<Set<usize>>, n: nat, x: usize)
    requires
        n <= usize::MAX,
        is_valid_partition(sigma, n),
        1 <= x <= n,
    ensures
        is_block_next(sigma, x, complement_map(finest_blocks(n), sigma, x)),
{
    let y = lemma_next_exists(sigma, n, x);
    let j = choose|j: int|
        0 <= j < sigma.len() && #[trigger] sigma[j].contains(x) && sigma[j].contains(y)
            && cyclic_next_in(sigma[j], x, y);
    assert(sigma[j].contains(y));
    lemma_finest_next(n, y, y);
    assert(complement_step(finest_blocks(n), sigma, x, y));
    lemma_finest_disjoint(n);
    lemma_step_map(finest_blocks(n), sigma, x, y);
}

/// With π = 0_n, iterating from x stays in the block of x.
proof fn lemma_bottom_stays(sigma: Seq<Set<usize>>, n: nat, j: int, x: usize, k: nat)
    requires
        n <= usize::MAX,
        is_valid_partition(sigma, n),
        0 <= j < sigma.len(),
        sigma[j].contains(x),
    ensures
        sigma[j].contains(iterate(finest_blocks(n), sigma, k, x)),
    decreases k,
{
    if k > 0 {
        lemma_bottom_stays(sigma, n, j, x, (k - 1) as nat);
        let w = iterate(finest_blocks(n), sigma, (k - 1) as nat, x);
        lemma_bottom_map(sigma, n, w);
        let v = complement_map(finest_blocks(n), sigma, w);
        let j2 = choose|j2: int|
            0 <= j2 < sigma.len() && #[trigger] sigma[j2].contains(w) && sigma[j2].contains(v)
                && cyclic_next_in(sigma[j2], w, v);
        lemma_same_block(sigma, j, j2, w);
    }
}

/// With π = 0_n, every larger element of the block of x is reached from x.
proof fn lemma_bottom_reach(sigma: Seq<Set<usize>>, n: nat, j: int, x: usize, z: usize)
    requires
        n <= usize::MAX,
        is_valid_partition(sigma, n),
        0 <= j < sigma.len(),
        sigma[j].contains(x),
        sigma[j].contains(z),
        x <= z,
    ensures
        orbit(finest_blocks(n), sigma, x).contains(z),
    decreases z,
{
    let f = finest_blocks(n);
    if z == x {
        assert(iterate(f, sigma, 0, x) == x);
    } else {
        let b = sigma[j];
        lemma_block_finite(sigma, n, j);
        let below = b.filter(|w: usize| w < z);
        vstd::set_lib::lemma_len_subset(below, b);
        assert(below.contains(x));
        assert(below.len() > 0) by {
            if below.len() == 0 {
                below.lemma_len0_is_empty();
            }
        }
        let w = lemma_greatest(below);
        lemma_bottom_reach(sigma, n, j, x, w);
        let k = choose|k: nat| #[trigger] iterate(f, sigma, k, x) == w;
        assert forall|c: usize| #[trigger] b.contains(c) implies !(w < c && c < z) by {
            if w < c && c < z {
                assert(below.contains(c));
            }
        }
        assert(cyclic_next_in(b, w, z));
        assert(is_block_next(sigma, w, z));
        lemma_bottom_map(sigma, n, w);
        lemma_next_unique(sigma, w, z, complement_map(f, sigma, w));
        assert(iterate(f, sigma, k + 1, x) == z);
    }
}

/// With π = 0_n, the cycle of π⁻¹σ through x is the block of σ holding x.
proof fn lemma_bottom_orbit(sigma: Seq<Set<usize>>, n: nat, j: int, x: usize)
    requires
        n <= usize::MAX,
        is_valid_partition(sigma, n),
        0 <= j < sigma.len(),
        sigma[j].contains(x),
    ensures
        orbit(finest_blocks(n), sigma, x) == sigma[j],
{
    let f = finest_blocks(n);
    let b = sigma[j];
    assert forall|z: usize| orbit(f, sigma, x).contains(z) implies b.contains(z) by {
        let k = choose|k: nat| #[trigger] iterate(f, sigma, k, x) == z;
        lemma_bottom_stays(sigma, n, j, x, k);
    }
    assert forall|z: usize| b.contains(z) implies orbit(f, sigma, x).contains(z) by {
        if x <= z {
            lemma_bottom_reach(sigma, n, j, x, z);
        } else {
            lemma_block_finite(sigma, n, j);
            vstd::set_lib::lemma_len_subset(b, b);
            assert(b.len() > 0) by {
                if b.len() == 0 {
                    b.lemma_len0_is_empty();
                    assert(b.contains(x));
                }
            }
            let top = lemma_greatest(b);
            let low = lemma_least(b);
            lemma_bottom_reach(sigma, n, j, x, top);
            let k1 = choose|k: nat| #[trigger] iterate(f, sigma, k, x) == top;
            assert(cyclic_next_in(b, top, low));
            assert(is_block_next(sigma, top, low));
            assert(1 <= top <= n);
            lemma_bottom_map(sigma, n, top);
            lemma_next_unique(sigma, top, low, complement_map(f, sigma, top));
            assert(iterate(f, sigma, k1 + 1, x) == low);
            lemma_bottom_reach(sigma, n, j, low, z);
            let k2 = choose|k: nat| #[trigger] iterate(f, sigma, k, low) == z;
            lemma_iterate_add(f, sigma, k1 + 1, k2, x);
            assert(iterate(f, sigma, (k1 + 1 + k2) as nat, x) == z);
        }
    }
    assert(orbit(f, sigma, x) =~= b);
}

/// The set has an element at most m.
spec fn has_at_most(s: Set<usize>, m: int) -> bool {
    exists|y: usize| s.contains(y) && y <= m
}

/// With π = 0_n and σ listed in order, the cycles with least element at most m are the
/// first c blocks of σ: those with an element at most m.
proof fn lemma_bottom_orbits_upto(sigma: Seq<Set<usize>>, n: nat, m: int) -> (c: int)
    requires
        n <= usize::MAX,
        is_valid_partition(sigma, n),
        crate::partition::blocks_in_order(sigma),
        0 <= m <= n,
    ensures
        0 <= c <= sigma.len(),
        orbits_upto(finest_blocks(n), sigma, m) == sigma.take(c),
        forall|j: int| 0 <= j < c ==> #[trigger] has_at_most(sigma[j], m),
        forall|j: int, y: usize| c <= j < sigma.len() && #[trigger] sigma[j].contains(y) ==> m < y,
    decreases m,
{
    let f = finest_blocks(n);
    if m == 0 {
        assert(orbits_upto(f, sigma, 0) =~= sigma.take(0));
        0
    } else {
        let c0 = lemma_bottom_orbits_upto(sigma, n, m - 1);
        let x = m as usize;
        assert(in_some_block(sigma, x));
        let j = choose|j: int| 0 <= j < sigma.len() && #[trigger] sigma[j].contains(x);
        lemma_bottom_orbit(sigma, n, j, x);
        assert(disjoint_blocks(sigma));
        if is_leader(f, sigma, x) {
            assert forall|y: usize| #[trigger] sigma[j].contains(y) implies x <= y by {
                assert(orbit(f, sigma, x).contains(y));
            }
            if j < c0 {
                assert(has_at_most(sigma[j], m - 1));
                let y = choose|y: usize| sigma[j].contains(y) && y <= m - 1;
                assert(orbit(f, sigma, x).contains(y));
            }
            if j > c0 {
                assert(has_smaller(sigma[c0], x));
            }
            assert(j == c0);
            assert(orbits_upto(f, sigma, m) == sigma.take(c0).push(sigma[c0]));
            assert(sigma.take(c0).push(sigma[c0]) =~= sigma.take(c0 + 1));
            assert forall|jj: int| 0 <= jj < c0 + 1 implies #[trigger] has_at_most(sigma[jj], m) by {
                if jj < c0 {
                    assert(has_at_most(sigma[jj], m - 1));
                    let y = choose|y: usize| sigma[jj].contains(y) && y <= m - 1;
                } else {
                    assert(sigma[jj].contains(x));
                }
            }
            assert forall|jj: int, y: usize| c0 + 1 <= jj < sigma.len() && #[trigger] sigma[jj].contains(y) implies m < y by {
                if y == m {
                    lemma_same_block(sigma, j, jj, x);
                }
            }
            c0 + 1
        } else {
            let y0 = choose|y: usize| #[trigger] orbit(f, sigma, x).contains(y) && !(x <= y);
            assert(sigma[j].contains(y0));
            assert(j < c0);
            assert forall|jj: int| 0 <= jj < c0 implies #[trigger] has_at_most(sigma[jj], m) by {
                assert(has_at_most(sigma[jj], m - 1));
                let y = choose|y: usize| sigma[jj].contains(y) && y <= m - 1;
            }
            assert forall|jj: int, y: usize| c0 <= jj < sigma.len() && #[trigger] sigma[jj].contains(y) implies m < y by {
                if y == m {
                    lemma_same_block(sigma, j, jj, x);
                }
            }
            c0
        }
    }
}

/// K_σ(0_n) = σ for a partition σ listed in increasing order of least elements: the
/// cycles of σ itself.
pub proof fn lemma_complement_of_bottom(sigma: Seq<Set<usize>>, n: nat)
    requires
        n <= usize::MAX,
        is_valid_partition(sigma, n),
        crate::partition::blocks_in_order(sigma),
    ensures
        relative_complement(finest_blocks(n), sigma, n) == sigma,
{
    let c = lemma_bottom_orbits_upto(sigma, n, n as int);
    if c < sigma.len() {
        assert(has_element(sigma[c]));
        let y = choose|y: usize| sigma[c].contains(y);
        assert(y <= n);
    }
    assert(sigma.take(sigma.len() as int) == sigma);
}

/// Taking out the block at position k divides it out of the product.
proof fn lemma_product_remove(t: Seq<Set<usize>>, k: int)
    requires
        0 <= k < t.len(),
    ensures
        moebius_product(t) == moebius_product(t.remove(k)) * block_moebius(t[k].len()),
    decreases t.len(),
{
    if k == t.len() - 1 {
        assert(t.remove(k) =~= t.drop_last());
    } else {
        lemma_product_remove(t.drop_last(), k);
        assert(t.drop_last().remove(k) =~= t.remove(k).drop_last());
        assert(t.remove(k).last() == t.last());
        let a = moebius_product(t.remove(k).drop_last());
        let b = block_moebius(t[k].len());
        let c = block_moebius(t.last().len());
        assert((a * b) * c == (a * c) * b) by (nonlinear_arith);
    }
}

/// The product does not depend on the order of the blocks.
proof fn lemma_product_reorder(s: Seq<Set<usize>>, t: Seq<Set<usize>>)
    requires
        s.no_duplicates(),
        t.no_duplicates(),
        s.to_set() == t.to_set(),
    ensures
        moebius_product(s) == moebius_product(t),
    decreases s.len(),
{
    s.unique_seq_to_set();
    t.unique_seq_to_set();
    if s.len() > 0 {
        let b = s.last();
        assert(s.to_set().contains(b));
        assert(t.to_set().contains(b));
        let k = t.index_of(b);
        assert(t[k] == b);
        lemma_product_remove(t, k);
        let s2 = s.drop_last();
        let t2 = t.remove(k);
        assert forall|x: Set<usize>| s2.to_set().contains(x) <==> t2.to_set().contains(x) by {
            if s2.to_set().contains(x) {
                let i = s2.index_of(x);
                assert(s[i] == x);
                assert(x != b);
                assert(t.to_set().contains(x));
                let i2 = t.index_of(x);
                if i2 < k {
                    assert(t2[i2] == x);
                } else {
                    assert(i2 != k);
                    assert(t2[i2 - 1] == x);
                }
            }
            if t2.to_set().contains(x) {
                let i = t2.index_of(x);
                let i2 = if i < k { i } else { i + 1 };
                assert(t[i2] == x);
                assert(x != b);
                assert(s.to_set().contains(x));
                let i3 = s.index_of(x);
                assert(i3 != s.len() - 1);
                assert(s2[i3] == x);
            }
        }
        assert(s2.to_set() =~= t2.to_set());
        assert(t2.no_duplicates()) by {
            assert forall|i: int, j: int| 0 <= i < t2.len() && 0 <= j < t2.len() && i != j implies t2[i] != t2[j] by {
                let i2 = if i < k { i } else { i + 1 };
                let j2 = if j < k { j } else { j + 1 };
                assert(t2[i] == t[i2] && t2[j] == t[j2]);
            }
        }
        lemma_product_reorder(s2, t2);
    }
}

/// With π = 0_n, the cycles with least element at most m are the blocks of σ that have
/// an element at most m, each listed once.
proof fn lemma_bottom_orbits_set(sigma: Seq<Set<usize>>, n: nat, m: int)
    requires
        n <= usize::MAX,
        is_valid_partition(sigma, n),
        0 <= m <= n,
    ensures
        orbits_upto(finest_blocks(n), sigma, m).no_duplicates(),
        forall|b: Set<usize>|
            #[trigger] orbits_upto(finest_blocks(n), sigma, m).contains(b) <==> exists|j: int|
                0 <= j < sigma.len() && b == sigma[j] && has_at_most(sigma[j], m),
    decreases m,
{
    let f = finest_blocks(n);
    if m > 0 {
        lemma_bottom_orbits_set(sigma, n, m - 1);
        let prev = orbits_upto(f, sigma, m - 1);
        let x = m as usize;
        assert(in_some_block(sigma, x));
        let j = choose|j: int| 0 <= j < sigma.len() && #[trigger] sigma[j].contains(x);
        lemma_bottom_orbit(sigma, n, j, x);
        assert(disjoint_blocks(sigma));
        if is_leader(f, sigma, x) {
            assert forall|y: usize| #[trigger] sigma[j].contains(y) implies x <= y by {
                assert(orbit(f, sigma, x).contains(y));
            }
            let cur = prev.push(sigma[j]);
            assert(orbits_upto(f, sigma, m) == cur);
            assert(!prev.contains(sigma[j])) by {
                if prev.contains(sigma[j]) {
                    let jj = choose|jj: int|
                        0 <= jj < sigma.len() && sigma[j] == sigma[jj] && has_at_most(sigma[jj], m - 1);
                    let y = choose|y: usize| sigma[jj].contains(y) && y <= m - 1;
                    assert(sigma[j].contains(y));
                }
            }
            assert(cur.no_duplicates()) by {
                assert forall|a: int, b: int| 0 <= a < cur.len() && 0 <= b < cur.len() && a != b implies cur[a] != cur[b] by {
                    if a == prev.len() {
                        assert(prev.contains(cur[b]) ==> cur[b] != sigma[j]);
                        assert(prev[b] == cur[b]);
                    } else if b == prev.len() {
                        assert(prev[a] == cur[a]);
                    }
                }
            }
            assert forall|b: Set<usize>| #[trigger] cur.contains(b) <==> exists|jj: int|
                0 <= jj < sigma.len() && b == sigma[jj] && has_at_most(sigma[jj], m) by {
                if cur.contains(b) {
                    let i = cur.index_of(b);
                    if i < prev.len() {
                        assert(prev[i] == b);
                        assert(prev.contains(b));
                        let jj = choose|jj: int|
                            0 <= jj < sigma.len() && b == sigma[jj] && has_at_most(sigma[jj], m - 1);
                        let y = choose|y: usize| sigma[jj].contains(y) && y <= m - 1;
                        assert(has_at_most(sigma[jj], m));
                    } else {
                        assert(has_at_most(sigma[j], m));
                    }
                }
                if exists|jj: int| 0 <= jj < sigma.len() && b == sigma[jj] && has_at_most(sigma[jj], m) {
                    let jj = choose|jj: int|
                        0 <= jj < sigma.len() && b == sigma[jj] && has_at_most(sigma[jj], m);
                    let y = choose|y: usize| sigma[jj].contains(y) && y <= m;
                    if y < m {
                        assert(has_at_most(sigma[jj], m - 1));
                        assert(prev.contains(b));
                        let i = prev.index_of(b);
                        assert(cur[i] == b);
                    } else {
                        lemma_same_block(sigma, j, jj, x);
                        assert(cur[prev.len() as int] == b);
                    }
                }
            }
        } else {
            let y0 = choose|y: usize| #[trigger] orbit(f, sigma, x).contains(y) && !(x <= y);
            assert(sigma[j].contains(y0));
            assert(has_at_most(sigma[j], m - 1));
            assert(prev.contains(sigma[j]));
            assert forall|b: Set<usize>| #[trigger] prev.contains(b) <==> exists|jj: int|
                0 <= jj < sigma.len() && b == sigma[jj] && has_at_most(sigma[jj], m) by {
                if prev.contains(b) {
                    let jj = choose|jj: int|
                        0 <= jj < sigma.len() && b == sigma[jj] && has_at_most(sigma[jj], m - 1);
                    let y = choose|y: usize| sigma[jj].contains(y) && y <= m - 1;
                    assert(has_at_most(sigma[jj], m));
                }
                if exists|jj: int| 0 <= jj < sigma.len() && b == sigma[jj] && has_at_most(sigma[jj], m) {
                    let jj = choose|jj: int|
                        0 <= jj < sigma.len() && b == sigma[jj] && has_at_most(sigma[jj], m);
                    let y = choose|y: usize| sigma[jj].contains(y) && y <= m;
                    if y < m {
                        assert(has_at_most(sigma[jj], m - 1));
                    } else {
                        lemma_same_block(sigma, j, jj, x);
                    }
                }
            }
        }
    } else {
        assert forall|b: Set<usize>| #[trigger] orbits_upto(f, sigma, m).contains(b) <==> exists|j: int|
            0 <= j < sigma.len() && b == sigma[j] && has_at_most(sigma[j], m) by {
            if exists|j: int| 0 <= j < sigma.len() && b == sigma[j] && has_at_most(sigma[j], m) {
                let j = choose|j: int| 0 <= j < sigma.len() && b == sigma[j] && has_at_most(sigma[j], m);
                let y = choose|y: usize| sigma[j].contains(y) && y <= m;
                assert(sigma[j].contains(y));
            }
        }
    }
}

/// μ(0_n, σ) is the product over the blocks of σ: K_σ(0_n) lists the blocks of σ, in
/// some order, and the product does not depend on the order.
pub proof fn lemma_moebius_product_of_bottom(sigma: Seq<Set<usize>>, n: nat)
    requires
        n <= usize::MAX,
        is_valid_partition(sigma, n),
    ensures
        moebius_product(relative_complement(finest_blocks(n), sigma, n)) == moebius_product(sigma),
{
    let r = relative_complement(finest_blocks(n), sigma, n);
    lemma_bottom_orbits_set(sigma, n, n as int);
    assert(sigma.no_duplicates()) by {
        assert forall|a: int, b: int| 0 <= a < sigma.len() && 0 <= b < sigma.len() && a != b implies sigma[a] != sigma[b] by {
            assert(has_element(sigma[a]));
            let y = choose|y: usize| sigma[a].contains(y);
            if sigma[a] == sigma[b] {
                lemma_same_block(sigma, a, b, y);
            }
        }
    }
    assert forall|b: Set<usize>| r.to_set().contains(b) <==> sigma.to_set().contains(b) by {
        if sigma.to_set().contains(b) {
            let j = sigma.index_of(b);
            assert(has_element(sigma[j]));
            let y = choose|y: usize| sigma[j].contains(y);
            assert(has_at_most(sigma[j], n as int));
            assert(r.contains(b));
        }
        if r.to_set().contains(b) {
            assert(r.contains(b));
            let j = choose|j: int| 0 <= j < sigma.len() && b == sigma[j] && has_at_most(sigma[j], n as int);
            assert(sigma[j] == b);
        }
    }
    assert(r.to_set() =~= sigma.to_set());
    lemma_product_reorder(r, sigma);
}

} // verus!
