//! The Kreweras complement of a non-crossing partition, described by gaps.
//!
//! Read the gap after x (between x and x + 1, the gap after n being the one before 1).
//! For a non-crossing partition π of {1, ..., n}, the gaps after x < y lie in one block of
//! the Kreweras complement K(π) exactly when {x + 1, ..., y} is a union of blocks of π.
//! From this description K(π) is non-crossing, and it has n + 1 - |π| blocks: the gap
//! after x < n starts a new step of its block exactly when x + 1 is the least element of
//! a block of π other than the one holding 1.

use vstd::prelude::*;
use crate::numbers::{catalan_number, lemma_catalan_binom};
use crate::complement::{
    complement_map, complement_step, cyclic_next_in, disjoint_blocks, is_block_next,
    is_leader, is_valid_partition, iterate, orbits_upto, relative_complement, lemma_block_finite, lemma_greatest, lemma_iterate_add, lemma_least,
    lemma_same_block, lemma_step_map, orbit,
};
use crate::partition::{
    block_moebius, blocks_in_order, blocks_cross_spec, moebius_product, total_len, has_element, has_smaller, in_some_block, interleaves, interval, lemma_interval_len, non_crossing,
};

verus! {

/// {a + 1, ..., b} is a union of blocks: a block with an element in it lies inside it.
pub open spec fn closed_between(bs: Seq<Set<usize>>, a: int, b: int) -> bool {
    forall|j: int, u: usize, v: usize|
        #![trigger bs[j].contains(u), bs[j].contains(v)]
        0 <= j < bs.len() && bs[j].contains(u) && bs[j].contains(v) && a < u <= b ==> a < v <= b
}

/// The gaps after x and after y are linked: the elements after the first up to the second
/// form a union of blocks.
pub open spec fn linked(bs: Seq<Set<usize>>, x: int, y: int) -> bool {
    if x <= y {
        closed_between(bs, x, y)
    } else {
        closed_between(bs, y, x)
    }
}

/// The gaps of {1, ..., n} linked to the gap after x.
pub open spec fn gap_class(bs: Seq<Set<usize>>, n: nat, x: usize) -> Set<usize> {
    Set::new(|y: usize| 1 <= y <= n && linked(bs, x as int, y as int))
}

/// The one-block partition {{1, ..., n}}.
pub open spec fn one_block_blocks(n: nat) -> Seq<Set<usize>> {
    seq![interval(1, n as int)]
}

/// π is a non-crossing partition of {1, ..., n} into nonempty blocks, n >= 1.
pub open spec fn nc_pre(pi: Seq<Set<usize>>, n: nat) -> bool {
    &&& 1 <= n <= usize::MAX
    &&& is_valid_partition(pi, n)
    &&& non_crossing(pi)
}

proof fn lemma_closed_union(bs: Seq<Set<usize>>, a: int, b: int, c: int)
    requires
        a <= b <= c,
        closed_between(bs, a, b),
        closed_between(bs, b, c),
    ensures
        closed_between(bs, a, c),
{
    assert forall|j: int, u: usize, v: usize|
        0 <= j < bs.len() && #[trigger] bs[j].contains(u) && #[trigger] bs[j].contains(v) && a < u
            <= c implies a < v <= c by {
        if u <= b {
            assert(a < v <= b);
        } else {
            assert(b < v <= c);
        }
    }
}

proof fn lemma_closed_diff_left(bs: Seq<Set<usize>>, a: int, b: int, c: int)
    requires
        a <= b <= c,
        closed_between(bs, a, c),
        closed_between(bs, a, b),
    ensures
        closed_between(bs, b, c),
{
    assert forall|j: int, u: usize, v: usize|
        0 <= j < bs.len() && #[trigger] bs[j].contains(u) && #[trigger] bs[j].contains(v) && b < u
            <= c implies b < v <= c by {
        assert(a < v <= c);
        if v <= b {
            assert(a < u <= b);
        }
    }
}

proof fn lemma_closed_diff_right(bs: Seq<Set<usize>>, a: int, b: int, c: int)
    requires
        a <= b <= c,
        closed_between(bs, a, c),
        closed_between(bs, b, c),
    ensures
        closed_between(bs, a, b),
{
    assert forall|j: int, u: usize, v: usize|
        0 <= j < bs.len() && #[trigger] bs[j].contains(u) && #[trigger] bs[j].contains(v) && a < u
            <= b implies a < v <= b by {
        assert(a < v <= c);
        if b < v {
            assert(b < u <= c);
        }
    }
}

proof fn lemma_closed_meet(bs: Seq<Set<usize>>, a: int, b: int, c: int, d: int)
    requires
        a <= b <= c <= d,
        closed_between(bs, a, c),
        closed_between(bs, b, d),
    ensures
        closed_between(bs, b, c),
{
    assert forall|j: int, u: usize, v: usize|
        0 <= j < bs.len() && #[trigger] bs[j].contains(u) && #[trigger] bs[j].contains(v) && b < u
            <= c implies b < v <= c by {
        assert(a < v <= c);
        assert(b < v <= d);
    }
}

/// Linking is transitive.
proof fn lemma_linked_trans(bs: Seq<Set<usize>>, x: int, y: int, z: int)
    requires
        linked(bs, x, y),
        linked(bs, y, z),
    ensures
        linked(bs, x, z),
{
    if x <= y && y <= z {
        lemma_closed_union(bs, x, y, z);
    } else if z <= y && y <= x {
        lemma_closed_union(bs, z, y, x);
    } else if x <= z && z <= y {
        lemma_closed_diff_right(bs, x, z, y);
    } else if y <= x && x <= z {
        lemma_closed_diff_left(bs, y, x, z);
    } else if y <= z && z <= x {
        lemma_closed_diff_left(bs, y, z, x);
    } else {
        lemma_closed_diff_right(bs, z, x, y);
    }
}

/// Two linked gaps have the same class.
proof fn lemma_class_eq(bs: Seq<Set<usize>>, n: nat, x: usize, w: usize)
    requires
        gap_class(bs, n, x).contains(w),
    ensures
        gap_class(bs, n, w) == gap_class(bs, n, x),
{
    assert forall|y: usize| gap_class(bs, n, w).contains(y) <==> gap_class(bs, n, x).contains(y) by {
        if linked(bs, w as int, y as int) {
            lemma_linked_trans(bs, x as int, w as int, y as int);
        }
        if linked(bs, x as int, y as int) {
            lemma_linked_trans(bs, w as int, x as int, y as int);
        }
    }
    assert(gap_class(bs, n, w) =~= gap_class(bs, n, x));
}

/// In a non-crossing partition no a1 < b1 < a2 < b2 has a1, a2 in one block and b1, b2 in
/// another.
proof fn lemma_no_cross(bs: Seq<Set<usize>>, j1: int, j2: int, a1: usize, b1: usize, a2: usize, b2: usize)
    requires
        non_crossing(bs),
        0 <= j1 < bs.len(),
        0 <= j2 < bs.len(),
        j1 != j2,
        bs[j1].contains(a1),
        bs[j1].contains(a2),
        bs[j2].contains(b1),
        bs[j2].contains(b2),
    ensures
        !(a1 < b1 && b1 < a2 && a2 < b2),
{
    if a1 < b1 && b1 < a2 && a2 < b2 {
        assert(interleaves(bs[j1], bs[j2]));
    }
    if j1 < j2 {
        assert(!blocks_cross_spec(bs[j1], bs[j2]));
    } else {
        assert(!blocks_cross_spec(bs[j2], bs[j1]));
    }
}

/// Every element of {1, ..., n} has a cyclic predecessor in its block.
proof fn lemma_prev_exists(bs: Seq<Set<usize>>, n: nat, y: usize) -> (x: usize)
    requires
        n <= usize::MAX,
        is_valid_partition(bs, n),
        1 <= y <= n,
    ensures
        is_block_next(bs, x, y),
{
    assert(in_some_block(bs, y));
    let j = choose|j: int| 0 <= j < bs.len() && #[trigger] bs[j].contains(y);
    let b = bs[j];
    lemma_block_finite(bs, n, j);
    let below = b.filter(|z: usize| z < y);
    vstd::set_lib::lemma_len_subset(below, b);
    if below.len() > 0 {
        let x = lemma_greatest(below);
        assert forall|z: usize| #[trigger] b.contains(z) implies !(x < z && z < y) by {
            if z < y {
                assert(below.contains(z));
            }
        }
        assert(cyclic_next_in(b, x, y));
        x
    } else {
        assert(b.len() > 0) by {
            if b.len() == 0 {
                b.lemma_len0_is_empty();
                assert(b.contains(y));
            }
        }
        let x = lemma_greatest(b);
        assert forall|z: usize| #[trigger] b.contains(z) implies y <= z && z <= x by {
            if z < y {
                assert(below.contains(z));
                below.lemma_len0_is_empty();
            }
        }
        assert(cyclic_next_in(b, x, y));
        x
    }
}

/// y is the least element of its block.
pub open spec fn is_block_min(bs: Seq<Set<usize>>, y: usize) -> bool {
    exists|j: int|
        0 <= j < bs.len() && #[trigger] bs[j].contains(y) && forall|u: usize| #[trigger] bs[j].contains(u) ==> y <= u
}

/// The gap after x is the last of its class.
pub open spec fn is_class_max(bs: Seq<Set<usize>>, n: nat, x: usize) -> bool {
    forall|c: usize| #[trigger] gap_class(bs, n, x).contains(c) ==> c <= x
}

/// For non-crossing π, π⁻¹γ sends the gap after x to the next gap of its class, read
/// cyclically; it moves forward exactly when x < n and x + 1 is the least element of
/// its block.
pub proof fn lemma_kreweras_map(pi: Seq<Set<usize>>, n: nat, x: usize)
    requires
        nc_pre(pi, n),
        1 <= x <= n,
    ensures
        gap_class(pi, n, x).contains(complement_map(pi, one_block_blocks(n), x)),
        cyclic_next_in(gap_class(pi, n, x), x, complement_map(pi, one_block_blocks(n), x)),
        (x < complement_map(pi, one_block_blocks(n), x)) <==> (x < n && is_block_min(pi, (x + 1) as usize)),
{
    let one = one_block_blocks(n);
    let cls = gap_class(pi, n, x);
    let y: usize = if x < n { (x + 1) as usize } else { 1 };
    assert(one[0] == interval(1, n as int));
    assert(cyclic_next_in(one[0], x, y));
    assert(one[0].contains(x) && one[0].contains(y));
    assert(is_block_next(one, x, y));
    let z = lemma_prev_exists(pi, n, y);
    assert(complement_step(pi, one, x, z));
    assert(disjoint_blocks(one));
    assert(disjoint_blocks(pi));
    lemma_step_map(pi, one, x, z);
    let jb = choose|j: int|
        0 <= j < pi.len() && #[trigger] pi[j].contains(z) && pi[j].contains(y)
            && cyclic_next_in(pi[j], z, y);
    let b = pi[jb];
    assert(1 <= z <= n);
    assert(cls.contains(x));
    if x < n && y <= z {
        // y = x + 1 is the least element of its block and z the greatest
        assert forall|j: int, u: usize, v: usize|
            0 <= j < pi.len() && #[trigger] pi[j].contains(u) && #[trigger] pi[j].contains(v) && x < u
                <= z implies x < v <= z by {
            if j == jb {
                assert(y <= v <= z);
            } else {
                if u == y {
                    lemma_same_block(pi, j, jb, y);
                }
                if u == z {
                    lemma_same_block(pi, j, jb, z);
                }
                if v > z {
                    lemma_no_cross(pi, jb, j, y, u, z, v);
                }
                if v <= x {
                    lemma_no_cross(pi, j, jb, v, y, u, z);
                }
            }
        }
        assert(cls.contains(z));
        assert forall|c: usize| #[trigger] cls.contains(c) implies !(x < c && c < z) by {
            if x < c && c < z {
                assert(pi[jb].contains(y) && pi[jb].contains(z));
            }
        }
        assert(is_block_min(pi, y));
    } else if x < n {
        // z < y: y is not the least element of its block
        assert(z < y);
        assert forall|j: int, u: usize, v: usize|
            0 <= j < pi.len() && #[trigger] pi[j].contains(u) && #[trigger] pi[j].contains(v) && z < u
                <= x implies z < v <= x by {
            if j == jb {
                assert(!(z < u && u < y));
            } else {
                if v == y {
                    lemma_same_block(pi, j, jb, y);
                }
                if v == z {
                    lemma_same_block(pi, j, jb, z);
                }
                if v > x {
                    lemma_no_cross(pi, jb, j, z, u, y, v);
                }
                if v <= z {
                    lemma_no_cross(pi, j, jb, v, z, u, y);
                }
            }
        }
        assert(cls.contains(z));
        assert forall|c: usize| #[trigger] cls.contains(c) implies z <= c && c <= x by {
            if c > x {
                assert(pi[jb].contains(y) && pi[jb].contains(z));
            }
            if c < z {
                assert(pi[jb].contains(y) && pi[jb].contains(z));
            }
        }
        assert(!is_block_min(pi, y)) by {
            if is_block_min(pi, y) {
                let j = choose|j: int|
                    0 <= j < pi.len() && #[trigger] pi[j].contains(y) && forall|u: usize|
                        #[trigger] pi[j].contains(u) ==> y <= u;
                lemma_same_block(pi, j, jb, y);
            }
        }
    } else {
        // x = n, y = 1, z is the greatest element of the block of 1
        assert(y == 1);
        assert(y <= z);
        assert forall|j: int, u: usize, v: usize|
            0 <= j < pi.len() && #[trigger] pi[j].contains(u) && #[trigger] pi[j].contains(v) && z < u
                <= n implies z < v <= n by {
            if j == jb {
                assert(y <= u <= z);
            } else {
                if v == z {
                    lemma_same_block(pi, j, jb, z);
                }
                if v == 1 {
                    lemma_same_block(pi, j, jb, y);
                }
                if v <= z {
                    lemma_no_cross(pi, jb, j, y, v, z, u);
                }
            }
        }
        assert(cls.contains(z));
        assert forall|c: usize| #[trigger] cls.contains(c) implies z <= c && c <= x by {
            if c < z {
                assert(pi[jb].contains(y) && pi[jb].contains(z));
            }
        }
    }
}

/// The cyclic successor within a set is unique.
proof fn lemma_cyclic_unique(s: Set<usize>, w: usize, z1: usize, z2: usize)
    requires
        s.contains(z1),
        s.contains(z2),
        cyclic_next_in(s, w, z1),
        cyclic_next_in(s, w, z2),
    ensures
        z1 == z2,
{
}

/// Iterating π⁻¹γ from x stays in the class of x.
proof fn lemma_kr_stays(pi: Seq<Set<usize>>, n: nat, x: usize, k: nat)
    requires
        nc_pre(pi, n),
        1 <= x <= n,
    ensures
        gap_class(pi, n, x).contains(iterate(pi, one_block_blocks(n), k, x)),
    decreases k,
{
    let one = one_block_blocks(n);
    if k == 0 {
        assert(gap_class(pi, n, x).contains(x));
    } else {
        lemma_kr_stays(pi, n, x, (k - 1) as nat);
        let w = iterate(pi, one, (k - 1) as nat, x);
        lemma_class_eq(pi, n, x, w);
        lemma_kreweras_map(pi, n, w);
    }
}

/// Every later gap of the class of x is reached from x.
proof fn lemma_kr_reach(pi: Seq<Set<usize>>, n: nat, x: usize, z: usize)
    requires
        nc_pre(pi, n),
        1 <= x <= n,
        gap_class(pi, n, x).contains(z),
        x <= z,
    ensures
        orbit(pi, one_block_blocks(n), x).contains(z),
    decreases z,
{
    let one = one_block_blocks(n);
    let cls = gap_class(pi, n, x);
    if z == x {
        assert(iterate(pi, one, 0, x) == x);
    } else {
        lemma_interval_len(n as int);
        assert(cls.subset_of(interval(1, n as int)));
        vstd::set_lib::lemma_len_subset(cls, interval(1, n as int));
        let below = cls.filter(|w: usize| w < z);
        vstd::set_lib::lemma_len_subset(below, cls);
        assert(cls.contains(x));
        assert(below.contains(x));
        assert(below.len() > 0) by {
            if below.len() == 0 {
                below.lemma_len0_is_empty();
            }
        }
        let w = lemma_greatest(below);
        lemma_kr_reach(pi, n, x, w);
        let k = choose|k: nat| #[trigger] iterate(pi, one, k, x) == w;
        assert forall|c: usize| #[trigger] cls.contains(c) implies !(w < c && c < z) by {
            if w < c && c < z {
                assert(below.contains(c));
            }
        }
        assert(cyclic_next_in(cls, w, z));
        lemma_class_eq(pi, n, x, w);
        lemma_kreweras_map(pi, n, w);
        lemma_cyclic_unique(cls, w, z, complement_map(pi, one, w));
        assert(iterate(pi, one, k + 1, x) == z);
    }
}

/// For non-crossing π, the cycle of π⁻¹γ through x is the class of the gap after x.
pub proof fn lemma_kr_orbit(pi: Seq<Set<usize>>, n: nat, x: usize)
    requires
        nc_pre(pi, n),
        1 <= x <= n,
    ensures
        orbit(pi, one_block_blocks(n), x) == gap_class(pi, n, x),
{
    let one = one_block_blocks(n);
    let cls = gap_class(pi, n, x);
    assert forall|z: usize| orbit(pi, one, x).contains(z) implies cls.contains(z) by {
        let k = choose|k: nat| #[trigger] iterate(pi, one, k, x) == z;
        lemma_kr_stays(pi, n, x, k);
    }
    assert forall|z: usize| cls.contains(z) implies orbit(pi, one, x).contains(z) by {
        if x <= z {
            lemma_kr_reach(pi, n, x, z);
        } else {
            lemma_interval_len(n as int);
            assert(cls.subset_of(interval(1, n as int)));
            vstd::set_lib::lemma_len_subset(cls, interval(1, n as int));
            assert(cls.contains(x));
            assert(cls.len() > 0) by {
                if cls.len() == 0 {
                    cls.lemma_len0_is_empty();
                }
            }
            let top = lemma_greatest(cls);
            let low = lemma_least(cls);
            lemma_kr_reach(pi, n, x, top);
            let k1 = choose|k: nat| #[trigger] iterate(pi, one, k, x) == top;
            assert(cyclic_next_in(cls, top, low));
            lemma_class_eq(pi, n, x, top);
            lemma_kreweras_map(pi, n, top);
            lemma_cyclic_unique(cls, top, low, complement_map(pi, one, top));
            assert(iterate(pi, one, k1 + 1, x) == low);
            lemma_class_eq(pi, n, x, low);
            lemma_kr_reach(pi, n, low, z);
            let k2 = choose|k: nat| #[trigger] iterate(pi, one, k, low) == z;
            lemma_iterate_add(pi, one, k1 + 1, k2, x);
            assert(iterate(pi, one, (k1 + 1 + k2) as nat, x) == z);
        }
    }
    assert(orbit(pi, one, x) =~= cls);
}

/// b is the cycle of π⁻¹σ through some x in 1..=m.
pub open spec fn is_orbit_upto(pi: Seq<Set<usize>>, sigma: Seq<Set<usize>>, b: Set<usize>, m: int) -> bool {
    exists|x: usize| 1 <= x <= m && b == #[trigger] orbit(pi, sigma, x)
}

/// The cycles with least element at most m are cycles through points up to m, listed in
/// increasing order of least element.
proof fn lemma_orbits_upto_shape(pi: Seq<Set<usize>>, sigma: Seq<Set<usize>>, m: int)
    requires
        m <= usize::MAX,
    ensures
        forall|j: int|
            0 <= j < orbits_upto(pi, sigma, m).len() ==> is_orbit_upto(
                pi,
                sigma,
                #[trigger] orbits_upto(pi, sigma, m)[j],
                m,
            ),
        blocks_in_order(orbits_upto(pi, sigma, m)),
    decreases m,
{
    let r = orbits_upto(pi, sigma, m);
    if m >= 1 {
        lemma_orbits_upto_shape(pi, sigma, m - 1);
        let prev = orbits_upto(pi, sigma, m - 1);
        let x = m as usize;
        assert forall|j: int| 0 <= j < prev.len() implies is_orbit_upto(pi, sigma, #[trigger] prev[j], m) by {
            assert(is_orbit_upto(pi, sigma, prev[j], m - 1));
            let w = choose|w: usize| 1 <= w <= m - 1 && prev[j] == #[trigger] orbit(pi, sigma, w);
        }
        if is_leader(pi, sigma, x) {
            assert(r == prev.push(orbit(pi, sigma, x)));
            assert(iterate(pi, sigma, 0, x) == x);
            assert(orbit(pi, sigma, x).contains(x));
            assert forall|j: int| 0 <= j < r.len() implies is_orbit_upto(pi, sigma, #[trigger] r[j], m) by {
                if j < prev.len() {
                    assert(r[j] == prev[j]);
                } else {
                    assert(r[j] == orbit(pi, sigma, x));
                }
            }
            assert forall|j: int| 0 <= j < r.len() implies #[trigger] has_element(r[j]) by {
                if j < prev.len() {
                    assert(r[j] == prev[j]);
                    assert(has_element(prev[j]));
                } else {
                    assert(r[j].contains(x));
                }
            }
            assert forall|i: int, j: int, y: usize|
                0 <= i < j < r.len() && #[trigger] r[j].contains(y) implies #[trigger] has_smaller(r[i], y) by {
                assert(r[i] == prev[i]);
                if j < prev.len() {
                    assert(r[j] == prev[j]);
                    assert(has_smaller(prev[i], y));
                } else {
                    assert(is_orbit_upto(pi, sigma, prev[i], m - 1));
                    let w = choose|w: usize| 1 <= w <= m - 1 && prev[i] == #[trigger] orbit(pi, sigma, w);
                    assert(iterate(pi, sigma, 0, w) == w);
                    assert(prev[i].contains(w));
                    assert(r[j] == orbit(pi, sigma, x));
                    assert(orbit(pi, sigma, x).contains(y));
                    assert(x <= y);
                    assert(r[i].contains(w) && w < y);
                }
            }
        } else {
            assert(r == prev);
        }
    }
}

/// For non-crossing π, each block of K(π) is the class of each of its gaps.
proof fn lemma_kr_blocks_are_classes(pi: Seq<Set<usize>>, n: nat)
    requires
        nc_pre(pi, n),
    ensures
        forall|j: int, b: usize|
            0 <= j < relative_complement(pi, one_block_blocks(n), n).len()
                && #[trigger] relative_complement(pi, one_block_blocks(n), n)[j].contains(b) ==> 1 <= b <= n
                && relative_complement(pi, one_block_blocks(n), n)[j] == gap_class(pi, n, b),
        blocks_in_order(relative_complement(pi, one_block_blocks(n), n)),
{
    let one = one_block_blocks(n);
    let r = relative_complement(pi, one, n);
    lemma_orbits_upto_shape(pi, one, n as int);
    assert forall|j: int, b: usize| 0 <= j < r.len() && #[trigger] r[j].contains(b) implies 1 <= b <= n
        && r[j] == gap_class(pi, n, b) by {
        assert(is_orbit_upto(pi, one, r[j], n as int));
        let x = choose|x: usize| 1 <= x <= n && r[j] == #[trigger] orbit(pi, one, x);
        lemma_kr_orbit(pi, n, x);
        lemma_class_eq(pi, n, x, b);
    }
}

/// For non-crossing π, K(π) is non-crossing and its blocks are pairwise disjoint.
pub proof fn lemma_kr_non_crossing(pi: Seq<Set<usize>>, n: nat)
    requires
        nc_pre(pi, n),
    ensures
        non_crossing(relative_complement(pi, one_block_blocks(n), n)),
        disjoint_blocks(relative_complement(pi, one_block_blocks(n), n)),
{
    let one = one_block_blocks(n);
    let r = relative_complement(pi, one, n);
    lemma_kr_blocks_are_classes(pi, n);
    lemma_interval_len(n as int);
    assert forall|i: int, j: int| 0 <= i < j < r.len() implies (#[trigger] r[i]).disjoint(#[trigger] r[j]) by {
        assert forall|a: usize| r[i].contains(a) implies !r[j].contains(a) by {
            if r[j].contains(a) {
                assert(r[i] == r[j]);
                assert(r[i].subset_of(interval(1, n as int)));
                vstd::set_lib::lemma_len_subset(r[i], interval(1, n as int));
                assert(r[i].len() > 0) by {
                    if r[i].len() == 0 {
                        r[i].lemma_len0_is_empty();
                    }
                }
                let low = lemma_least(r[i]);
                assert(r[j].contains(low));
                assert(has_smaller(r[i], low));
            }
        }
    }
    assert forall|i: int, j: int| 0 <= i < j < r.len() implies !#[trigger] blocks_cross_spec(r[i], r[j]) by {
        assert forall|p: int, q: int, a1: usize, b1: usize, a2: usize, b2: usize|
            ((p == i && q == j) || (p == j && q == i)) && r[p].contains(a1) && r[q].contains(b1)
                && r[p].contains(a2) && r[q].contains(b2) && a1 < b1 && b1 < a2 && a2 < b2 implies false by {
            assert(r[p] == gap_class(pi, n, a1));
            assert(gap_class(pi, n, a1).contains(a2));
            assert(r[q] == gap_class(pi, n, b1));
            assert(gap_class(pi, n, b1).contains(b2));
            lemma_closed_meet(pi, a1 as int, b1 as int, a2 as int, b2 as int);
            assert(gap_class(pi, n, b1).contains(a2));
            assert(r[i].disjoint(r[j]));
        }
    }
}

/// The number of x in 1..=k with p(x).
pub open spec fn count_upto(p: spec_fn(usize) -> bool, k: int) -> nat
    decreases k,
{
    if k < 1 {
        0
    } else {
        count_upto(p, k - 1) + if p(k as usize) {
            1nat
        } else {
            0nat
        }
    }
}

/// The x in 1..=k with p(x).
pub open spec fn set_upto(p: spec_fn(usize) -> bool, k: int) -> Set<usize> {
    Set::new(|x: usize| 1 <= x <= k && p(x))
}

proof fn lemma_set_upto_len(p: spec_fn(usize) -> bool, k: int)
    requires
        0 <= k <= usize::MAX,
    ensures
        set_upto(p, k).finite(),
        set_upto(p, k).len() == count_upto(p, k),
    decreases k,
{
    if k == 0 {
        assert(set_upto(p, 0) =~= Set::<usize>::empty());
    } else {
        lemma_set_upto_len(p, k - 1);
        let x = k as usize;
        if p(x) {
            assert(set_upto(p, k) =~= set_upto(p, k - 1).insert(x));
        } else {
            assert(set_upto(p, k) =~= set_upto(p, k - 1));
        }
    }
}

/// The block holds an element satisfying p.
spec fn has_rep(b: Set<usize>, p: spec_fn(usize) -> bool) -> bool {
    exists|x: usize| b.contains(x) && p(x)
}

/// When each block holds exactly one element satisfying p, and every such element of
/// {1, ..., n} lies in a block, the blocks are as many as those elements.
proof fn lemma_count_blocks(bs: Seq<Set<usize>>, n: nat, p: spec_fn(usize) -> bool)
    requires
        n <= usize::MAX,
        disjoint_blocks(bs),
        forall|j: int| 0 <= j < bs.len() ==> #[trigger] has_rep(bs[j], p),
        forall|j: int, x: usize, y: usize|
            0 <= j < bs.len() && #[trigger] bs[j].contains(x) && #[trigger] bs[j].contains(y) && p(x)
                && p(y) ==> x == y,
        forall|x: usize| 1 <= x <= n && #[trigger] p(x) ==> in_some_block(bs, x),
        forall|j: int, x: usize| 0 <= j < bs.len() && #[trigger] bs[j].contains(x) ==> 1 <= x <= n,
    ensures
        bs.len() == count_upto(p, n as int),
{
    let reps = Seq::new(bs.len(), |j: int| choose|x: usize| bs[j].contains(x) && p(x));
    assert forall|j: int| 0 <= j < bs.len() implies bs[j].contains(#[trigger] reps[j]) && p(reps[j]) by {
        assert(has_rep(bs[j], p));
    }
    assert(reps.no_duplicates()) by {
        assert forall|a: int, b: int| 0 <= a < reps.len() && 0 <= b < reps.len() && a != b implies reps[a]
            != reps[b] by {
            assert(bs[a].contains(reps[a]) && bs[b].contains(reps[b]));
            if reps[a] == reps[b] {
                lemma_same_block(bs, a, b, reps[a]);
            }
        }
    }
    assert forall|x: usize| reps.to_set().contains(x) <==> set_upto(p, n as int).contains(x) by {
        if reps.to_set().contains(x) {
            let j = reps.index_of(x);
            assert(bs[j].contains(reps[j]) && p(reps[j]));
        }
        if set_upto(p, n as int).contains(x) {
            assert(in_some_block(bs, x));
            let j = choose|j: int| 0 <= j < bs.len() && #[trigger] bs[j].contains(x);
            assert(bs[j].contains(reps[j]) && p(reps[j]));
            assert(reps[j] == x);
            assert(reps.contains(x));
        }
    }
    assert(reps.to_set() =~= set_upto(p, n as int));
    reps.unique_seq_to_set();
    lemma_set_upto_len(p, n as int);
}

/// A non-crossing partition has as many blocks as least elements of blocks.
proof fn lemma_count_pi(pi: Seq<Set<usize>>, n: nat)
    requires
        nc_pre(pi, n),
    ensures
        pi.len() == count_upto(|x: usize| is_block_min(pi, x), n as int),
{
    let p = |x: usize| is_block_min(pi, x);
    assert forall|j: int| 0 <= j < pi.len() implies #[trigger] has_rep(pi[j], p) by {
        lemma_block_finite(pi, n, j);
        assert(has_element(pi[j]));
        let y = choose|y: usize| pi[j].contains(y);
        assert(pi[j].len() > 0) by {
            if pi[j].len() == 0 {
                pi[j].lemma_len0_is_empty();
            }
        }
        let low = lemma_least(pi[j]);
        assert(is_block_min(pi, low));
        assert(p(low));
    }
    assert forall|j: int, x: usize, y: usize|
        0 <= j < pi.len() && #[trigger] pi[j].contains(x) && #[trigger] pi[j].contains(y) && p(x) && p(y)
            implies x == y by {
        let jx = choose|jj: int|
            0 <= jj < pi.len() && #[trigger] pi[jj].contains(x) && forall|u: usize|
                #[trigger] pi[jj].contains(u) ==> x <= u;
        let jy = choose|jj: int|
            0 <= jj < pi.len() && #[trigger] pi[jj].contains(y) && forall|u: usize|
                #[trigger] pi[jj].contains(u) ==> y <= u;
        lemma_same_block(pi, j, jx, x);
        lemma_same_block(pi, j, jy, y);
    }
    assert forall|x: usize| 1 <= x <= n && #[trigger] p(x) implies in_some_block(pi, x) by {}
    lemma_count_blocks(pi, n, p);
}

/// The cycles with least element at most m include the cycle through each leader l <= m.
proof fn lemma_leader_listed(pi: Seq<Set<usize>>, sigma: Seq<Set<usize>>, m: int, l: usize)
    requires
        1 <= l <= m,
        m <= usize::MAX,
        is_leader(pi, sigma, l),
    ensures
        orbits_upto(pi, sigma, m).contains(orbit(pi, sigma, l)),
    decreases m,
{
    let prev = orbits_upto(pi, sigma, m - 1);
    if l < m {
        lemma_leader_listed(pi, sigma, m - 1, l);
        if is_leader(pi, sigma, m as usize) {
            let k = prev.index_of(orbit(pi, sigma, l));
            assert(prev.push(orbit(pi, sigma, m as usize))[k] == orbit(pi, sigma, l));
        }
    } else {
        assert(l == m as usize);
        assert(prev.push(orbit(pi, sigma, l))[prev.len() as int] == orbit(pi, sigma, l));
    }
}

/// K(π) has as many blocks as gaps that end their class.
proof fn lemma_count_kr(pi: Seq<Set<usize>>, n: nat)
    requires
        nc_pre(pi, n),
    ensures
        relative_complement(pi, one_block_blocks(n), n).len() == count_upto(
            |x: usize| is_class_max(pi, n, x),
            n as int,
        ),
{
    let one = one_block_blocks(n);
    let r = relative_complement(pi, one, n);
    let p = |x: usize| is_class_max(pi, n, x);
    lemma_kr_blocks_are_classes(pi, n);
    lemma_kr_non_crossing(pi, n);
    lemma_interval_len(n as int);
    assert forall|j: int| 0 <= j < r.len() implies #[trigger] has_rep(r[j], p) by {
        assert(has_element(r[j]));
        let y = choose|y: usize| r[j].contains(y);
        assert(r[j] == gap_class(pi, n, y));
        assert(r[j].subset_of(interval(1, n as int)));
        vstd::set_lib::lemma_len_subset(r[j], interval(1, n as int));
        assert(r[j].len() > 0) by {
            if r[j].len() == 0 {
                r[j].lemma_len0_is_empty();
            }
        }
        let top = lemma_greatest(r[j]);
        assert(r[j] == gap_class(pi, n, top));
        assert(is_class_max(pi, n, top));
        assert(p(top));
    }
    assert forall|j: int, x: usize, y: usize|
        0 <= j < r.len() && #[trigger] r[j].contains(x) && #[trigger] r[j].contains(y) && p(x) && p(y)
            implies x == y by {
        assert(r[j] == gap_class(pi, n, x) && r[j] == gap_class(pi, n, y));
        assert(gap_class(pi, n, x).contains(y));
        assert(gap_class(pi, n, y).contains(x));
    }
    assert forall|x: usize| 1 <= x <= n && #[trigger] p(x) implies in_some_block(r, x) by {
        let cls = gap_class(pi, n, x);
        assert(cls.contains(x));
        assert(cls.subset_of(interval(1, n as int)));
        vstd::set_lib::lemma_len_subset(cls, interval(1, n as int));
        assert(cls.len() > 0) by {
            if cls.len() == 0 {
                cls.lemma_len0_is_empty();
            }
        }
        let low = lemma_least(cls);
        lemma_class_eq(pi, n, x, low);
        lemma_kr_orbit(pi, n, low);
        assert(is_leader(pi, one, low));
        lemma_leader_listed(pi, one, n as int, low);
        let j = r.index_of(orbit(pi, one, low));
        assert(r[j].contains(x));
    }
    lemma_count_blocks(r, n, p);
}

/// For x < n the gap after x ends its class exactly when x + 1 is not the least element
/// of its block; the gap after n always ends its class.
proof fn lemma_class_max_iff(pi: Seq<Set<usize>>, n: nat, x: usize)
    requires
        nc_pre(pi, n),
        1 <= x <= n,
    ensures
        is_class_max(pi, n, x) <==> !(x < n && is_block_min(pi, (x + 1) as usize)),
{
    let m = complement_map(pi, one_block_blocks(n), x);
    lemma_kreweras_map(pi, n, x);
    let cls = gap_class(pi, n, x);
    if x < m {
        assert(cls.contains(m));
    } else {
        assert forall|c: usize| #[trigger] cls.contains(c) implies c <= x by {}
    }
}

/// Counting gaps that end their class against least elements of blocks.
proof fn lemma_count_relation(pi: Seq<Set<usize>>, n: nat, k: int)
    requires
        nc_pre(pi, n),
        0 <= k <= n - 1,
    ensures
        count_upto(|x: usize| is_class_max(pi, n, x), k) + count_upto(|x: usize| is_block_min(pi, x), k + 1)
            == k + 1,
    decreases k,
{
    let pc = |x: usize| is_class_max(pi, n, x);
    let pm = |x: usize| is_block_min(pi, x);
    if k == 0 {
        assert(in_some_block(pi, 1));
        let j = choose|j: int| 0 <= j < pi.len() && #[trigger] pi[j].contains(1);
        assert forall|u: usize| #[trigger] pi[j].contains(u) implies 1 <= u by {}
        assert(is_block_min(pi, 1));
        assert(count_upto(pm, 1) == count_upto(pm, 0) + 1);
    } else {
        lemma_count_relation(pi, n, k - 1);
        lemma_class_max_iff(pi, n, k as usize);
        assert((k as usize + 1) as usize == (k + 1) as usize);
    }
}

/// For a non-crossing partition π of {1, ..., n} (n >= 1), K(π) is non-crossing and
/// |π| + |K(π)| = n + 1.
pub proof fn lemma_kreweras_count(pi: Seq<Set<usize>>, n: nat)
    requires
        nc_pre(pi, n),
    ensures
        non_crossing(relative_complement(pi, one_block_blocks(n), n)),
        pi.len() + relative_complement(pi, one_block_blocks(n), n).len() == n + 1,
{
    lemma_kr_non_crossing(pi, n);
    lemma_count_pi(pi, n);
    lemma_count_kr(pi, n);
    lemma_count_relation(pi, n, n - 1);
    lemma_class_max_iff(pi, n, n as usize);
    let pc = |x: usize| is_class_max(pi, n, x);
    assert(count_upto(pc, n as int) == count_upto(pc, n - 1) + 1);
}

/// Every gap of {1, ..., n} lies in a block of K(π).
proof fn lemma_kr_covers(pi: Seq<Set<usize>>, n: nat, x: usize)
    requires
        nc_pre(pi, n),
        1 <= x <= n,
    ensures
        in_some_block(relative_complement(pi, one_block_blocks(n), n), x),
{
    let one = one_block_blocks(n);
    let r = relative_complement(pi, one, n);
    let cls = gap_class(pi, n, x);
    lemma_interval_len(n as int);
    assert(cls.contains(x));
    assert(cls.subset_of(interval(1, n as int)));
    vstd::set_lib::lemma_len_subset(cls, interval(1, n as int));
    assert(cls.len() > 0) by {
        if cls.len() == 0 {
            cls.lemma_len0_is_empty();
        }
    }
    let low = lemma_least(cls);
    lemma_class_eq(pi, n, x, low);
    lemma_kr_orbit(pi, n, low);
    assert(is_leader(pi, one, low));
    lemma_leader_listed(pi, one, n as int, low);
    let j = r.index_of(orbit(pi, one, low));
    assert(r[j].contains(x));
}

/// Two gaps are linked exactly when they share a block of K(π).
proof fn lemma_kr_linked_iff(pi: Seq<Set<usize>>, n: nat, x: usize, y: usize)
    requires
        nc_pre(pi, n),
        1 <= x <= n,
        1 <= y <= n,
    ensures
        linked(pi, x as int, y as int) <==> exists|j: int|
            0 <= j < relative_complement(pi, one_block_blocks(n), n).len()
                && #[trigger] relative_complement(pi, one_block_blocks(n), n)[j].contains(x)
                && relative_complement(pi, one_block_blocks(n), n)[j].contains(y),
{
    let r = relative_complement(pi, one_block_blocks(n), n);
    lemma_kr_blocks_are_classes(pi, n);
    lemma_kr_covers(pi, n, x);
    let j = choose|j: int| 0 <= j < r.len() && #[trigger] r[j].contains(x);
    assert(r[j] == gap_class(pi, n, x));
    if exists|k: int| 0 <= k < r.len() && #[trigger] r[k].contains(x) && r[k].contains(y) {
        let k = choose|k: int| 0 <= k < r.len() && #[trigger] r[k].contains(x) && r[k].contains(y);
        assert(r[k] == gap_class(pi, n, x));
    }
}

/// An interval that starts at 0 is closed exactly when its complement in {1, ..., n} is.
proof fn lemma_closed_from_zero(pi: Seq<Set<usize>>, n: nat, t: int)
    requires
        is_valid_partition(pi, n),
        0 <= t <= n,
    ensures
        closed_between(pi, 0, t) <==> closed_between(pi, t, n as int),
{
    if closed_between(pi, 0, t) {
        assert forall|j: int, u: usize, v: usize|
            0 <= j < pi.len() && #[trigger] pi[j].contains(u) && #[trigger] pi[j].contains(v) && t < u
                <= n implies t < v <= n by {
            if v <= t {
                assert(0 < v <= t);
            }
        }
    }
    if closed_between(pi, t, n as int) {
        assert forall|j: int, u: usize, v: usize|
            0 <= j < pi.len() && #[trigger] pi[j].contains(u) && #[trigger] pi[j].contains(v) && 0 < u
                <= t implies 0 < v <= t by {
            if v > t {
                assert(t < v <= n);
            }
        }
    }
}

/// Elements a and b share a block.
pub open spec fn same_block(bs: Seq<Set<usize>>, a: usize, b: usize) -> bool {
    exists|j: int| 0 <= j < bs.len() && #[trigger] bs[j].contains(a) && bs[j].contains(b)
}

/// In a non-crossing partition, the span of a block, from its least to its greatest
/// element, is a union of blocks.
proof fn lemma_span_closed(pi: Seq<Set<usize>>, n: nat, ja: int, lo: usize, hi: usize)
    requires
        nc_pre(pi, n),
        0 <= ja < pi.len(),
        pi[ja].contains(lo),
        pi[ja].contains(hi),
        forall|u: usize| #[trigger] pi[ja].contains(u) ==> lo <= u <= hi,
    ensures
        closed_between(pi, lo - 1, hi as int),
{
    assert forall|j: int, u: usize, v: usize|
        0 <= j < pi.len() && #[trigger] pi[j].contains(u) && #[trigger] pi[j].contains(v) && lo - 1 < u
            <= hi implies lo - 1 < v <= hi by {
        if j != ja {
            if u == lo {
                lemma_same_block(pi, j, ja, lo);
            }
            if u == hi {
                lemma_same_block(pi, j, ja, hi);
            }
            lemma_no_cross(pi, j, ja, v, lo, u, hi);
            lemma_no_cross(pi, ja, j, lo, u, hi, v);
        }
    }
}

/// In a non-crossing partition of {1, ..., n}, elements in different blocks are told
/// apart by some interval {s + 1, ..., t} that is a union of blocks.
proof fn lemma_separated(pi: Seq<Set<usize>>, n: nat, a: usize, b: usize) -> (st: (int, int))
    requires
        nc_pre(pi, n),
        1 <= a <= n,
        1 <= b <= n,
        !same_block(pi, a, b),
    ensures
        0 <= st.0 < st.1 <= n,
        closed_between(pi, st.0, st.1),
        (st.0 < a <= st.1) != (st.0 < b <= st.1),
{
    assert(in_some_block(pi, a));
    assert(in_some_block(pi, b));
    let ja = choose|j: int| 0 <= j < pi.len() && #[trigger] pi[j].contains(a);
    let jb = choose|j: int| 0 <= j < pi.len() && #[trigger] pi[j].contains(b);
    lemma_block_finite(pi, n, ja);
    lemma_block_finite(pi, n, jb);
    assert(pi[ja].len() > 0) by {
        if pi[ja].len() == 0 {
            pi[ja].lemma_len0_is_empty();
        }
    }
    assert(pi[jb].len() > 0) by {
        if pi[jb].len() == 0 {
            pi[jb].lemma_len0_is_empty();
        }
    }
    let la = lemma_least(pi[ja]);
    let ha = lemma_greatest(pi[ja]);
    let lb = lemma_least(pi[jb]);
    let hb = lemma_greatest(pi[jb]);
    lemma_span_closed(pi, n, ja, la, ha);
    lemma_span_closed(pi, n, jb, lb, hb);
    if !(la <= b && b <= ha) {
        (la - 1, ha as int)
    } else if !(lb <= a && a <= hb) {
        (lb - 1, hb as int)
    } else {
        // each block lies within the span of the other: their least elements agree
        assert(pi[ja].contains(la) && pi[jb].contains(lb));
        assert(lb <= la) by {
            assert(closed_between(pi, lb - 1, hb as int));
            assert(lb - 1 < a <= hb);
        }
        assert(la <= lb) by {
            assert(closed_between(pi, la - 1, ha as int));
            assert(la - 1 < b <= ha);
        }
        lemma_same_block(pi, ja, jb, la);
        (0, 1)
    }
}

/// Two partitions of {1, ..., n} into nonempty blocks, with the same blocks and both
/// listed in increasing order of least elements, are equal.
proof fn lemma_same_blocks_equal(p: Seq<Set<usize>>, q: Seq<Set<usize>>, n: nat)
    requires
        n <= usize::MAX,
        is_valid_partition(p, n),
        is_valid_partition(q, n),
        blocks_in_order(p),
        blocks_in_order(q),
        forall|a: usize, b: usize| 1 <= a <= n && 1 <= b <= n ==> (#[trigger] same_block(p, a, b) <==> #[trigger] same_block(q, a, b)),
    ensures
        p == q,
{
    // a block of one holding x is the block of the other holding x
    assert forall|j: int, k: int, x: usize|
        0 <= j < p.len() && 0 <= k < q.len() && #[trigger] p[j].contains(x) && #[trigger] q[k].contains(x)
            implies p[j] == q[k] by {
        assert forall|y: usize| p[j].contains(y) <==> q[k].contains(y) by {
            if p[j].contains(y) {
                assert(same_block(p, x, y));
                assert(same_block(q, x, y));
                let k2 = choose|k2: int| 0 <= k2 < q.len() && #[trigger] q[k2].contains(x) && q[k2].contains(y);
                lemma_same_block(q, k, k2, x);
            }
            if q[k].contains(y) {
                assert(same_block(q, x, y));
                assert(same_block(p, x, y));
                let j2 = choose|j2: int| 0 <= j2 < p.len() && #[trigger] p[j2].contains(x) && p[j2].contains(y);
                lemma_same_block(p, j, j2, x);
            }
        }
        assert(p[j] =~= q[k]);
    }
    lemma_same_blocks_prefix(p, q, n, if p.len() <= q.len() { p.len() as int } else { q.len() as int });
    if p.len() != q.len() {
        if p.len() > q.len() {
            let m = q.len() as int;
            assert(has_element(p[m]));
            let x = choose|x: usize| p[m].contains(x);
            assert(in_some_block(q, x));
            let k = choose|k: int| 0 <= k < q.len() && #[trigger] q[k].contains(x);
            assert(p[k] == q[k]);
            lemma_same_block(p, k, m, x);
        } else {
            let m = p.len() as int;
            assert(has_element(q[m]));
            let x = choose|x: usize| q[m].contains(x);
            assert(in_some_block(p, x));
            let k = choose|k: int| 0 <= k < p.len() && #[trigger] p[k].contains(x);
            assert(p[k] == q[k]);
            lemma_same_block(q, k, m, x);
        }
    }
    assert(p =~= q);
}

/// The first m blocks agree.
proof fn lemma_same_blocks_prefix(p: Seq<Set<usize>>, q: Seq<Set<usize>>, n: nat, m: int)
    requires
        n <= usize::MAX,
        is_valid_partition(p, n),
        is_valid_partition(q, n),
        blocks_in_order(p),
        blocks_in_order(q),
        0 <= m <= p.len(),
        m <= q.len(),
        forall|j: int, k: int, x: usize|
            0 <= j < p.len() && 0 <= k < q.len() && #[trigger] p[j].contains(x) && #[trigger] q[k].contains(x)
                ==> p[j] == q[k],
    ensures
        forall|j: int| 0 <= j < m ==> #[trigger] p[j] == q[j],
    decreases m,
{
    if m > 0 {
        lemma_same_blocks_prefix(p, q, n, m - 1);
        let j = m - 1;
        lemma_block_finite(p, n, j);
        lemma_block_finite(q, n, j);
        assert(has_element(p[j]));
        assert(has_element(q[j]));
        assert(p[j].len() > 0) by {
            let y = choose|y: usize| p[j].contains(y);
            if p[j].len() == 0 {
                p[j].lemma_len0_is_empty();
            }
        }
        assert(q[j].len() > 0) by {
            let y = choose|y: usize| q[j].contains(y);
            if q[j].len() == 0 {
                q[j].lemma_len0_is_empty();
            }
        }
        let mp = lemma_least(p[j]);
        let mq = lemma_least(q[j]);
        assert(in_some_block(q, mp));
        let k = choose|k: int| 0 <= k < q.len() && #[trigger] q[k].contains(mp);
        assert(in_some_block(p, mq));
        let k2 = choose|k2: int| 0 <= k2 < p.len() && #[trigger] p[k2].contains(mq);
        assert(p[j] == q[k]);
        assert(p[k2] == q[j]);
        if k < j {
            assert(p[k] == q[k]);
            lemma_same_block(p, k, j, mp);
        }
        if k2 < j {
            assert(p[k2] == q[k2]);
            lemma_same_block(q, k2, j, mq);
        }
        if k > j {
            // q[j] comes first in q: its least element is below mp
            assert(has_smaller(q[j], mp));
            let y = choose|y: usize| q[j].contains(y) && y < mp;
            if k2 > j {
                assert(has_smaller(p[j], mq));
                let y2 = choose|y2: usize| p[j].contains(y2) && y2 < mq;
                assert(p[k2].contains(y));
                assert(mq <= y);
            } else {
                assert(k2 == j);
                assert(q[j] == q[k]);
                lemma_same_block(q, j, k, mp);
            }
        }
    }
}

/// The Kreweras complement is one-to-one on non-crossing partitions of {1, ..., n} listed
/// in increasing order of least elements.
pub proof fn lemma_kreweras_injective(p: Seq<Set<usize>>, q: Seq<Set<usize>>, n: nat)
    requires
        nc_pre(p, n),
        nc_pre(q, n),
        blocks_in_order(p),
        blocks_in_order(q),
        relative_complement(p, one_block_blocks(n), n) == relative_complement(q, one_block_blocks(n), n),
    ensures
        p == q,
{
    // the same gaps are linked, so the same intervals are unions of blocks
    assert forall|s: int, t: int| 0 <= s < t <= n implies (closed_between(p, s, t) <==> closed_between(q, s, t)) by {
        if s >= 1 {
            lemma_kr_linked_iff(p, n, s as usize, t as usize);
            lemma_kr_linked_iff(q, n, s as usize, t as usize);
        } else {
            lemma_closed_from_zero(p, n, t);
            lemma_closed_from_zero(q, n, t);
            lemma_kr_linked_iff(p, n, t as usize, n as usize);
            lemma_kr_linked_iff(q, n, t as usize, n as usize);
        }
    }
    assert forall|a: usize, b: usize| 1 <= a <= n && 1 <= b <= n implies (#[trigger] same_block(p, a, b)
        <==> #[trigger] same_block(q, a, b)) by {
        if !same_block(p, a, b) && same_block(q, a, b) {
            let st = lemma_separated(p, n, a, b);
            assert(closed_between(q, st.0, st.1));
            let k = choose|k: int| 0 <= k < q.len() && #[trigger] q[k].contains(a) && q[k].contains(b);
            if st.0 < a && a <= st.1 {
                assert(st.0 < b <= st.1);
            } else {
                assert(!(st.0 < b && b <= st.1));
            }
        }
        if same_block(p, a, b) && !same_block(q, a, b) {
            let st = lemma_separated(q, n, a, b);
            assert(closed_between(p, st.0, st.1));
            let k = choose|k: int| 0 <= k < p.len() && #[trigger] p[k].contains(a) && p[k].contains(b);
            if st.0 < a && a <= st.1 {
                assert(st.0 < b <= st.1);
            } else {
                assert(!(st.0 < b && b <= st.1));
            }
        }
    }
    lemma_same_blocks_equal(p, q, n);
}

/// (-1)^e.
pub open spec fn parity_sign(e: int) -> int {
    if e % 2 == 0 {
        1
    } else {
        -1
    }
}

/// (-1)^(a + b) = (-1)^a (-1)^b.
proof fn lemma_parity_add(a: int, b: int)
    ensures
        parity_sign(a + b) == parity_sign(a) * parity_sign(b),
{
    assert((a + b) % 2 == (a % 2 + b % 2) % 2) by (nonlinear_arith);
}

/// The product of (-1)^(|B|-1) C_(|B|-1) over nonempty blocks has the sign
/// (-1)^(Σ (|B| - 1)).
pub proof fn lemma_product_sign(bs: Seq<Set<usize>>)
    requires
        forall|j: int| 0 <= j < bs.len() ==> (#[trigger] bs[j]).len() >= 1,
    ensures
        moebius_product(bs) * parity_sign(total_len(bs) - bs.len()) > 0,
    decreases bs.len(),
{
    if bs.len() == 0 {
    } else {
        let d = bs.drop_last();
        assert forall|j: int| 0 <= j < d.len() implies (#[trigger] d[j]).len() >= 1 by {
            assert(d[j] == bs[j]);
        }
        lemma_product_sign(d);
        let sz = bs.last().len();
        assert(sz >= 1);
        let k = (sz - 1) as nat;
        lemma_catalan_binom(k);
        let c = catalan_number(k) as int;
        let b = block_moebius(sz);
        let p = moebius_product(d);
        let e = total_len(d) - d.len();
        assert(b * parity_sign(k as int) == c);
        assert(total_len(bs) - bs.len() == e + k);
        assert(parity_sign(e + k) == parity_sign(e) * parity_sign(k as int)) by {
            lemma_parity_add(e, k as int);
        }
        let pe = parity_sign(e);
        let pk = parity_sign(k as int);
        assert(p * pe > 0);
        assert(c > 0);
        assert((p * b) * (pe * pk) == (p * pe) * (b * pk)) by (nonlinear_arith);
        assert((p * pe) * c > 0) by (nonlinear_arith)
            requires
                p * pe > 0,
                c > 0,
        ;
        assert(moebius_product(bs) == p * b);
    }
}

/// The blocks of a partition of {1, ..., n} into nonempty blocks have at least one
/// element each.
pub(crate) proof fn lemma_blocks_nonempty(bs: Seq<Set<usize>>, n: nat)
    requires
        n <= usize::MAX,
        is_valid_partition(bs, n),
    ensures
        forall|j: int| 0 <= j < bs.len() ==> (#[trigger] bs[j]).len() >= 1,
{
    assert forall|j: int| 0 <= j < bs.len() implies (#[trigger] bs[j]).len() >= 1 by {
        lemma_block_finite(bs, n, j);
        assert(has_element(bs[j]));
        let y = choose|y: usize| bs[j].contains(y);
        if bs[j].len() == 0 {
            bs[j].lemma_len0_is_empty();
        }
    }
}

/// For non-crossing π, K(π) is a partition of {1, ..., n} into nonempty blocks.
pub proof fn lemma_kr_valid(pi: Seq<Set<usize>>, n: nat)
    requires
        nc_pre(pi, n),
    ensures
        is_valid_partition(relative_complement(pi, one_block_blocks(n), n), n),
{
    let r = relative_complement(pi, one_block_blocks(n), n);
    lemma_kr_blocks_are_classes(pi, n);
    lemma_kr_non_crossing(pi, n);
    assert forall|x: usize| 1 <= x <= n implies #[trigger] in_some_block(r, x) by {
        lemma_kr_covers(pi, n, x);
    }
}

} // verus!
