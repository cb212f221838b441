//! Non-crossing partitions of {1, ..., n}.
//!
//! A partition is non-crossing when no two of its blocks interleave: there are
//! no a < b < c < d with a, c in one block and b, d in another.

use std::collections::BTreeSet;
use vstd::prelude::*;
use crate::enumeration::{
    completions, extensions_upto, lemma_enumeration_exact, nc_list, partition_sets,
};
use crate::numbers::{catalan_number, lemma_catalan_binom, lemma_catalan_step};
use crate::sets::{sets_equal, sorted_elements, strictly_increasing};
use crate::kreweras::parity_sign;
use crate::complement::{is_valid_partition, relative_complement, relative_complement_blocks};
use vstd::std_specs::cmp::PartialEqSpecImpl;

verus! {

/// Some a1 < b1 < a2 < b2 with a1, a2 in `a` and b1, b2 in `b`.
pub open spec fn interleaves(a: Set<usize>, b: Set<usize>) -> bool {
    exists|a1: usize, b1: usize, a2: usize, b2: usize|
        #![trigger a.contains(a1), b.contains(b1), a.contains(a2), b.contains(b2)]
        a.contains(a1) && b.contains(b1) && a.contains(a2) && b.contains(b2) && a1 < b1 && b1 < a2
            && a2 < b2
}

/// Two blocks cross when one interleaves the other.
pub open spec fn blocks_cross_spec(a: Set<usize>, b: Set<usize>) -> bool {
    interleaves(a, b) || interleaves(b, a)
}

/// No two distinct blocks of the sequence cross.
pub open spec fn non_crossing(blocks: Seq<Set<usize>>) -> bool {
    forall|i: int, j: int|
        0 <= i < j < blocks.len() ==> !#[trigger] blocks_cross_spec(blocks[i], blocks[j])
}

/// `x` lies in some block.
pub open spec fn in_some_block(blocks: Seq<Set<usize>>, x: usize) -> bool {
    exists|i: int| 0 <= i < blocks.len() && #[trigger] blocks[i].contains(x)
}

/// The blocks are pairwise disjoint and their union is exactly {1, ..., n}.
/// (Nonemptiness of the blocks is asked separately, by `is_valid_partition`.)
pub open spec fn is_partition_of(blocks: Seq<Set<usize>>, n: nat) -> bool {
    &&& forall|i: int, j: int|
        0 <= i < j < blocks.len() ==> (#[trigger] blocks[i]).disjoint(#[trigger] blocks[j])
    &&& forall|i: int, x: usize|
        0 <= i < blocks.len() && #[trigger] blocks[i].contains(x) ==> 1 <= x <= n
    &&& forall|x: usize| 1 <= x <= n ==> #[trigger] in_some_block(blocks, x)
}

/// A non-crossing partition of {1, ..., n}.
pub open spec fn is_nc_partition(blocks: Seq<Set<usize>>, n: nat) -> bool {
    is_partition_of(blocks, n) && non_crossing(blocks)
}

/// The set has an element.
pub open spec fn has_element(s: Set<usize>) -> bool {
    exists|x: usize| s.contains(x)
}

/// The set has an element below `y`.
pub open spec fn has_smaller(s: Set<usize>, y: usize) -> bool {
    exists|x: usize| s.contains(x) && x < y
}

/// Every block is nonempty and the blocks are listed in increasing order of their least elements.
pub open spec fn blocks_in_order(blocks: Seq<Set<usize>>) -> bool {
    &&& forall|j: int| 0 <= j < blocks.len() ==> #[trigger] has_element(blocks[j])
    &&& forall|i: int, j: int, y: usize|
        0 <= i < j < blocks.len() && #[trigger] blocks[j].contains(y) ==> #[trigger] has_smaller(
            blocks[i],
            y,
        )
}

/// The abstract contents of a sequence of `BTreeSet`s.
pub open spec fn set_views(blocks: Seq<BTreeSet<usize>>) -> Seq<Set<usize>> {
    blocks.map_values(|b: BTreeSet<usize>| b@)
}

/// Index pattern av[p] < bv[r] < av[q] < bv[s], or the mirror, with p < q and r < s.
spec fn index_pattern(av: Seq<usize>, bv: Seq<usize>, p: int, q: int, r: int, s: int) -> bool {
    &&& 0 <= p < q < av.len()
    &&& 0 <= r < s < bv.len()
    &&& ((av[p] < bv[r] && bv[r] < av[q] && av[q] < bv[s]) || (bv[r] < av[p] && av[p] < bv[s]
        && bv[s] < av[q]))
}

/// On sorted element lists, an index pattern exists exactly when the sets cross.
proof fn lemma_index_pattern_iff_cross(av: Seq<usize>, bv: Seq<usize>)
    requires
        strictly_increasing(av),
        strictly_increasing(bv),
    ensures
        (exists|p: int, q: int, r: int, s: int| #[trigger] index_pattern(av, bv, p, q, r, s))
            <==> blocks_cross_spec(av.to_set(), bv.to_set()),
{
    let a = av.to_set();
    let b = bv.to_set();
    if exists|p: int, q: int, r: int, s: int| #[trigger] index_pattern(av, bv, p, q, r, s) {
        let (p, q, r, s) = choose|p: int, q: int, r: int, s: int|
            #[trigger] index_pattern(av, bv, p, q, r, s);
        assert(a.contains(av[p]) && a.contains(av[q]) && b.contains(bv[r]) && b.contains(bv[s]));
        if av[p] < bv[r] {
            assert(interleaves(a, b));
        } else {
            assert(interleaves(b, a));
        }
    }
    if interleaves(a, b) {
        let (a1, b1, a2, b2) = choose|a1: usize, b1: usize, a2: usize, b2: usize|
            #![trigger a.contains(a1), b.contains(b1), a.contains(a2), b.contains(b2)]
            a.contains(a1) && b.contains(b1) && a.contains(a2) && b.contains(b2) && a1 < b1 && b1
                < a2 && a2 < b2;
        let p = av.index_of(a1);
        let q = av.index_of(a2);
        let r = bv.index_of(b1);
        let s = bv.index_of(b2);
        assert(index_pattern(av, bv, p, q, r, s));
    }
    if interleaves(b, a) {
        let (b1, a1, b2, a2) = choose|b1: usize, a1: usize, b2: usize, a2: usize|
            #![trigger b.contains(b1), a.contains(a1), b.contains(b2), a.contains(a2)]
            b.contains(b1) && a.contains(a1) && b.contains(b2) && a.contains(a2) && b1 < a1 && a1
                < b2 && b2 < a2;
        let p = av.index_of(a1);
        let q = av.index_of(a2);
        let r = bv.index_of(b1);
        let s = bv.index_of(b2);
        assert(index_pattern(av, bv, p, q, r, s));
    }
}



/// Sum of the sizes of the blocks.
pub open spec fn total_len(blocks: Seq<Set<usize>>) -> nat
    decreases blocks.len(),
{
    if blocks.len() == 0 {
        0
    } else {
        total_len(blocks.drop_last()) + blocks.last().len()
    }
}

/// The integers lo..=hi, as a set.
pub open spec fn interval(lo: int, hi: int) -> Set<usize> {
    Set::new(|x: usize| lo <= x <= hi)
}

/// (-1)^(k) C_k for a block of size k + 1.
pub open spec fn block_moebius(size: nat) -> int {
    let k = (size - 1) as nat;
    if k % 2 == 0 {
        catalan_number(k) as int
    } else {
        -(catalan_number(k) as int)
    }
}

/// μ(0_n, π) = ∏_{B ∈ π} (-1)^{|B|-1} C_{|B|-1}, multiplied block by block in order.
pub open spec fn moebius_product(blocks: Seq<Set<usize>>) -> int
    decreases blocks.len(),
{
    if blocks.len() == 0 {
        1
    } else {
        moebius_product(blocks.drop_last()) * block_moebius(blocks.last().len())
    }
}

/// The running products of `moebius_from_bottom` fit in an `i64`, and every block is nonempty
/// with a Catalan factor that a `usize` and an `i64` hold.
pub open spec fn moebius_from_bottom_fits(blocks: Seq<Set<usize>>) -> bool {
    &&& forall|j: int|
        0 <= j < blocks.len() ==> #[trigger] blocks[j].len() >= 1 && catalan_fits(
            (blocks[j].len() - 1) as nat,
        ) && catalan_number((blocks[j].len() - 1) as nat) <= i64::MAX
    &&& forall|i: int|
        0 <= i <= blocks.len() ==> i64::MIN <= #[trigger] moebius_product(blocks.take(i))
            <= i64::MAX
}

/// The intermediate products of the Catalan loop fit in a `usize`.
pub open spec fn catalan_fits(n: nat) -> bool {
    forall|i: nat| i < n ==> #[trigger] catalan_number(i) * (2 * (2 * i + 1)) <= usize::MAX
}

/// Compute the n-th Catalan number C_n = (2n)! / (n! * (n+1)!)
pub fn catalan(n: usize) -> (r: usize)
    requires
        catalan_fits(n as nat),
    ensures
        r == catalan_number(n as nat),
{
    proof {
        lemma_catalan_binom(0);
        assert(catalan_number(0) == 1) by {
            assert(crate::numbers::binom(0, 0) == 1);
        }
    }
    if n == 0 {
        return 1;
    }
    let mut result: usize = 1;
    let mut i: usize = 0;
    while i < n
        invariant
            i <= n,
            catalan_fits(n as nat),
            result == catalan_number(i as nat),
        decreases n - i,
    {
        proof {
            lemma_catalan_step(i as nat);
            lemma_catalan_binom(i as nat);
            assert(catalan_number(i as nat) * (2 * (2 * i + 1)) <= usize::MAX);
            assert(2 * (2 * i + 1) <= catalan_number(i as nat) * (2 * (2 * i + 1))) by (nonlinear_arith)
                requires
                    catalan_number(i as nat) >= 1,
            ;
            let c1 = catalan_number((i + 1) as nat);
            assert(result * (2 * (2 * i + 1)) == c1 * (i + 2)) by (nonlinear_arith)
                requires
                    (i + 2) * c1 == 2 * (2 * i + 1) * catalan_number(i as nat),
                    result == catalan_number(i as nat),
            ;
            vstd::arithmetic::div_mod::lemma_div_by_multiple(c1 as int, (i + 2) as int);
        }
        result = result * (2 * (2 * i + 1)) / (i + 2);
        i = i + 1;
    }
    result
}

/// Whether `catalan(n)` can compute without overflow.
pub fn catalan_in_range(n: usize) -> (r: bool)
    ensures
        r == catalan_fits(n as nat),
{
    let mut result: usize = 1;
    let mut i: usize = 0;
    proof {
        lemma_catalan_binom(0);
        assert(catalan_number(0) == 1) by {
            assert(crate::numbers::binom(0, 0) == 1);
        }
    }
    while i < n
        invariant
            i <= n,
            result == catalan_number(i as nat),
            forall|j: nat| j < i ==> #[trigger] catalan_number(j) * (2 * (2 * j + 1)) <= usize::MAX,
        decreases n - i,
    {
        proof {
            lemma_catalan_binom(i as nat);
        }
        if i > (usize::MAX - 2) / 4 {
            proof {
                assert(catalan_number(i as nat) * (2 * (2 * i + 1)) >= 2 * (2 * i + 1)) by (nonlinear_arith)
                    requires
                        catalan_number(i as nat) >= 1,
                ;
            }
            return false;
        }
        let factor: usize = 2 * (2 * i + 1);
        let prod = result.checked_mul(factor);
        match prod {
            None => {
                return false;
            },
            Some(p) => {
                proof {
                    lemma_catalan_step(i as nat);
                    let c1 = catalan_number((i + 1) as nat);
                    assert(p == c1 * (i + 2)) by (nonlinear_arith)
                        requires
                            (i + 2) * c1 == 2 * (2 * i + 1) * catalan_number(i as nat),
                            result == catalan_number(i as nat),
                            p == result * factor,
                            factor == 2 * (2 * i + 1),
                    ;
                    vstd::arithmetic::div_mod::lemma_div_by_multiple(c1 as int, (i + 2) as int);
                }
                result = p / (i + 2);
            },
        }
        i = i + 1;
    }
    true
}

/// Count NC partitions of {1,...,n} = C_n (Catalan number).
pub fn nc_partition_count(n: usize) -> (r: usize)
    requires
        catalan_fits(n as nat),
    ensures
        r == catalan_number(n as nat),
{
    catalan(n)
}

impl PartialEq for NCPartition {
    fn eq(&self, other: &Self) -> (r: bool) {
        self.same_partition(other)
    }
}

impl PartialEqSpecImpl for NCPartition {
    open spec fn obeys_eq_spec() -> bool {
        true
    }

    open spec fn eq_spec(&self, other: &Self) -> bool {
        self@ == other@ && self.size() == other.size()
    }
}

impl Eq for NCPartition {
}

/// The blocks {1}, {2}, ..., {n}.
pub open spec fn finest_blocks(n: nat) -> Seq<Set<usize>> {
    Seq::new(n, |j: int| set![(j + 1) as usize])
}

/// Every block of `fine` lies inside some block of `coarse`.
pub open spec fn refines(fine: Seq<Set<usize>>, coarse: Seq<Set<usize>>) -> bool {
    forall|i: int| 0 <= i < fine.len() ==> #[trigger] inside_some_block(fine[i], coarse)
}

/// `s` lies inside some block.
pub open spec fn inside_some_block(s: Set<usize>, blocks: Seq<Set<usize>>) -> bool {
    exists|j: int| 0 <= j < blocks.len() && s.subset_of(#[trigger] blocks[j])
}

/// The Möbius function of the non-crossing lattice: for π ≤ σ, μ(π, σ) is the product of
/// (-1)^(|C|-1) C_(|C|-1) over the blocks C of the relative Kreweras complement K_σ(π);
/// it is 0 when π does not refine σ.
pub open spec fn moebius_spec(from: NCPartition, to: NCPartition) -> int {
    if refines(from@, to@) {
        moebius_product(relative_complement(from@, to@, from.size()))
    } else {
        0
    }
}

/// The element lists held by a list of vectors.
pub open spec fn list_views(p: Seq<Vec<usize>>) -> Seq<Seq<usize>> {
    p.map_values(|b: Vec<usize>| b@)
}

/// The blocks of a list of element vectors, as sets.
fn block_sets_of(partition: &Vec<Vec<usize>>) -> (r: Vec<BTreeSet<usize>>)
    ensures
        set_views(r@) == partition_sets(list_views(partition@)),
{
    let len = partition.len();
    let mut r: Vec<BTreeSet<usize>> = Vec::new();
    let mut i: usize = 0;
    while i < len
        invariant
            len == partition@.len(),
            i <= len,
            r@.len() == i,
            forall|j: int| 0 <= j < i ==> #[trigger] r@[j]@ == partition@[j]@.to_set(),
        decreases len - i,
    {
        let b = &partition[i];
        let blen = b.len();
        let mut s: BTreeSet<usize> = BTreeSet::new();
        let mut k: usize = 0;
        while k < blen
            invariant
                blen == b@.len(),
                k <= blen,
                s@ == b@.take(k as int).to_set(),
            decreases blen - k,
        {
            proof {
                assert(b@.take(k + 1) == b@.take(k as int).push(b@[k as int]));
                b@.take(k as int).lemma_push_to_set_commute(b@[k as int]);
            }
            s.insert(b[k]);
            k = k + 1;
        }
        proof {
            assert(b@.take(blen as int) == b@);
        }
        r.push(s);
        i = i + 1;
    }
    proof {
        assert(set_views(r@) =~= partition_sets(list_views(partition@)));
    }
    r
}

/// What a list of partitions holds: the blocks and the size of each.
pub open spec fn outputs(rs: Seq<NCPartition>) -> Seq<(Seq<Set<usize>>, nat)> {
    rs.map_values(|r: NCPartition| (r@, r.size()))
}

/// The partitions of {1, ..., n} with the given element lists as blocks.
pub open spec fn expected_outputs(cs: Seq<Seq<Seq<usize>>>, n: nat) -> Seq<(Seq<Set<usize>>, nat)> {
    cs.map_values(|c: Seq<Seq<usize>>| (partition_sets(c), n))
}

proof fn lemma_outputs_push(rs: Seq<NCPartition>, r: NCPartition)
    ensures
        outputs(rs.push(r)) == outputs(rs).push((r@, r.size())),
{
    assert(outputs(rs.push(r)) =~= outputs(rs).push((r@, r.size())));
}

proof fn lemma_expected_outputs_add(a: Seq<Seq<Seq<usize>>>, b: Seq<Seq<Seq<usize>>>, n: nat)
    ensures
        expected_outputs(a + b, n) == expected_outputs(a, n) + expected_outputs(b, n),
{
    assert(expected_outputs(a + b, n) =~= expected_outputs(a, n) + expected_outputs(b, n));
}

/// {1, ..., m} has m elements.
pub proof fn lemma_interval_len(m: int)
    requires
        0 <= m <= usize::MAX,
    ensures
        interval(1, m).finite(),
        interval(1, m).len() == m,
    decreases m,
{
    if m == 0 {
        assert(interval(1, 0) =~= Set::<usize>::empty());
    } else {
        lemma_interval_len(m - 1);
        assert(interval(1, m) =~= interval(1, m - 1).insert(m as usize));
    }
}

/// Pairwise disjoint finite blocks: the first `i` of them hold `total_len` elements together.
proof fn lemma_union_len(blocks: Seq<Set<usize>>, i: int)
    requires
        0 <= i <= blocks.len(),
        forall|p: int| 0 <= p < blocks.len() ==> (#[trigger] blocks[p]).finite(),
        forall|p: int, q: int|
            0 <= p < q < blocks.len() ==> (#[trigger] blocks[p]).disjoint(#[trigger] blocks[q]),
    ensures
        elements_before(blocks, i).finite(),
        elements_before(blocks, i).len() == total_len(blocks.take(i)),
    decreases i,
{
    if i == 0 {
        assert(elements_before(blocks, 0) =~= Set::<usize>::empty());
        assert(blocks.take(0) =~= Seq::<Set<usize>>::empty());
    } else {
        lemma_union_len(blocks, i - 1);
        let prev = elements_before(blocks, i - 1);
        assert(elements_before(blocks, i) =~= prev.union(blocks[i - 1]));
        assert(prev.disjoint(blocks[i - 1])) by {
            assert forall|x: usize| prev.contains(x) implies !blocks[i - 1].contains(x) by {
                let k = choose|k: int| 0 <= k < i - 1 && #[trigger] blocks[k].contains(x);
                assert(blocks[k].disjoint(blocks[i - 1]));
            }
        }
        vstd::set_lib::lemma_set_disjoint_lens(prev, blocks[i - 1]);
        assert(blocks.take(i).drop_last() =~= blocks.take(i - 1));
        assert(blocks.take(i).last() == blocks[i - 1]);
    }
}

/// The block sizes of a partition of {1, ..., n} add up to n.
pub proof fn lemma_partition_total_len(blocks: Seq<Set<usize>>, n: nat)
    requires
        is_partition_of(blocks, n),
        n <= usize::MAX,
    ensures
        total_len(blocks) == n,
        forall|p: int| 0 <= p < blocks.len() ==> (#[trigger] blocks[p]).finite(),
{
    lemma_interval_len(n as int);
    assert forall|p: int| 0 <= p < blocks.len() implies (#[trigger] blocks[p]).finite() by {
        assert(blocks[p].subset_of(interval(1, n as int)));
        vstd::set_lib::lemma_set_subset_finite(interval(1, n as int), blocks[p]);
    }
    lemma_union_len(blocks, blocks.len() as int);
    assert(elements_before(blocks, blocks.len() as int) =~= interval(1, n as int)) by {
        assert forall|x: usize| #[trigger] interval(1, n as int).contains(x) implies elements_before(
            blocks,
            blocks.len() as int,
        ).contains(x) by {
            assert(in_some_block(blocks, x));
        }
    }
    assert(blocks.take(blocks.len() as int) =~= blocks);
}

/// The elements of the first `i` blocks.
pub open spec fn elements_before(blocks: Seq<Set<usize>>, i: int) -> Set<usize> {
    Set::new(|x: usize| exists|k: int| 0 <= k < i && #[trigger] blocks[k].contains(x))
}

/// Element `x` of block `i` is already in an earlier block, or lies outside {1, ..., n}.
pub open spec fn offends(blocks: Seq<Set<usize>>, n: nat, i: int, x: usize) -> bool {
    &&& blocks[i].contains(x)
    &&& (elements_before(blocks, i).contains(x) || x == 0 || x > n)
}

/// Element `x` of block `i` is the first offending element when the blocks are read in
/// order, each from its smallest element up.
pub open spec fn is_first_offence(blocks: Seq<Set<usize>>, n: nat, i: int, x: usize) -> bool {
    &&& 0 <= i < blocks.len()
    &&& offends(blocks, n, i, x)
    &&& forall|k: int, y: usize| 0 <= k < i ==> !#[trigger] offends(blocks, n, k, y)
    &&& forall|y: usize| y < x ==> !#[trigger] offends(blocks, n, i, y)
}

/// There is at most one first offending element.
pub proof fn lemma_first_offence_unique(
    blocks: Seq<Set<usize>>,
    n: nat,
    i1: int,
    x1: usize,
    i2: int,
    x2: usize,
)
    requires
        is_first_offence(blocks, n, i1, x1),
        is_first_offence(blocks, n, i2, x2),
    ensures
        i1 == i2 && x1 == x2,
{
    if i1 < i2 {
        assert(offends(blocks, n, i1, x1));
    } else if i2 < i1 {
        assert(offends(blocks, n, i2, x2));
    } else if x1 < x2 {
        assert(offends(blocks, n, i1, x1));
    } else if x2 < x1 {
        assert(offends(blocks, n, i2, x2));
    }
}

/// While reading block `i` in increasing order, the element at position `j` that offends
/// is the first offending element.
proof fn lemma_first_offence(bs: Seq<Set<usize>>, n: nat, i: int, v: Seq<usize>, j: int)
    requires
        0 <= i < bs.len(),
        0 <= j < v.len(),
        v.to_set() == bs[i],
        strictly_increasing(v),
        forall|p: int, q: int| 0 <= p < q < i ==> (#[trigger] bs[p]).disjoint(#[trigger] bs[q]),
        forall|p: int, x: usize| 0 <= p < i && #[trigger] bs[p].contains(x) ==> 1 <= x <= n,
        forall|k: int| 0 <= k < j ==> !elements_before(bs, i).contains(#[trigger] v[k]),
        forall|k: int| 0 <= k < j ==> 1 <= #[trigger] v[k] <= n,
        offends(bs, n, i, v[j]),
    ensures
        is_first_offence(bs, n, i, v[j]),
{
    assert forall|k: int, y: usize| 0 <= k < i implies !#[trigger] offends(bs, n, k, y) by {
        if bs[k].contains(y) && elements_before(bs, k).contains(y) {
            let m = choose|m: int| 0 <= m < k && #[trigger] bs[m].contains(y);
            assert(bs[m].disjoint(bs[k]));
        }
    }
    assert forall|y: usize| y < v[j] implies !#[trigger] offends(bs, n, i, y) by {
        if bs[i].contains(y) {
            assert(v.to_set().contains(y));
            let k = v.index_of(y);
            assert(v[k] == y);
            assert(k < j);
        }
    }
}

/// Why a list of blocks is not a non-crossing partition.
#[derive(Debug, Clone, Copy, PartialEq, Eq)]
pub enum PartitionError {
    /// The block at this index is empty.
    EmptyBlock(usize),
    /// The element appears in more than one block.
    DuplicateElement(usize),
    /// The element lies outside {1, ..., size}, where size is the total number of elements.
    OutOfRange { element: usize, size: usize },
    /// The element of {1, ..., size} lies in no block.
    MissingElement(usize),
    /// Two blocks cross.
    Crossing,
}

/// A non-crossing partition of {1, ..., n}.
#[derive(Debug, Clone, Hash)]
pub struct NCPartition {
    /// Blocks, each a set of elements.
    blocks: Vec<BTreeSet<usize>>,
    /// Size n of the partitioned set.
    n: usize,
}

impl View for NCPartition {
    type V = Seq<Set<usize>>;

    /// The blocks, in order, as sets.
    closed spec fn view(&self) -> Seq<Set<usize>> {
        set_views(self.blocks@)
    }
}

impl NCPartition {
    /// The size n of the partitioned set {1, ..., n}.
    pub closed spec fn size(&self) -> nat {
        self.n as nat
    }

    /// Check if blocks form a non-crossing partition.
    fn is_non_crossing(blocks: &[BTreeSet<usize>]) -> (r: bool)
        ensures
            r == non_crossing(set_views(blocks@)),
    {
        let ghost bs = set_views(blocks@);
        let len = blocks.len();
        let mut i: usize = 0;
        while i < len
            invariant
                len == blocks@.len(),
                bs == set_views(blocks@),
                i <= len,
                forall|p: int, q: int|
                    0 <= p < i && p < q < len ==> !#[trigger] blocks_cross_spec(bs[p], bs[q]),
            decreases len - i,
        {
            let mut j: usize = i + 1;
            while j < len
                invariant
                    len == blocks@.len(),
                    bs == set_views(blocks@),
                    i < len,
                    i < j <= len,
                    forall|p: int, q: int|
                        0 <= p < i && p < q < len ==> !#[trigger] blocks_cross_spec(bs[p], bs[q]),
                    forall|q: int| i < q < j ==> !#[trigger] blocks_cross_spec(bs[i as int], bs[q]),
                decreases len - j,
            {
                if Self::blocks_cross(&blocks[i], &blocks[j]) {
                    proof {
                        assert(bs[i as int] == blocks@[i as int]@);
                        assert(bs[j as int] == blocks@[j as int]@);
                    }
                    return false;
                }
                j = j + 1;
            }
            i = i + 1;
        }
        true
    }

    /// Whether two blocks cross.
    #[verifier::loop_isolation(false)]
    fn blocks_cross(a: &BTreeSet<usize>, b: &BTreeSet<usize>) -> (r: bool)
        ensures
            r == blocks_cross_spec(a@, b@),
    {
        let a_vec = sorted_elements(a);
        let b_vec = sorted_elements(b);
        proof {
            lemma_index_pattern_iff_cross(a_vec@, b_vec@);
        }
        let la = a_vec.len();
        let lb = b_vec.len();
        let mut ai: usize = 0;
        while ai < la
            invariant
                la == a_vec@.len(),
                lb == b_vec@.len(),
                ai <= la,
                forall|p: int, q: int, r: int, s: int|
                    p < ai ==> !#[trigger] index_pattern(a_vec@, b_vec@, p, q, r, s),
            decreases la - ai,
        {
            let mut aj: usize = ai + 1;
            while aj < la
                invariant
                    la == a_vec@.len(),
                    lb == b_vec@.len(),
                    ai < la,
                    ai < aj <= la,
                    forall|p: int, q: int, r: int, s: int|
                        p < ai ==> !#[trigger] index_pattern(a_vec@, b_vec@, p, q, r, s),
                    forall|q: int, r: int, s: int|
                        q < aj ==> !#[trigger] index_pattern(a_vec@, b_vec@, ai as int, q, r, s),
                decreases la - aj,
            {
                let mut bi: usize = 0;
                while bi < lb
                    invariant
                        la == a_vec@.len(),
                        lb == b_vec@.len(),
                        ai < aj < la,
                        bi <= lb,
                        forall|p: int, q: int, r: int, s: int|
                            p < ai ==> !#[trigger] index_pattern(a_vec@, b_vec@, p, q, r, s),
                        forall|q: int, r: int, s: int|
                            q < aj ==> !#[trigger] index_pattern(a_vec@, b_vec@, ai as int, q, r, s),
                        forall|r: int, s: int|
                            r < bi ==> !#[trigger] index_pattern(
                                a_vec@,
                                b_vec@,
                                ai as int,
                                aj as int,
                                r,
                                s,
                            ),
                    decreases lb - bi,
                {
                    let mut bj: usize = bi + 1;
                    while bj < lb
                        invariant
                            la == a_vec@.len(),
                            lb == b_vec@.len(),
                            ai < aj < la,
                            bi < lb,
                            bi < bj <= lb,
                            forall|p: int, q: int, r: int, s: int|
                                p < ai ==> !#[trigger] index_pattern(a_vec@, b_vec@, p, q, r, s),
                            forall|q: int, r: int, s: int|
                                q < aj ==> !#[trigger] index_pattern(
                                    a_vec@,
                                    b_vec@,
                                    ai as int,
                                    q,
                                    r,
                                    s,
                                ),
                            forall|r: int, s: int|
                                r < bi ==> !#[trigger] index_pattern(
                                    a_vec@,
                                    b_vec@,
                                    ai as int,
                                    aj as int,
                                    r,
                                    s,
                                ),
                            forall|s: int|
                                s < bj ==> !#[trigger] index_pattern(
                                    a_vec@,
                                    b_vec@,
                                    ai as int,
                                    aj as int,
                                    bi as int,
                                    s,
                                ),
                        decreases lb - bj,
                    {
                        let a1 = a_vec[ai];
                        let a2 = a_vec[aj];
                        let b1 = b_vec[bi];
                        let b2 = b_vec[bj];
                        if a1 < b1 && b1 < a2 && a2 < b2 {
                            assert(index_pattern(
                                a_vec@,
                                b_vec@,
                                ai as int,
                                aj as int,
                                bi as int,
                                bj as int,
                            ));
                            return true;
                        }
                        if b1 < a1 && a1 < b2 && b2 < a2 {
                            assert(index_pattern(
                                a_vec@,
                                b_vec@,
                                ai as int,
                                aj as int,
                                bi as int,
                                bj as int,
                            ));
                            return true;
                        }
                        bj = bj + 1;
                    }
                    bi = bi + 1;
                }
                aj = aj + 1;
            }
            ai = ai + 1;
        }
        proof {
            assert(!exists|p: int, q: int, r: int, s: int| #[trigger] index_pattern(a_vec@, b_vec@, p, q, r, s));
        }
        false
    }

    /// Create a new NC partition from blocks. Validates the partition and the
    /// non-crossing property; n is the total number of elements.
    pub fn new(blocks: Vec<BTreeSet<usize>>) -> (r: Result<Self, PartitionError>)
        requires
            total_len(set_views(blocks@)) <= usize::MAX,
        ensures
            r is Ok <==> is_valid_partition(set_views(blocks@), total_len(set_views(blocks@)))
                && non_crossing(set_views(blocks@)),
            r matches Err(PartitionError::EmptyBlock(j)) ==> j < blocks@.len() && !has_element(
                set_views(blocks@)[j as int],
            ) && forall|k: int| 0 <= k < j ==> #[trigger] has_element(set_views(blocks@)[k]),
            (exists|j: int| 0 <= j < blocks@.len() && !#[trigger] has_element(set_views(blocks@)[j]))
                <==> (r matches Err(PartitionError::EmptyBlock(_))),
            r matches Ok(p) ==> p@ == set_views(blocks@) && p.size() == total_len(
                set_views(blocks@),
            ),
            (forall|j: int| 0 <= j < blocks@.len() ==> #[trigger] has_element(set_views(blocks@)[j]))
                ==> ((exists|i: int, x: usize|
                #[trigger] offends(set_views(blocks@), total_len(set_views(blocks@)), i, x) && 0
                    <= i < blocks@.len()) <==> (r matches Err(PartitionError::DuplicateElement(_))
                || r matches Err(PartitionError::OutOfRange { .. }))),
            r matches Err(PartitionError::DuplicateElement(x)) ==> exists|i: int|
                #[trigger] is_first_offence(
                    set_views(blocks@),
                    total_len(set_views(blocks@)),
                    i,
                    x,
                ) && elements_before(set_views(blocks@), i).contains(x),
            r matches Err(PartitionError::OutOfRange { element, size }) ==> size == total_len(
                set_views(blocks@),
            ) && exists|i: int|
                #[trigger] is_first_offence(set_views(blocks@), size as nat, i, element)
                    && !elements_before(set_views(blocks@), i).contains(element),
            !(r matches Err(PartitionError::MissingElement(_))),
            (r matches Err(PartitionError::Crossing)) <==> (is_valid_partition(
                set_views(blocks@),
                total_len(set_views(blocks@)),
            ) && !non_crossing(set_views(blocks@))),
    {
        let ghost bs = set_views(blocks@);
        let len = blocks.len();
        let mut i: usize = 0;
        while i < len
            invariant
                len == blocks@.len(),
                bs == set_views(blocks@),
                i <= len,
                forall|k: int| 0 <= k < i ==> #[trigger] has_element(bs[k]),
            decreases len - i,
        {
            if blocks[i].is_empty() {
                proof {
                    assert(bs[i as int] == blocks@[i as int]@);
                    assert(!has_element(bs[i as int]));
                }
                let res: Result<Self, PartitionError> = Err(PartitionError::EmptyBlock(i));
                assert(res matches Err(PartitionError::EmptyBlock(j)) && j == i);
                return res;
            }
            proof {
                assert(bs[i as int] == blocks@[i as int]@);
                assert(!(blocks@[i as int]@ =~= Set::<usize>::empty()));
                let x = choose|x: usize| !(blocks@[i as int]@.contains(x) == Set::<usize>::empty().contains(x));
                assert(bs[i as int].contains(x));
            }
            i = i + 1;
        }
        // n = total number of elements
        let mut n: usize = 0;
        let mut i: usize = 0;
        while i < len
            invariant
                len == blocks@.len(),
                bs == set_views(blocks@),
                forall|k: int| 0 <= k < blocks@.len() ==> #[trigger] has_element(bs[k]),
                i <= len,
                n == total_len(bs.take(i as int)),
                total_len(bs) <= usize::MAX,
            decreases len - i,
        {
            proof {
                assert(bs.take(i + 1).drop_last() == bs.take(i as int));
                lemma_total_len_prefix(bs, i + 1);
            }
            n = n + blocks[i].len();
            i = i + 1;
        }
        proof {
            assert(bs.take(len as int) == bs);
        }
        let mut all: BTreeSet<usize> = BTreeSet::new();
        let mut i: usize = 0;
        while i < len
            invariant
                len == blocks@.len(),
                bs == set_views(blocks@),
                forall|k: int| 0 <= k < blocks@.len() ==> #[trigger] has_element(bs[k]),
                n == total_len(bs),
                i <= len,
                all@ == elements_before(bs, i as int),
                forall|p: int, q: int|
                    0 <= p < q < i ==> (#[trigger] bs[p]).disjoint(#[trigger] bs[q]),
                forall|p: int, x: usize|
                    0 <= p < i && #[trigger] bs[p].contains(x) ==> 1 <= x <= n,
                forall|p: int| 0 <= p < i ==> (#[trigger] bs[p]).finite(),
            decreases len - i,
        {
            let v = sorted_elements(&blocks[i]);
            let vlen = v.len();
            let mut j: usize = 0;
            while j < vlen
                invariant
                    len == blocks@.len(),
                    bs == set_views(blocks@),
                    forall|k: int| 0 <= k < blocks@.len() ==> #[trigger] has_element(bs[k]),
                    n == total_len(bs),
                    i < len,
                    vlen == v@.len(),
                    v@.to_set() == bs[i as int],
                    strictly_increasing(v@),
                    j <= vlen,
                    all@ == elements_before(bs, i as int).union(v@.take(j as int).to_set()),
                    forall|k: int|
                        0 <= k < j ==> !elements_before(bs, i as int).contains(#[trigger] v@[k]),
                    forall|k: int| 0 <= k < j ==> 1 <= #[trigger] v@[k] <= n,
                    forall|p: int, q: int|
                        0 <= p < q < i ==> (#[trigger] bs[p]).disjoint(#[trigger] bs[q]),
                    forall|p: int, x: usize|
                        0 <= p < i && #[trigger] bs[p].contains(x) ==> 1 <= x <= n,
                    forall|p: int| 0 <= p < i ==> (#[trigger] bs[p]).finite(),
                    bs[i as int].finite(),
                decreases vlen - j,
            {
                let elem = v[j];
                proof {
                    assert(v@.to_set().contains(v@[j as int]));
                    assert forall|k: int| 0 <= k < j implies v@[k] != elem by {}
                    assert(!v@.take(j as int).to_set().contains(elem)) by {
                        if v@.take(j as int).to_set().contains(elem) {
                            let k = v@.take(j as int).index_of(elem);
                            assert(v@[k] == elem);
                        }
                    }
                }
                let ghost seen = all@;
                if !all.insert(elem) {
                    proof {
                        assert(elements_before(bs, i as int).contains(elem));
                        lemma_first_offence(bs, n as nat, i as int, v@, j as int);
                        assert(is_first_offence(bs, n as nat, i as int, elem));
                    }
                    let res: Result<Self, PartitionError> = Err(PartitionError::DuplicateElement(elem));
                    assert(res matches Err(PartitionError::DuplicateElement(x)) && x == elem);
                    return res;
                }
                if elem == 0 || elem > n {
                    proof {
                        assert(!seen.contains(elem));
                        assert(!elements_before(bs, i as int).contains(elem));
                        lemma_first_offence(bs, n as nat, i as int, v@, j as int);
                        assert(is_first_offence(bs, n as nat, i as int, elem));
                    }
                    let res: Result<Self, PartitionError> = Err(
                        PartitionError::OutOfRange { element: elem, size: n },
                    );
                    assert(res matches Err(PartitionError::OutOfRange { element, size })
                        && element == elem && size == n);
                    return res;
                }
                proof {
                    assert(v@.take(j + 1) == v@.take(j as int).push(elem));
                    v@.take(j as int).lemma_push_to_set_commute(elem);
                }
                j = j + 1;
            }
            proof {
                assert(v@.take(vlen as int) == v@);
                assert(elements_before(bs, i + 1) =~= elements_before(bs, i as int).union(
                    bs[i as int],
                ));
                assert forall|p: int, q: int| 0 <= p < q < i + 1 implies (#[trigger] bs[p]).disjoint(
                    #[trigger] bs[q],
                ) by {
                    if q == i {
                        assert forall|x: usize| bs[p].contains(x) implies !bs[q].contains(x) by {
                            if bs[q].contains(x) {
                                let k = v@.index_of(x);
                                assert(elements_before(bs, i as int).contains(x));
                            }
                        }
                    }
                }
                assert forall|p: int, x: usize|
                    0 <= p < i + 1 && #[trigger] bs[p].contains(x) implies 1 <= x <= n by {
                    if p == i {
                        let k = v@.index_of(x);
                        assert(1 <= v@[k] <= n);
                    }
                }
            }
            i = i + 1;
        }
        // Check completeness
        let mut x: usize = 0;
        while x < n
            invariant
                len == blocks@.len(),
                bs == set_views(blocks@),
                forall|k: int| 0 <= k < blocks@.len() ==> #[trigger] has_element(bs[k]),
                n == total_len(bs),
                all@ == elements_before(bs, len as int),
                x <= n,
                forall|y: usize| 1 <= y <= x ==> #[trigger] in_some_block(bs, y),
                forall|p: int, q: int|
                    0 <= p < q < len ==> (#[trigger] bs[p]).disjoint(#[trigger] bs[q]),
                forall|p: int, y: usize|
                    0 <= p < len && #[trigger] bs[p].contains(y) ==> 1 <= y <= n,
                forall|p: int| 0 <= p < len ==> (#[trigger] bs[p]).finite(),
            decreases n - x,
        {
            let e = x + 1;
            if !all.contains(&e) {
                proof {
                    // n distinct elements within {1, ..., n}: none can be missing
                    lemma_union_len(bs, len as int);
                    assert(bs.take(len as int) == bs);
                    lemma_interval_len(n as int);
                    assert(all@.subset_of(interval(1, n as int))) by {
                        assert forall|y: usize| all@.contains(y) implies interval(1, n as int).contains(y) by {
                            let k = choose|k: int| 0 <= k < len && #[trigger] bs[k].contains(y);
                        }
                    }
                    vstd::set_lib::lemma_subset_equality(all@, interval(1, n as int));
                    assert(interval(1, n as int).contains(e));
                }
                return Err(PartitionError::MissingElement(e));
            }
            proof {
                let k = choose|k: int| 0 <= k < len && #[trigger] bs[k].contains(e);
                assert(in_some_block(bs, e));
            }
            x = x + 1;
        }
        proof {
            assert(is_partition_of(bs, n as nat));
            assert forall|p: int, y: usize| 0 <= p < len implies !#[trigger] offends(
                bs,
                n as nat,
                p,
                y,
            ) by {
                if bs[p].contains(y) && elements_before(bs, p).contains(y) {
                    let m = choose|m: int| 0 <= m < p && #[trigger] bs[m].contains(y);
                    assert(bs[m].disjoint(bs[p]));
                }
            }
        }
        // Check non-crossing
        if !Self::is_non_crossing(blocks.as_slice()) {
            return Err(PartitionError::Crossing);
        }
        Ok(NCPartition { blocks, n })
    }

    /// Create an NC partition without validation, for blocks already known to be valid.
    pub fn new_unchecked(blocks: Vec<BTreeSet<usize>>, n: usize) -> (r: Self)
        ensures
            r@ == set_views(blocks@),
            r.size() == n,
    {
        NCPartition { blocks, n }
    }

    /// Number of blocks.
    pub fn num_blocks(&self) -> (r: usize)
        ensures
            r == self@.len(),
    {
        self.blocks.len()
    }

    /// Get blocks.
    pub fn blocks(&self) -> (r: &[BTreeSet<usize>])
        ensures
            set_views(r@) == self@,
    {
        self.blocks.as_slice()
    }

    /// Size n of the partitioned set.
    pub fn n(&self) -> (r: usize)
        ensures
            r == self.size(),
    {
        self.n
    }

    /// The trivial partition with one block {1,...,n}.
    pub fn one_block(n: usize) -> (r: Self)
        ensures
            r@ == seq![interval(1, n as int)],
            r.size() == n,
            is_nc_partition(r@, n as nat),
            n >= 1 ==> is_valid_partition(r@, n as nat),
    {
        let mut block: BTreeSet<usize> = BTreeSet::new();
        let mut i: usize = 0;
        while i < n
            invariant
                i <= n,
                block@ == interval(1, i as int),
            decreases n - i,
        {
            block.insert(i + 1);
            proof {
                assert(block@ =~= interval(1, i + 1));
            }
            i = i + 1;
        }
        let blocks = vec![block];
        let r = NCPartition { blocks, n };
        proof {
            assert(r@ =~= seq![interval(1, n as int)]);
            assert forall|x: usize| 1 <= x <= n implies #[trigger] in_some_block(r@, x) by {
                assert(r@[0].contains(x));
            }
            if n >= 1 {
                assert(r@[0].contains(1));
                assert(has_element(r@[0]));
            }
        }
        r
    }

    /// The finest partition {{1}, {2}, ..., {n}}.
    pub fn finest(n: usize) -> (r: Self)
        ensures
            r@.len() == n,
            forall|j: int| 0 <= j < n ==> #[trigger] r@[j] == set![(j + 1) as usize],
            r.size() == n,
            is_nc_partition(r@, n as nat),
            is_valid_partition(r@, n as nat),
    {
        let mut blocks: Vec<BTreeSet<usize>> = Vec::new();
        let mut i: usize = 0;
        while i < n
            invariant
                i <= n,
                blocks@.len() == i,
                forall|j: int| 0 <= j < i ==> #[trigger] blocks@[j]@ == set![(j + 1) as usize],
            decreases n - i,
        {
            let mut s: BTreeSet<usize> = BTreeSet::new();
            s.insert(i + 1);
            proof {
                assert(s@ =~= set![(i + 1) as usize]);
            }
            blocks.push(s);
            i = i + 1;
        }
        let r = NCPartition { blocks, n };
        proof {
            assert forall|x: usize| 1 <= x <= n implies #[trigger] in_some_block(r@, x) by {
                assert(r@[x - 1].contains(x));
            }
            assert forall|p: int, q: int| 0 <= p < q < r@.len() implies !#[trigger] blocks_cross_spec(
                r@[p],
                r@[q],
            ) by {
                assert(r@[p] == set![(p + 1) as usize]);
                assert(r@[q] == set![(q + 1) as usize]);
            }
            assert forall|j: int| 0 <= j < r@.len() implies #[trigger] has_element(r@[j]) by {
                assert(r@[j].contains((j + 1) as usize));
            }
        }
        r
    }

    /// The Kreweras complement K(π) of this partition π of {1, ..., n}: the relative
    /// complement K_{1_n}(π), the cycles of π⁻¹γ with γ = (1 2 ... n), listed in
    /// increasing order of their least elements.
    pub fn kreweras_complement(&self) -> (r: NCPartition)
        requires
            is_valid_partition(self@, self.size()),
            self.size() < usize::MAX,
        ensures
            r.size() == self.size(),
            r@ == relative_complement(self@, seq![interval(1, self.size() as int)], self.size()),
            is_valid_partition(r@, r.size()),
            self.size() >= 1 && self@ == seq![interval(1, self.size() as int)] ==> r@ == finest_blocks(
                self.size(),
            ),
            self.size() >= 1 && self@ == finest_blocks(self.size()) ==> r@ == seq![
                interval(1, self.size() as int),
            ],
            self.size() >= 1 && non_crossing(self@) ==> non_crossing(r@) && self@.len() + r@.len()
                == self.size() + 1,
    {
        let n = self.n;
        proof {
            if n >= 1 && non_crossing(self@) {
                crate::kreweras::lemma_kreweras_count(self@, n as nat);
            }
            if n >= 1 {
                crate::theorems::law_kreweras_of_one_block_is_finest(n as nat);
                crate::theorems::law_kreweras_of_finest_is_one_block(n as nat);
            }
        }
        if n == 0 {
            let r = NCPartition { blocks: Vec::new(), n: 0 };
            proof {
                assert(r@ =~= Seq::<Set<usize>>::empty());
                assert(relative_complement(self@, seq![interval(1, 0)], 0) == Seq::<Set<usize>>::empty());
            }
            return r;
        }
        let top = NCPartition::one_block(n);
        proof {
            let t = top@;
            assert(t[0].contains(1));
            assert(has_element(t[0]));
            assert forall|x: usize| 1 <= x <= n implies #[trigger] in_some_block(t, x) by {
                assert(t[0].contains(x));
            }
            assert(is_valid_partition(t, n as nat));
        }
        let blocks = relative_complement_blocks(self.blocks.as_slice(), top.blocks.as_slice(), n);
        NCPartition { blocks, n }
    }

    /// Whether every element of `a` lies in `b`.
    fn block_subset(a: &BTreeSet<usize>, b: &BTreeSet<usize>) -> (r: bool)
        ensures
            r == a@.subset_of(b@),
    {
        let v = sorted_elements(a);
        let len = v.len();
        let mut k: usize = 0;
        while k < len
            invariant
                len == v@.len(),
                v@.to_set() == a@,
                k <= len,
                forall|t: int| 0 <= t < k ==> b@.contains(#[trigger] v@[t]),
            decreases len - k,
        {
            if !b.contains(&v[k]) {
                proof {
                    assert(v@.to_set().contains(v@[k as int]));
                }
                return false;
            }
            k = k + 1;
        }
        proof {
            assert forall|x: usize| a@.contains(x) implies b@.contains(x) by {
                assert(v@.to_set().contains(x));
                let t = v@.index_of(x);
                assert(v@[t] == x);
            }
        }
        true
    }

    /// Whether every block of `fine` lies inside some block of `coarse`.
    fn refines_blocks(fine: &[BTreeSet<usize>], coarse: &[BTreeSet<usize>]) -> (r: bool)
        ensures
            r == refines(set_views(fine@), set_views(coarse@)),
    {
        let ghost f = set_views(fine@);
        let ghost c = set_views(coarse@);
        let flen = fine.len();
        let clen = coarse.len();
        let mut i: usize = 0;
        while i < flen
            invariant
                flen == fine@.len(),
                clen == coarse@.len(),
                f == set_views(fine@),
                c == set_views(coarse@),
                i <= flen,
                forall|p: int| 0 <= p < i ==> #[trigger] inside_some_block(f[p], c),
            decreases flen - i,
        {
            let mut j: usize = 0;
            let mut found = false;
            while j < clen && !found
                invariant
                    flen == fine@.len(),
                    clen == coarse@.len(),
                    f == set_views(fine@),
                    c == set_views(coarse@),
                    i < flen,
                    j <= clen,
                    found ==> inside_some_block(f[i as int], c),
                    !found ==> forall|q: int| 0 <= q < j ==> !f[i as int].subset_of(#[trigger] c[q]),
                decreases clen - j,
            {
                found = Self::block_subset(&fine[i], &coarse[j]);
                proof {
                    assert(f[i as int] == fine@[i as int]@ && c[j as int] == coarse@[j as int]@);
                }
                j = j + 1;
            }
            if !found {
                proof {
                    assert(!inside_some_block(f[i as int], c));
                }
                return false;
            }
            proof {
                assert(inside_some_block(f[i as int], c));
            }
            i = i + 1;
        }
        true
    }

    /// The Möbius function μ(π, σ) of the non-crossing lattice: for π ≤ σ, the product of
    /// (-1)^(|C|-1) C_(|C|-1) over the blocks C of the relative Kreweras complement K_σ(π)
    /// (so μ(π, π) = 1 and μ(0_n, σ) is the product over the blocks of σ); 0 when π does
    /// not refine σ.
    pub fn moebius(from: &NCPartition, to: &NCPartition) -> (r: i64)
        requires
            is_valid_partition(from@, from.size()),
            is_valid_partition(to@, from.size()),
            to.size() == from.size(),
            from.size() < usize::MAX,
            refines(from@, to@) ==> moebius_from_bottom_fits(
                relative_complement(from@, to@, from.size()),
            ),
        ensures
            r == moebius_spec(*from, *to),
            from@ == to@ ==> r == 1,
            from@ == finest_blocks(from.size()) ==> r == moebius_product(to@),
            from@ == finest_blocks(from.size()) ==> r * parity_sign(from@.len() - to@.len()) > 0,
            from.size() >= 1 && non_crossing(from@) && to@ == seq![interval(1, from.size() as int)]
                ==> r * parity_sign(from@.len() - to@.len()) > 0,
    {
        proof {
            if from@ == finest_blocks(from.size()) {
                crate::theorems::law_moebius_sign_from_bottom(*from, *to);
            }
            if from.size() >= 1 && non_crossing(from@) && to@ == seq![interval(1, from.size() as int)] {
                crate::theorems::law_moebius_sign_to_top(*from, *to);
            }
            if from@ == to@ {
                crate::theorems::law_moebius_of_equal_partitions(*from);
            }
            if from@ == finest_blocks(from.size()) {
                crate::theorems::law_moebius_from_bottom_agrees(*from, *to);
            }
        }
        if !Self::refines_blocks(from.blocks.as_slice(), to.blocks.as_slice()) {
            return 0;
        }
        let n = from.n;
        let blocks = relative_complement_blocks(from.blocks.as_slice(), to.blocks.as_slice(), n);
        let k = NCPartition { blocks, n };
        k.moebius_from_bottom()
    }

    /// Get all NC partitions of {1, ..., n}.
    pub fn all_nc_partitions(n: usize) -> (r: Vec<NCPartition>)
        requires
            n < usize::MAX,
        ensures
            n == 0 ==> r@.len() == 0,
            n > 0 ==> forall|k: int|
                0 <= k < r@.len() ==> is_nc_partition(#[trigger] r@[k]@, n as nat) && blocks_in_order(
                    r@[k]@,
                ) && r@[k].size() == n,
            n > 0 ==> forall|k: int, l: int|
                0 <= k < r@.len() && 0 <= l < r@.len() && k != l ==> #[trigger] r@[k]@
                    != #[trigger] r@[l]@,
            n > 0 ==> forall|bs: Seq<Set<usize>>|
                #[trigger] is_nc_partition(bs, n as nat) && blocks_in_order(bs) ==> exists|k: int|
                    0 <= k < r@.len() && #[trigger] r@[k]@ == bs,
            n > 0 ==> r@.len() == catalan_number(n as nat),
            n > 0 ==> outputs(r@) == expected_outputs(completions(seq![], 1, n as int), n as nat),
    {
        if n == 0 {
            return vec![];
        }
        let mut result: Vec<NCPartition> = Vec::new();
        Self::generate_nc_partitions(n, &mut result);
        proof {
            let cs = completions(seq![], 1, n as int);
            lemma_enumeration_exact(n as int);
            crate::counting::lemma_enumeration_count(n as int);
            assert(result@.len() == cs.len()) by {
                assert(outputs(result@).len() == expected_outputs(cs, n as nat).len());
            }
            assert forall|k: int| 0 <= k < result@.len() implies #[trigger] result@[k]@ == partition_sets(cs[k])
                && result@[k].size() == n by {
                assert(outputs(result@)[k] == expected_outputs(cs, n as nat)[k]);
            }
            assert forall|bs: Seq<Set<usize>>| #[trigger] is_nc_partition(bs, n as nat) && blocks_in_order(
                bs,
            ) implies exists|k: int| 0 <= k < result@.len() && #[trigger] result@[k]@ == bs by {
                let ni: int = n as int;
                assert(is_nc_partition(bs, ni as nat));
                let k = choose|k: int| 0 <= k < cs.len() && #[trigger] partition_sets(cs[k]) == bs;
                assert(result@[k]@ == partition_sets(cs[k]));
                assert(result@[k]@ == bs);
            }
        }
        result
    }

    fn generate_nc_partitions(n: usize, result: &mut Vec<NCPartition>)
        requires
            1 <= n < usize::MAX,
            old(result)@.len() == 0,
        ensures
            outputs(final(result)@) == expected_outputs(completions(seq![], 1, n as int), n as nat),
    {
        // Generate all set partitions, keep only non-crossing ones
        let mut partition: Vec<Vec<usize>> = Vec::new();
        proof {
            assert(list_views(partition@) =~= seq![]);
            assert(outputs(result@) =~= seq![]);
        }
        Self::generate_partitions_recursive(1, n, &mut partition, result);
    }

    fn generate_partitions_recursive(
        elem: usize,
        n: usize,
        partition: &mut Vec<Vec<usize>>,
        result: &mut Vec<NCPartition>,
    )
        requires
            1 <= elem <= n + 1,
            n < usize::MAX,
        ensures
            list_views(final(partition)@) == list_views(old(partition)@),
            outputs(final(result)@) == outputs(old(result)@) + expected_outputs(
                completions(list_views(old(partition)@), elem as int, n as int),
                n as nat,
            ),
        decreases n + 1 - elem,
    {
        let ghost p = list_views(partition@);
        let ghost res0 = outputs(result@);
        if elem > n {
            // Convert to NCPartition and add if valid
            let blocks = block_sets_of(partition);
            if Self::is_non_crossing(&blocks) {
                let ghost before = result@;
                result.push(NCPartition::new_unchecked(blocks, n));
                proof {
                    lemma_outputs_push(before, result@.last());
                    assert(result@ == before.push(result@.last()));
                    assert(completions(p, elem as int, n as int) == seq![p]);
                    assert(expected_outputs(seq![p], n as nat) =~= seq![(partition_sets(p), n as nat)]);
                }
            } else {
                proof {
                    assert(completions(p, elem as int, n as int) =~= Seq::<Seq<Seq<usize>>>::empty());
                    assert(expected_outputs(Seq::<Seq<Seq<usize>>>::empty(), n as nat) =~= seq![]);
                }
            }
            return;
        }
        // Add to existing block
        let len = partition.len();
        let mut i: usize = 0;
        while i < len
            invariant
                1 <= elem <= n,
                n < usize::MAX,
                len == p.len(),
                i <= len,
                list_views(partition@) == p,
                outputs(result@) == res0 + expected_outputs(
                    extensions_upto(p, elem as int, n as int, i as int),
                    n as nat,
                ),
            decreases len - i,
        {
            let ghost q = p.update(i as int, p[i as int].push(elem));
            partition[i].push(elem);
            proof {
                assert(list_views(partition@) =~= q);
            }
            // Early pruning: check if still non-crossing
            let bsets = block_sets_of(partition);
            if Self::is_non_crossing(&bsets) {
                Self::generate_partitions_recursive(elem + 1, n, partition, result);
            }
            let ghost mid = partition@;
            partition[i].pop();
            proof {
                assert(list_views(mid) == q);
                assert(mid[i as int]@ == q[i as int]);
                assert(q[i as int].drop_last() =~= p[i as int]);
                assert forall|j: int| 0 <= j < p.len() implies #[trigger] list_views(partition@)[j]
                    == p[j] by {
                    if j != i {
                        assert(partition@[j] == mid[j]);
                        assert(list_views(mid)[j] == q[j]);
                    }
                }
                assert(list_views(partition@) =~= p);
                let e_prev = extensions_upto(p, elem as int, n as int, i as int);
                let branch = if nc_list(q) {
                    completions(q, elem + 1, n as int)
                } else {
                    seq![]
                };
                assert(extensions_upto(p, elem as int, n as int, i + 1) == e_prev + branch);
                lemma_expected_outputs_add(e_prev, branch, n as nat);
                if !nc_list(q) {
                    assert(expected_outputs(branch, n as nat) =~= seq![]);
                }
                assert(outputs(result@) =~= res0 + expected_outputs(
                    extensions_upto(p, elem as int, n as int, i + 1),
                    n as nat,
                ));
            }
            i = i + 1;
        }
        // Start new block
        let mut new_block: Vec<usize> = Vec::new();
        new_block.push(elem);
        partition.push(new_block);
        proof {
            assert(list_views(partition@) =~= p.push(seq![elem]));
        }
        Self::generate_partitions_recursive(elem + 1, n, partition, result);
        let ghost mid = partition@;
        partition.pop();
        proof {
            assert(list_views(mid) == p.push(seq![elem]));
            assert forall|j: int| 0 <= j < p.len() implies #[trigger] list_views(partition@)[j]
                == p[j] by {
                assert(partition@[j] == mid[j]);
                assert(list_views(mid)[j] == p.push(seq![elem])[j]);
            }
            assert(list_views(partition@) =~= p);
            let e = extensions_upto(p, elem as int, n as int, p.len() as int);
            let c = completions(p.push(seq![elem]), elem + 1, n as int);
            assert(completions(p, elem as int, n as int) == e + c);
            lemma_expected_outputs_add(e, c, n as nat);
            assert(outputs(result@) =~= res0 + expected_outputs(
                completions(p, elem as int, n as int),
                n as nat,
            ));
        }
    }

    /// Whether the two partitions have the same size and the same blocks, in order.
    fn same_partition(&self, other: &Self) -> (r: bool)
        ensures
            r == (self@ == other@ && self.size() == other.size()),
    {
        if self.n != other.n {
            return false;
        }
        let len = self.blocks.len();
        if len != other.blocks.len() {
            proof {
                assert(self@.len() != other@.len());
            }
            return false;
        }
        let mut i: usize = 0;
        while i < len
            invariant
                len == self.blocks@.len(),
                len == other.blocks@.len(),
                i <= len,
                forall|j: int| 0 <= j < i ==> #[trigger] self@[j] == other@[j],
            decreases len - i,
        {
            if !sets_equal(&self.blocks[i], &other.blocks[i]) {
                proof {
                    assert(self@[i as int] != other@[i as int]);
                }
                return false;
            }
            i = i + 1;
        }
        proof {
            assert(self@ =~= other@);
        }
        true
    }

    /// Compute the Möbius function μ(0_n, π) = ∏_{B ∈ π} (-1)^{|B|-1} C_{|B|-1}.
    pub fn moebius_from_bottom(&self) -> (r: i64)
        requires
            moebius_from_bottom_fits(self@),
        ensures
            r == moebius_product(self@),
    {
        let ghost bs = self@;
        let len = self.blocks.len();
        let mut acc: i64 = 1;
        let mut i: usize = 0;
        while i < len
            invariant
                len == self.blocks@.len(),
                bs == self@,
                moebius_from_bottom_fits(bs),
                i <= len,
                acc == moebius_product(bs.take(i as int)),
            decreases len - i,
        {
            let size = self.blocks[i].len();
            proof {
                assert(bs[i as int] == self.blocks@[i as int]@);
                assert(size == bs[i as int].len());
            }
            let sign: i64 = if (size - 1) % 2 == 0 {
                1i64
            } else {
                -1i64
            };
            let c = catalan(size - 1);
            proof {
                assert(bs.take(i + 1).drop_last() == bs.take(i as int));
                assert(bs.take(i + 1).last() == bs[i as int]);
            }
            let factor: i64 = sign * (c as i64);
            proof {
                assert(factor == block_moebius(bs[i as int].len()));
                assert(moebius_product(bs.take(i + 1)) == acc * factor);
                assert(i64::MIN <= moebius_product(bs.take(i + 1)) <= i64::MAX);
            }
            acc = acc * factor;
            i = i + 1;
        }
        proof {
            assert(bs.take(len as int) == bs);
        }
        acc
    }
}

/// Dropping the last block removes its size from the total.
proof fn lemma_total_len_prefix(blocks: Seq<Set<usize>>, i: int)
    requires
        0 < i <= blocks.len(),
    ensures
        total_len(blocks.take(i)) == total_len(blocks.take(i - 1)) + blocks[i - 1].len(),
        total_len(blocks.take(i)) <= total_len(blocks),
    decreases blocks.len() - i,
{
    assert(blocks.take(i).drop_last() == blocks.take(i - 1));
    if i < blocks.len() {
        lemma_total_len_prefix(blocks, i + 1);
    } else {
        assert(blocks.take(i) == blocks);
    }
}

} // verus!
