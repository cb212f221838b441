//! Properties that relate several operations on non-crossing partitions.

use vstd::prelude::*;
use crate::numbers::{catalan_number, lemma_catalan_binom};
use crate::complement::{
    is_valid_partition, lemma_complement_of_bottom, lemma_complement_of_itself,
    lemma_moebius_product_of_bottom, relative_complement,
};
use crate::kreweras::{
    lemma_blocks_nonempty, lemma_kr_valid, lemma_kreweras_count, lemma_kreweras_injective,
    lemma_product_sign, parity_sign,
};
use crate::partition::{
    block_moebius, blocks_in_order, finest_blocks, has_element, in_some_block, inside_some_block,
    interval, is_nc_partition, lemma_interval_len, lemma_partition_total_len, moebius_product,
    moebius_spec, non_crossing, refines, total_len, NCPartition,
};

verus! {

/// μ(0_n, 0_n) = 1: the product formula on the finest partition is 1.
pub proof fn law_moebius_of_finest_is_one(n: nat)
    ensures
        moebius_product(finest_blocks(n)) == 1,
    decreases n,
{
    if n > 0 {
        law_moebius_of_finest_is_one((n - 1) as nat);
        let bs = finest_blocks(n);
        assert(bs.drop_last() =~= finest_blocks((n - 1) as nat));
        assert(bs.last() == set![n as usize]);
        assert(set![n as usize].len() == 1) by {
            assert(set![n as usize] =~= Set::<usize>::empty().insert(n as usize));
        }
        lemma_catalan_binom(0);
        assert(crate::numbers::binom(0, 0) == 1);
        assert(catalan_number(0) == 1);
    }
}

/// The nonempty blocks of a non-crossing partition of {1, ..., n} hold n elements in all,
/// so `NCPartition::new` accepts them and recovers n.
pub proof fn law_new_accepts_nc_partitions(blocks: Seq<Set<usize>>, n: nat)
    requires
        is_valid_partition(blocks, n),
        non_crossing(blocks),
        n <= usize::MAX,
    ensures
        total_len(blocks) == n,
        is_valid_partition(blocks, total_len(blocks)) && non_crossing(blocks),
{
    lemma_partition_total_len(blocks, n);
}

/// The one-block partition {{1, ..., n}} is a partition of {1, ..., n} into nonempty blocks,
/// listed in order (n >= 1).
proof fn lemma_one_block_valid(n: nat)
    requires
        1 <= n <= usize::MAX,
    ensures
        is_valid_partition(seq![interval(1, n as int)], n),
        blocks_in_order(seq![interval(1, n as int)]),
{
    let t = seq![interval(1, n as int)];
    assert(t[0].contains(1));
    assert(has_element(t[0]));
    assert forall|x: usize| 1 <= x <= n implies #[trigger] in_some_block(t, x) by {
        assert(t[0].contains(x));
    }
}

/// The Kreweras complement of the one-block partition 1_n is the finest partition 0_n.
pub proof fn law_kreweras_of_one_block_is_finest(n: nat)
    requires
        1 <= n <= usize::MAX,
    ensures
        relative_complement(seq![interval(1, n as int)], seq![interval(1, n as int)], n)
            == finest_blocks(n),
{
    lemma_one_block_valid(n);
    lemma_complement_of_itself(seq![interval(1, n as int)], n);
}

/// The Kreweras complement of the finest partition 0_n is the one-block partition 1_n.
pub proof fn law_kreweras_of_finest_is_one_block(n: nat)
    requires
        1 <= n <= usize::MAX,
    ensures
        relative_complement(finest_blocks(n), seq![interval(1, n as int)], n) == seq![
            interval(1, n as int),
        ],
{
    lemma_one_block_valid(n);
    lemma_complement_of_bottom(seq![interval(1, n as int)], n);
}

/// μ(π, π) = 1 for every partition π of {1, ..., n} into nonempty blocks.
pub proof fn law_moebius_of_equal_partitions(p: NCPartition)
    requires
        p.size() <= usize::MAX,
        is_valid_partition(p@, p.size()),
    ensures
        moebius_spec(p, p) == 1,
{
    assert forall|i: int| 0 <= i < p@.len() implies #[trigger] inside_some_block(p@[i], p@) by {
        assert(p@[i].subset_of(p@[i]));
    }
    lemma_complement_of_itself(p@, p.size());
    law_moebius_of_finest_is_one(p.size());
}

/// μ(0_n, σ) is the product of (-1)^(|B|-1) C_(|B|-1) over the blocks B of σ, the value
/// `moebius_from_bottom` gives.
pub proof fn law_moebius_from_bottom_agrees(from: NCPartition, to: NCPartition)
    requires
        from.size() <= usize::MAX,
        from@ == finest_blocks(from.size()),
        to.size() == from.size(),
        is_valid_partition(to@, to.size()),
    ensures
        moebius_spec(from, to) == moebius_product(to@),
{
    let n = from.size();
    assert forall|i: int| 0 <= i < from@.len() implies #[trigger] inside_some_block(from@[i], to@) by {
        let x = (i + 1) as usize;
        assert(from@[i] == set![x]);
        assert(in_some_block(to@, x));
        let j = choose|j: int| 0 <= j < to@.len() && #[trigger] to@[j].contains(x);
        assert(from@[i].subset_of(to@[j]));
    }
    lemma_moebius_product_of_bottom(to@, n);
}

/// μ(0_n, 1_n) = (-1)^(n-1) C_(n-1) (n >= 1).
pub proof fn law_moebius_bottom_to_top(from: NCPartition, to: NCPartition)
    requires
        1 <= from.size() <= usize::MAX,
        from@ == finest_blocks(from.size()),
        to.size() == from.size(),
        to@ == seq![interval(1, from.size() as int)],
    ensures
        moebius_spec(from, to) == block_moebius(from.size()),
{
    let n = from.size();
    lemma_one_block_valid(n);
    law_moebius_from_bottom_agrees(from, to);
    lemma_interval_len(n as int);
    let bs = seq![interval(1, n as int)];
    assert(bs.drop_last() =~= Seq::<Set<usize>>::empty());
    assert(moebius_product(Seq::<Set<usize>>::empty()) == 1);
    assert(moebius_product(bs) == moebius_product(bs.drop_last()) * block_moebius(n));
}

/// For a non-crossing partition π of {1, ..., n} (n >= 1), the Kreweras complement K(π)
/// is a non-crossing partition of {1, ..., n} into nonempty blocks, and
/// |π| + |K(π)| = n + 1.
pub proof fn law_kreweras_block_count(p: NCPartition)
    requires
        1 <= p.size() <= usize::MAX,
        is_valid_partition(p@, p.size()),
        non_crossing(p@),
    ensures
        is_valid_partition(relative_complement(p@, seq![interval(1, p.size() as int)], p.size()), p.size()),
        non_crossing(relative_complement(p@, seq![interval(1, p.size() as int)], p.size())),
        p@.len() + relative_complement(p@, seq![interval(1, p.size() as int)], p.size()).len() == p.size() + 1,
{
    lemma_kreweras_count(p@, p.size());
    lemma_kr_valid(p@, p.size());
}

/// The Kreweras complement is one-to-one on the non-crossing partitions of {1, ..., n}
/// listed in increasing order of least elements (as `all_nc_partitions` lists them).
pub proof fn law_kreweras_injective(p: NCPartition, q: NCPartition)
    requires
        1 <= p.size() <= usize::MAX,
        q.size() == p.size(),
        is_valid_partition(p@, p.size()),
        is_valid_partition(q@, p.size()),
        non_crossing(p@),
        non_crossing(q@),
        blocks_in_order(p@),
        blocks_in_order(q@),
        relative_complement(p@, seq![interval(1, p.size() as int)], p.size()) == relative_complement(
            q@,
            seq![interval(1, p.size() as int)],
            p.size(),
        ),
    ensures
        p@ == q@,
{
    lemma_kreweras_injective(p@, q@, p.size());
}

/// μ(0_n, σ) has the sign (-1)^(|0_n| - |σ|) = (-1)^(n - |σ|).
pub proof fn law_moebius_sign_from_bottom(from: NCPartition, to: NCPartition)
    requires
        from.size() <= usize::MAX,
        from@ == finest_blocks(from.size()),
        to.size() == from.size(),
        is_valid_partition(to@, to.size()),
    ensures
        moebius_spec(from, to) * parity_sign(from@.len() - to@.len()) > 0,
{
    let n = from.size();
    law_moebius_from_bottom_agrees(from, to);
    lemma_blocks_nonempty(to@, n);
    lemma_product_sign(to@);
    lemma_partition_total_len(to@, n);
}

/// μ(π, 1_n) has the sign (-1)^(|π| - |1_n|) = (-1)^(|π| - 1) for a non-crossing
/// partition π of {1, ..., n} (n >= 1).
pub proof fn law_moebius_sign_to_top(from: NCPartition, to: NCPartition)
    requires
        1 <= from.size() <= usize::MAX,
        is_valid_partition(from@, from.size()),
        non_crossing(from@),
        to.size() == from.size(),
        to@ == seq![interval(1, from.size() as int)],
    ensures
        moebius_spec(from, to) * parity_sign(from@.len() - to@.len()) > 0,
{
    let n = from.size();
    assert forall|i: int| 0 <= i < from@.len() implies #[trigger] inside_some_block(from@[i], to@) by {
        assert(from@[i].subset_of(to@[0]));
    }
    let k = relative_complement(from@, seq![interval(1, n as int)], n);
    lemma_kreweras_count(from@, n);
    lemma_kr_valid(from@, n);
    lemma_blocks_nonempty(k, n);
    lemma_product_sign(k);
    lemma_partition_total_len(k, n);
}

} // verus!
