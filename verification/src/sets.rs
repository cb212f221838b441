//! Reading the elements of a `BTreeSet<usize>` in increasing order.

use std::collections::BTreeSet;
use vstd::prelude::*;
use vstd::std_specs::cmp::OrdSpec;
use vstd::std_specs::iter::IteratorSpec;

verus! {

/// `s` is strictly increasing.
pub open spec fn strictly_increasing(s: Seq<usize>) -> bool {
    forall|i: int, j: int| 0 <= i < j < s.len() ==> s[i] < s[j]
}

/// An increasing sequence of references to `usize` has increasing targets.
proof fn lemma_increasing_refs(s: Seq<&usize>)
    requires
        vstd::std_specs::btree::increasing_seq(s),
    ensures
        strictly_increasing(s.unref()),
{
    assert(vstd::laws_cmp::obeys_cmp::<usize>());
    assert(vstd::laws_cmp::obeys_cmp::<&usize>());
    assert forall|i: int, j: int| 0 <= i < j < s.unref().len() implies s.unref()[i] < s.unref()[j] by {
        assert(OrdSpec::cmp_spec(&s[i], &s[j]) is Less);
    }
}

/// The elements of a set in increasing order.
pub fn sorted_elements(set: &BTreeSet<usize>) -> (v: Vec<usize>)
    ensures
        v@.to_set() == set@,
        strictly_increasing(v@),
        set@.finite(),
        v@.len() == set@.len(),
{
    let mut v: Vec<usize> = Vec::new();
    let ghost s = vstd::std_specs::btree::spec_btree_keys_iter(set).remaining();
    for x in it: set.iter()
        invariant
            it.seq() == s,
            v@ == it.seq().unref().take(it.index() as int),
    {
        v.push(*x);
    }
    proof {
        assert(v@ =~= s.unref());
        lemma_increasing_refs(s);
        assert(s.unref().no_duplicates());
        s.unref().unique_seq_to_set();
    }
    v
}

/// Whether two sets hold the same elements.
pub fn sets_equal(a: &BTreeSet<usize>, b: &BTreeSet<usize>) -> (r: bool)
    ensures
        r == (a@ == b@),
{
    let av = sorted_elements(a);
    let bv = sorted_elements(b);
    if av.len() != bv.len() {
        return false;
    }
    let len = av.len();
    let mut k: usize = 0;
    while k < len
        invariant
            len == av@.len(),
            av@.to_set() == a@,
            bv@.to_set() == b@,
            a@.len() == b@.len(),
            a@.finite(),
            b@.finite(),
            k <= len,
            forall|j: int| 0 <= j < k ==> b@.contains(#[trigger] av@[j]),
        decreases len - k,
    {
        proof {
            assert(av@.to_set().contains(av@[k as int]));
        }
        if !b.contains(&av[k]) {
            return false;
        }
        k = k + 1;
    }
    proof {
        assert forall|x: usize| a@.contains(x) implies b@.contains(x) by {
            let j = av@.index_of(x);
            assert(av@[j] == x);
        }
        vstd::set_lib::lemma_subset_equality(a@, b@);
    }
    true
}

} // verus!
