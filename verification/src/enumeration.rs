//! The search tree that enumerates non-crossing partitions, and what it yields.
//!
//! A partial partition of {1, ..., m} is a list of blocks, each an increasing list
//! of elements; element m + 1 either joins one of the existing blocks or opens a
//! new block. Branches whose blocks cross are cut off.

use vstd::prelude::*;
use crate::partition::{
    blocks_in_order, has_element, has_smaller, in_some_block, is_nc_partition, is_partition_of,
    non_crossing,
};
use crate::sets::strictly_increasing;

verus! {

/// The blocks of a list of element lists, as sets.
pub open spec fn partition_sets(p: Seq<Seq<usize>>) -> Seq<Set<usize>> {
    p.map_values(|b: Seq<usize>| b.to_set())
}

/// No two blocks of the list cross.
pub open spec fn nc_list(p: Seq<Seq<usize>>) -> bool {
    non_crossing(partition_sets(p))
}

/// All non-crossing completions of the partial partition `p`, placing elements
/// `elem`, ..., `n` in turn; each element first tries the existing blocks in
/// order and then a new block of its own.
pub open spec fn completions(p: Seq<Seq<usize>>, elem: int, n: int) -> Seq<Seq<Seq<usize>>>
    decreases n + 1 - elem, 1int, 0int,
{
    if elem > n {
        if nc_list(p) {
            seq![p]
        } else {
            seq![]
        }
    } else {
        extensions_upto(p, elem, n, p.len() as int) + completions(
            p.push(seq![elem as usize]),
            elem + 1,
            n,
        )
    }
}

/// The completions in which `elem` joins one of the first `i` blocks of `p`.
pub open spec fn extensions_upto(p: Seq<Seq<usize>>, elem: int, n: int, i: int) -> Seq<
    Seq<Seq<usize>>,
>
    decreases n + 1 - elem, 0int, i,
{
    if elem > n || i <= 0 || i > p.len() {
        seq![]
    } else {
        let q = p.update(i - 1, p[i - 1].push(elem as usize));
        extensions_upto(p, elem, n, i - 1) + if nc_list(q) {
            completions(q, elem + 1, n)
        } else {
            seq![]
        }
    }
}


/// `p` lists a partition of {1, ..., m} canonically: every block is a nonempty increasing
/// list, blocks are ordered by their first elements, no element occurs in two blocks,
/// and the elements are exactly 1, ..., m.
pub open spec fn canonical(p: Seq<Seq<usize>>, m: int) -> bool {
    &&& forall|i: int| 0 <= i < p.len() ==> #[trigger] p[i].len() > 0 && strictly_increasing(p[i])
    &&& forall|i: int, j: int| 0 <= i < j < p.len() ==> #[trigger] p[i][0] < #[trigger] p[j][0]
    &&& forall|i: int, k: int|
        0 <= i < p.len() && 0 <= k < p[i].len() ==> 1 <= #[trigger] p[i][k] <= m
    &&& forall|i: int, j: int, k: int, l: int|
        0 <= i < p.len() && 0 <= j < p.len() && i != j && 0 <= k < p[i].len() && 0 <= l < p[j].len()
            ==> #[trigger] p[i][k] != #[trigger] p[j][l]
    &&& forall|x: int| 1 <= x <= m ==> #[trigger] occurs(p, x)
}

/// `x` is an element of some block of `p`.
pub open spec fn occurs(p: Seq<Seq<usize>>, x: int) -> bool {
    exists|i: int, k: int| 0 <= i < p.len() && 0 <= k < p[i].len() && #[trigger] p[i][k] == x
}

/// `c` extends `p`: it has at least as many blocks, and each block of `p` starts its block of `c`.
pub open spec fn extends(p: Seq<Seq<usize>>, c: Seq<Seq<usize>>) -> bool {
    &&& p.len() <= c.len()
    &&& forall|i: int| 0 <= i < p.len() ==> p[i].len() <= #[trigger] c[i].len()
    &&& forall|i: int, k: int|
        0 <= i < p.len() && 0 <= k < p[i].len() ==> #[trigger] c[i][k] == p[i][k]
}

proof fn lemma_extends_trans(p: Seq<Seq<usize>>, q: Seq<Seq<usize>>, c: Seq<Seq<usize>>)
    requires
        extends(p, q),
        extends(q, c),
    ensures
        extends(p, c),
{
    assert forall|i: int| 0 <= i < p.len() implies p[i].len() <= #[trigger] c[i].len() by {
        assert(q[i].len() <= c[i].len());
    }
    assert forall|i: int, k: int| 0 <= i < p.len() && 0 <= k < p[i].len() implies #[trigger] c[i][k]
        == p[i][k] by {
        assert(q[i].len() <= c[i].len());
        assert(q[i][k] == p[i][k]);
    }
}

proof fn lemma_extends_refl(p: Seq<Seq<usize>>)
    ensures
        extends(p, p),
{
}

/// Placing m + 1 into an existing block keeps the listing canonical.
pub(crate) proof fn lemma_canonical_join(p: Seq<Seq<usize>>, m: int, j: int)
    requires
        canonical(p, m),
        0 <= j < p.len(),
        0 <= m,
        m + 1 <= usize::MAX,
    ensures
        canonical(p.update(j, p[j].push((m + 1) as usize)), m + 1),
        extends(p, p.update(j, p[j].push((m + 1) as usize))),
{
    let e = (m + 1) as usize;
    let q = p.update(j, p[j].push(e));
    assert forall|i: int| 0 <= i < q.len() implies #[trigger] q[i].len() > 0 && strictly_increasing(
        q[i],
    ) by {
        if i == j {
            assert forall|a: int, b: int| 0 <= a < b < q[i].len() implies q[i][a] < q[i][b] by {
                if b == p[j].len() {
                    assert(p[j][a] <= m);
                }
            }
        }
    }
    assert forall|i: int, i2: int| 0 <= i < i2 < q.len() implies #[trigger] q[i][0] < #[trigger] q[i2][0] by {
        assert(q[i][0] == p[i][0]);
        assert(q[i2][0] == p[i2][0]);
    }
    assert forall|i: int, k: int| 0 <= i < q.len() && 0 <= k < q[i].len() implies 1 <= #[trigger] q[i][k]
        <= m + 1 by {
        if !(i == j && k == p[j].len()) {
            assert(q[i][k] == p[i][k]);
        }
    }
    assert forall|i: int, i2: int, k: int, l: int|
        0 <= i < q.len() && 0 <= i2 < q.len() && i != i2 && 0 <= k < q[i].len() && 0 <= l
            < q[i2].len() implies #[trigger] q[i][k] != #[trigger] q[i2][l] by {
        if i == j && k == p[j].len() {
            assert(q[i2][l] == p[i2][l]);
        } else if i2 == j && l == p[j].len() {
            assert(q[i][k] == p[i][k]);
        } else {
            assert(q[i][k] == p[i][k]);
            assert(q[i2][l] == p[i2][l]);
        }
    }
    assert forall|x: int| 1 <= x <= m + 1 implies #[trigger] occurs(q, x) by {
        if x == m + 1 {
            assert(q[j][p[j].len() as int] == x);
        } else {
            assert(occurs(p, x));
            let (i, k) = choose|i: int, k: int|
                0 <= i < p.len() && 0 <= k < p[i].len() && #[trigger] p[i][k] == x;
            assert(q[i][k] == x);
        }
    }
    assert forall|i: int, k: int| 0 <= i < p.len() && 0 <= k < p[i].len() implies #[trigger] q[i][k]
        == p[i][k] by {
        if i == j {
            assert(q[i][k] == p[j].push(e)[k]);
        }
    }
}

/// Opening a new block {m + 1} keeps the listing canonical.
pub(crate) proof fn lemma_canonical_open(p: Seq<Seq<usize>>, m: int)
    requires
        canonical(p, m),
        0 <= m,
        m + 1 <= usize::MAX,
    ensures
        canonical(p.push(seq![(m + 1) as usize]), m + 1),
        extends(p, p.push(seq![(m + 1) as usize])),
{
    let e = (m + 1) as usize;
    let q = p.push(seq![e]);
    assert forall|i: int| 0 <= i < q.len() implies #[trigger] q[i].len() > 0 && strictly_increasing(
        q[i],
    ) by {
        if i < p.len() {
            assert(q[i] == p[i]);
        }
    }
    assert forall|i: int, i2: int| 0 <= i < i2 < q.len() implies #[trigger] q[i][0] < #[trigger] q[i2][0] by {
        assert(q[i] == p[i]);
        if i2 < p.len() {
            assert(q[i2] == p[i2]);
        } else {
            assert(p[i][0] <= m);
        }
    }
    assert forall|i: int, k: int| 0 <= i < q.len() && 0 <= k < q[i].len() implies 1 <= #[trigger] q[i][k]
        <= m + 1 by {
        if i < p.len() {
            assert(q[i] == p[i]);
        }
    }
    assert forall|i: int, i2: int, k: int, l: int|
        0 <= i < q.len() && 0 <= i2 < q.len() && i != i2 && 0 <= k < q[i].len() && 0 <= l
            < q[i2].len() implies #[trigger] q[i][k] != #[trigger] q[i2][l] by {
        if i == p.len() {
            assert(q[i2] == p[i2]);
            assert(p[i2][l] <= m);
        } else if i2 == p.len() {
            assert(q[i] == p[i]);
            assert(p[i][k] <= m);
        } else {
            assert(q[i] == p[i]);
            assert(q[i2] == p[i2]);
        }
    }
    assert forall|x: int| 1 <= x <= m + 1 implies #[trigger] occurs(q, x) by {
        if x == m + 1 {
            assert(q[p.len() as int][0] == x);
        } else {
            assert(occurs(p, x));
            let (i, k) = choose|i: int, k: int|
                0 <= i < p.len() && 0 <= k < p[i].len() && #[trigger] p[i][k] == x;
            assert(q[i] == p[i]);
            assert(q[i][k] == x);
        }
    }
    assert forall|i: int, k: int| 0 <= i < p.len() && 0 <= k < p[i].len() implies #[trigger] q[i][k]
        == p[i][k] by {
        assert(q[i] == p[i]);
    }
}

/// What every completion satisfies.
pub open spec fn sound_completion(p: Seq<Seq<usize>>, n: int, c: Seq<Seq<usize>>) -> bool {
    canonical(c, n) && nc_list(c) && extends(p, c)
}

/// Every completion of a canonical partial partition is a canonical non-crossing
/// partition of {1, ..., n} extending it.
pub proof fn lemma_completions_sound(p: Seq<Seq<usize>>, elem: int, n: int)
    requires
        canonical(p, elem - 1),
        1 <= elem <= n + 1,
        n < usize::MAX,
    ensures
        forall|k: int|
            0 <= k < completions(p, elem, n).len() ==> sound_completion(
                p,
                n,
                #[trigger] completions(p, elem, n)[k],
            ),
    decreases n + 1 - elem, 1int, 0int,
{
    let cs = completions(p, elem, n);
    if elem > n {
        lemma_extends_refl(p);
    } else {
        let e = extensions_upto(p, elem, n, p.len() as int);
        let q = p.push(seq![elem as usize]);
        lemma_extensions_sound(p, elem, n, p.len() as int);
        lemma_canonical_open(p, elem - 1);
        lemma_completions_sound(q, elem + 1, n);
        assert forall|k: int| 0 <= k < cs.len() implies sound_completion(p, n, #[trigger] cs[k]) by {
            if k < e.len() {
                assert(cs[k] == e[k]);
            } else {
                assert(cs[k] == completions(q, elem + 1, n)[k - e.len()]);
                lemma_extends_trans(p, q, cs[k]);
            }
        }
    }
}

proof fn lemma_extensions_sound(p: Seq<Seq<usize>>, elem: int, n: int, i: int)
    requires
        canonical(p, elem - 1),
        1 <= elem <= n,
        n < usize::MAX,
        0 <= i <= p.len(),
    ensures
        forall|k: int|
            0 <= k < extensions_upto(p, elem, n, i).len() ==> sound_completion(
                p,
                n,
                #[trigger] extensions_upto(p, elem, n, i)[k],
            ),
    decreases n + 1 - elem, 0int, i,
{
    if i > 0 {
        let prev = extensions_upto(p, elem, n, i - 1);
        let q = p.update(i - 1, p[i - 1].push(elem as usize));
        lemma_extensions_sound(p, elem, n, i - 1);
        lemma_canonical_join(p, elem - 1, i - 1);
        let es = extensions_upto(p, elem, n, i);
        if nc_list(q) {
            lemma_completions_sound(q, elem + 1, n);
            assert forall|k: int| 0 <= k < es.len() implies sound_completion(p, n, #[trigger] es[k]) by {
                if k < prev.len() {
                    assert(es[k] == prev[k]);
                } else {
                    assert(es[k] == completions(q, elem + 1, n)[k - prev.len()]);
                    lemma_extends_trans(p, q, es[k]);
                }
            }
        } else {
            assert(es =~= prev);
        }
    }
}

/// In `c`, `elem` directly follows the elements that block `j` of `p` already had.
pub open spec fn placed_at(p: Seq<Seq<usize>>, c: Seq<Seq<usize>>, j: int, elem: int) -> bool {
    0 <= j < p.len() && p[j].len() < c[j].len() && c[j][p[j].len() as int] == elem
}

/// `elem` directly follows the old elements of one of the first `i` blocks of `p`.
pub open spec fn placed_before(p: Seq<Seq<usize>>, c: Seq<Seq<usize>>, i: int, elem: int) -> bool {
    exists|j: int| 0 <= j < i && placed_at(p, c, j, elem)
}

proof fn lemma_concat_no_duplicates<A>(a: Seq<A>, b: Seq<A>)
    requires
        a.no_duplicates(),
        b.no_duplicates(),
        forall|i: int, j: int| 0 <= i < a.len() && 0 <= j < b.len() ==> a[i] != b[j],
    ensures
        (a + b).no_duplicates(),
{
    let s = a + b;
    assert forall|i: int, j: int| 0 <= i < s.len() && 0 <= j < s.len() && i != j implies s[i] != s[j] by {
        if i < a.len() && j < a.len() {
            assert(s[i] == a[i] && s[j] == a[j]);
        } else if i >= a.len() && j >= a.len() {
            assert(s[i] == b[i - a.len()] && s[j] == b[j - a.len()]);
        } else if i < a.len() {
            assert(s[i] == a[i] && s[j] == b[j - a.len()]);
        } else {
            assert(s[j] == a[j] && s[i] == b[i - a.len()]);
        }
    }
}

/// The completions are pairwise different.
pub proof fn lemma_completions_distinct(p: Seq<Seq<usize>>, elem: int, n: int)
    requires
        canonical(p, elem - 1),
        1 <= elem <= n + 1,
        n < usize::MAX,
    ensures
        completions(p, elem, n).no_duplicates(),
    decreases n + 1 - elem, 1int, 0int,
{
    if elem <= n {
        let e = extensions_upto(p, elem, n, p.len() as int);
        let q = p.push(seq![elem as usize]);
        let c = completions(q, elem + 1, n);
        lemma_extensions_distinct(p, elem, n, p.len() as int);
        lemma_canonical_open(p, elem - 1);
        lemma_completions_distinct(q, elem + 1, n);
        lemma_completions_sound(q, elem + 1, n);
        assert forall|i: int, j: int| 0 <= i < e.len() && 0 <= j < c.len() implies e[i] != c[j] by {
            let x = c[j];
            assert(sound_completion(q, n, x));
            let t = choose|t: int| 0 <= t < p.len() && placed_at(p, e[i], t, elem);
            if e[i] == x {
                assert(x[p.len() as int][0] == q[p.len() as int][0]);
                assert(x[t][p[t].len() as int] == elem);
            }
        }
        lemma_concat_no_duplicates(e, c);
    }
}

proof fn lemma_extensions_distinct(p: Seq<Seq<usize>>, elem: int, n: int, i: int)
    requires
        canonical(p, elem - 1),
        1 <= elem <= n,
        n < usize::MAX,
        0 <= i <= p.len(),
    ensures
        extensions_upto(p, elem, n, i).no_duplicates(),
        forall|k: int|
            0 <= k < extensions_upto(p, elem, n, i).len() ==> placed_before(
                p,
                #[trigger] extensions_upto(p, elem, n, i)[k],
                i,
                elem,
            ),
    decreases n + 1 - elem, 0int, i,
{
    if i > 0 {
        let prev = extensions_upto(p, elem, n, i - 1);
        let q = p.update(i - 1, p[i - 1].push(elem as usize));
        lemma_extensions_distinct(p, elem, n, i - 1);
        lemma_extensions_sound(p, elem, n, i - 1);
        lemma_canonical_join(p, elem - 1, i - 1);
        let es = extensions_upto(p, elem, n, i);
        if nc_list(q) {
            let c = completions(q, elem + 1, n);
            lemma_completions_sound(q, elem + 1, n);
            lemma_completions_distinct(q, elem + 1, n);
            assert forall|k: int| 0 <= k < c.len() implies placed_at(p, #[trigger] c[k], i - 1, elem) by {
                assert(sound_completion(q, n, c[k]));
                assert(q[i - 1][p[i - 1].len() as int] == elem);
            }
            assert forall|a: int, b: int| 0 <= a < prev.len() && 0 <= b < c.len() implies prev[a]
                != c[b] by {
                let t = choose|t: int| 0 <= t < i - 1 && placed_at(p, prev[a], t, elem);
                assert(placed_at(p, c[b], i - 1, elem));
                assert(sound_completion(p, n, prev[a]));
                if prev[a] == c[b] {
                    let x = prev[a];
                    assert(x[t][p[t].len() as int] == elem);
                    assert(x[i - 1][p[i - 1].len() as int] == elem);
                }
            }
            lemma_concat_no_duplicates(prev, c);
            assert(es == prev + c);
            assert forall|k: int| 0 <= k < es.len() implies placed_before(p, #[trigger] es[k], i, elem) by {
                if k < prev.len() {
                    assert(es[k] == prev[k]);
                    let t = choose|t: int| 0 <= t < i - 1 && placed_at(p, prev[k], t, elem);
                    assert(placed_at(p, es[k], t, elem));
                } else {
                    assert(es[k] == c[k - prev.len()]);
                    assert(placed_at(p, es[k], i - 1, elem));
                }
            }
        } else {
            assert(es =~= prev);
            assert forall|k: int| 0 <= k < es.len() implies placed_before(p, #[trigger] es[k], i, elem) by {
                let t = choose|t: int| 0 <= t < i - 1 && placed_at(p, prev[k], t, elem);
                assert(placed_at(p, es[k], t, elem));
            }
        }
    } else {
        assert(extensions_upto(p, elem, n, i).len() == 0);
    }
}

/// Number of elements of `s` that are at most `m`.
pub open spec fn count_le(s: Seq<usize>, m: int) -> nat
    decreases s.len(),
{
    if s.len() == 0 {
        0
    } else {
        count_le(s.drop_last(), m) + if s.last() <= m {
            1nat
        } else {
            0nat
        }
    }
}

/// In an increasing list, the elements at most `m` are exactly the first `count_le` ones.
proof fn lemma_count_le_sorted(s: Seq<usize>, m: int)
    requires
        strictly_increasing(s),
    ensures
        count_le(s, m) <= s.len(),
        forall|i: int| 0 <= i < s.len() ==> (#[trigger] s[i] <= m <==> i < count_le(s, m)),
    decreases s.len(),
{
    if s.len() > 0 {
        let t = s.drop_last();
        lemma_count_le_sorted(t, m);
        assert forall|i: int| 0 <= i < s.len() implies (#[trigger] s[i] <= m <==> i < count_le(s, m)) by {
            if i < s.len() - 1 {
                assert(s[i] == t[i]);
                if s.last() <= m {
                    assert(s[i] < s[s.len() - 1]);
                }
            } else {
                if s.last() <= m {
                    assert forall|a: int| 0 <= a < t.len() implies #[trigger] t[a] <= m by {
                        assert(t[a] == s[a]);
                        assert(s[a] < s[s.len() - 1]);
                    }
                    if count_le(t, m) < t.len() {
                        assert(t[count_le(t, m) as int] <= m);
                    }
                }
            }
        }
    }
}

/// Raising the bound from e - 1 to e counts e once more when it occurs.
proof fn lemma_count_le_step(s: Seq<usize>, e: int)
    requires
        s.no_duplicates(),
    ensures
        count_le(s, e) == count_le(s, e - 1) + if s.contains(e as usize) && 0 <= e <= usize::MAX {
            1nat
        } else {
            0nat
        },
    decreases s.len(),
{
    if s.len() > 0 {
        let t = s.drop_last();
        assert(t.no_duplicates()) by {
            assert forall|i: int, j: int| 0 <= i < t.len() && 0 <= j < t.len() && i != j implies t[i]
                != t[j] by {
                assert(t[i] == s[i] && t[j] == s[j]);
            }
        }
        lemma_count_le_step(t, e);
        if 0 <= e <= usize::MAX {
            if s.contains(e as usize) {
                let a = choose|a: int| 0 <= a < s.len() && s[a] == e as usize;
                if a < s.len() - 1 {
                    assert(t[a] == e as usize);
                    assert(s.last() != e as usize);
                } else {
                    if t.contains(e as usize) {
                        let b = choose|b: int| 0 <= b < t.len() && t[b] == e as usize;
                        assert(s[b] == s[a]);
                    }
                }
            } else {
                assert(!t.contains(e as usize)) by {
                    if t.contains(e as usize) {
                        let b = choose|b: int| 0 <= b < t.len() && t[b] == e as usize;
                        assert(s[b] == e as usize);
                    }
                }
                assert(s.last() != e as usize) by {
                    assert(s[s.len() - 1] == s.last());
                }
            }
        } else {
            assert(!t.contains(e as usize) || true);
        }
    }
}

/// The first elements of the blocks.
pub open spec fn first_elements(c: Seq<Seq<usize>>) -> Seq<usize> {
    c.map_values(|b: Seq<usize>| b[0])
}

/// The blocks of `c` cut down to the elements 1, ..., m (blocks left empty are dropped).
pub open spec fn restrict(c: Seq<Seq<usize>>, m: int) -> Seq<Seq<usize>> {
    Seq::new(
        count_le(first_elements(c), m),
        |j: int| c[j].take(count_le(c[j], m) as int),
    )
}

/// A subset of each block keeps a non-crossing list non-crossing.
proof fn lemma_non_crossing_subsets(big: Seq<Set<usize>>, small: Seq<Set<usize>>)
    requires
        non_crossing(big),
        small.len() <= big.len(),
        forall|i: int| 0 <= i < small.len() ==> (#[trigger] small[i]).subset_of(big[i]),
    ensures
        non_crossing(small),
{
    assert forall|i: int, j: int| 0 <= i < j < small.len() implies !#[trigger] crate::partition::blocks_cross_spec(
        small[i],
        small[j],
    ) by {
        assert(small[i].subset_of(big[i]));
        assert(small[j].subset_of(big[j]));
        assert(!crate::partition::blocks_cross_spec(big[i], big[j]));
        if crate::partition::interleaves(small[i], small[j]) {
            lemma_interleaves_subsets(small[i], small[j], big[i], big[j]);
        }
        if crate::partition::interleaves(small[j], small[i]) {
            lemma_interleaves_subsets(small[j], small[i], big[j], big[i]);
        }
    }
}

proof fn lemma_interleaves_subsets(a: Set<usize>, b: Set<usize>, a2: Set<usize>, b2: Set<usize>)
    requires
        a.subset_of(a2),
        b.subset_of(b2),
        crate::partition::interleaves(a, b),
    ensures
        crate::partition::interleaves(a2, b2),
{
    let (x1, y1, x2, y2) = choose|x1: usize, y1: usize, x2: usize, y2: usize|
        #![trigger a.contains(x1), b.contains(y1), a.contains(x2), b.contains(y2)]
        a.contains(x1) && b.contains(y1) && a.contains(x2) && b.contains(y2) && x1 < y1 && y1 < x2
            && x2 < y2;
    assert(a2.contains(x1) && b2.contains(y1) && a2.contains(x2) && b2.contains(y2));
}

/// Counting up to e or up to e - 1 agrees on an increasing list without e.
proof fn lemma_count_le_skip(s: Seq<usize>, e: int)
    requires
        strictly_increasing(s),
        forall|a: int| 0 <= a < s.len() ==> s[a] != e,
    ensures
        count_le(s, e) == count_le(s, e - 1),
{
    lemma_count_le_sorted(s, e);
    lemma_count_le_sorted(s, e - 1);
    let c1 = count_le(s, e);
    let c0 = count_le(s, e - 1);
    if c1 < c0 {
        assert(s[c1 as int] <= e - 1);
    } else if c0 < c1 {
        assert(s[c0 as int] <= e);
        assert(s[c0 as int] != e);
    }
}

/// The count up to m is `t` when exactly the first `t` elements are at most m.
proof fn lemma_count_le_at(s: Seq<usize>, m: int, t: int)
    requires
        strictly_increasing(s),
        0 <= t <= s.len(),
        t > 0 ==> s[t - 1] <= m,
        t < s.len() ==> s[t] > m,
    ensures
        count_le(s, m) == t,
{
    lemma_count_le_sorted(s, m);
    let c = count_le(s, m);
    if c < t {
        assert(s[t - 1] <= m);
    } else if t < c {
        assert(s[t] <= m);
    }
}

/// Increasing lists of first elements and blocks of a canonical listing.
proof fn lemma_canonical_first_elements(c: Seq<Seq<usize>>, n: int)
    requires
        canonical(c, n),
    ensures
        strictly_increasing(first_elements(c)),
        first_elements(c).len() == c.len(),
        forall|i: int| 0 <= i < c.len() ==> #[trigger] first_elements(c)[i] == c[i][0],
{
    assert forall|a: int, b: int| 0 <= a < b < first_elements(c).len() implies first_elements(c)[a]
        < first_elements(c)[b] by {
        assert(c[a][0] < c[b][0]);
    }
}

/// Placing `elem` grows the cut listing: it joins its block, or opens a new one.
proof fn lemma_restrict_step(c: Seq<Seq<usize>>, n: int, elem: int, j: int, k: int)
    requires
        canonical(c, n),
        1 <= elem <= n,
        n < usize::MAX,
        0 <= j < c.len(),
        0 <= k < c[j].len(),
        c[j][k] == elem,
    ensures
        k == 0 ==> restrict(c, elem) == restrict(c, elem - 1).push(seq![elem as usize]),
        k > 0 ==> j < restrict(c, elem - 1).len() && restrict(c, elem) == restrict(
            c,
            elem - 1,
        ).update(j, restrict(c, elem - 1)[j].push(elem as usize)),
{
    let f = first_elements(c);
    lemma_canonical_first_elements(c, n);
    let r0 = restrict(c, elem - 1);
    let r1 = restrict(c, elem);
    // counts in block j
    assert(strictly_increasing(c[j]));
    lemma_count_le_at(c[j], elem, k + 1);
    if k > 0 {
        assert(c[j][k - 1] < c[j][k]);
    }
    lemma_count_le_at(c[j], elem - 1, k);
    // counts in the other blocks
    assert forall|i: int| 0 <= i < c.len() && i != j implies count_le(#[trigger] c[i], elem) == count_le(
        c[i],
        elem - 1,
    ) by {
        assert forall|a: int| 0 <= a < c[i].len() implies c[i][a] != elem by {
            assert(c[i][a] != c[j][k]);
        }
        lemma_count_le_skip(c[i], elem);
    }
    if k == 0 {
        assert(f[j] == elem);
        if j > 0 {
            assert(f[j - 1] < f[j]);
        }
        lemma_count_le_at(f, elem - 1, j);
        if j + 1 < f.len() {
            assert(f[j] < f[j + 1]);
        }
        lemma_count_le_at(f, elem, j + 1);
        assert(r1.len() == r0.len() + 1);
        assert forall|i: int| 0 <= i < r1.len() implies #[trigger] r1[i] == r0.push(seq![elem as usize])[i] by {
            if i < j {
                assert(r1[i] == c[i].take(count_le(c[i], elem) as int));
                assert(r0[i] == c[i].take(count_le(c[i], elem - 1) as int));
            } else {
                assert(i == j);
                assert(c[j].take(1) =~= seq![elem as usize]);
            }
        }
        assert(r1 =~= r0.push(seq![elem as usize]));
    } else {
        assert forall|a: int| 0 <= a < f.len() implies f[a] != elem by {
            assert(f[a] == c[a][0]);
            if a == j {
                assert(c[j][0] < c[j][k]);
            } else {
                assert(c[a][0] != c[j][k]);
            }
        }
        lemma_count_le_skip(f, elem);
        lemma_count_le_sorted(f, elem - 1);
        assert(f[j] == c[j][0]);
        assert(c[j][0] < c[j][k]);
        assert(j < count_le(f, elem - 1));
        let q = r0.update(j, r0[j].push(elem as usize));
        assert forall|i: int| 0 <= i < r1.len() implies #[trigger] r1[i] == q[i] by {
            if i != j {
                assert(r1[i] == c[i].take(count_le(c[i], elem) as int));
                assert(r0[i] == c[i].take(count_le(c[i], elem - 1) as int));
            } else {
                assert(c[j].take(k + 1) =~= c[j].take(k).push(elem as usize));
            }
        }
        assert(r1 =~= q);
    }
}

/// Cutting at n keeps everything; cutting at 0 keeps nothing.
proof fn lemma_restrict_ends(c: Seq<Seq<usize>>, n: int)
    requires
        canonical(c, n),
        n >= 0,
    ensures
        restrict(c, n) == c,
        restrict(c, 0) == Seq::<Seq<usize>>::empty(),
{
    let f = first_elements(c);
    lemma_canonical_first_elements(c, n);
    if f.len() > 0 {
        assert(c[f.len() - 1][0] <= n);
        assert(f[0] >= 1);
    }
    lemma_count_le_at(f, n, f.len() as int);
    lemma_count_le_at(f, 0, 0);
    assert forall|i: int| 0 <= i < c.len() implies #[trigger] restrict(c, n)[i] == c[i] by {
        let b = c[i];
        assert(b[b.len() - 1] <= n);
        lemma_count_le_at(b, n, b.len() as int);
        assert(b.take(b.len() as int) =~= b);
    }
    assert(restrict(c, n) =~= c);
    assert(restrict(c, 0) =~= Seq::<Seq<usize>>::empty());
}

/// Every block of a cut listing is a subset of the full block.
proof fn lemma_restrict_non_crossing(c: Seq<Seq<usize>>, n: int, m: int)
    requires
        canonical(c, n),
        nc_list(c),
    ensures
        nc_list(restrict(c, m)),
{
    let r = restrict(c, m);
    let f = first_elements(c);
    lemma_canonical_first_elements(c, n);
    lemma_count_le_sorted(f, m);
    assert forall|i: int| 0 <= i < r.len() implies (#[trigger] partition_sets(r)[i]).subset_of(
        partition_sets(c)[i],
    ) by {
        let b = c[i];
        lemma_count_le_sorted(b, m);
        let t = b.take(count_le(b, m) as int);
        assert(r[i] == t);
        assert forall|x: usize| t.to_set().contains(x) implies b.to_set().contains(x) by {
            let a = t.index_of(x);
            assert(b[a] == x);
        }
    }
    lemma_non_crossing_subsets(partition_sets(c), partition_sets(r));
}

/// A completion reached through block `j` is among the first `i` extensions, `j < i`.
proof fn lemma_extensions_contain(
    p: Seq<Seq<usize>>,
    elem: int,
    n: int,
    i: int,
    j: int,
    x: Seq<Seq<usize>>,
)
    requires
        1 <= elem <= n,
        0 <= j < i <= p.len(),
        nc_list(p.update(j, p[j].push(elem as usize))),
        completions(p.update(j, p[j].push(elem as usize)), elem + 1, n).contains(x),
    ensures
        extensions_upto(p, elem, n, i).contains(x),
    decreases i,
{
    let prev = extensions_upto(p, elem, n, i - 1);
    let q = p.update(i - 1, p[i - 1].push(elem as usize));
    let branch = if nc_list(q) {
        completions(q, elem + 1, n)
    } else {
        seq![]
    };
    assert(extensions_upto(p, elem, n, i) == prev + branch);
    if j == i - 1 {
        let a = choose|a: int| 0 <= a < branch.len() && branch[a] == x;
        assert((prev + branch)[prev.len() + a] == x);
    } else {
        lemma_extensions_contain(p, elem, n, i - 1, j, x);
        let a = choose|a: int| 0 <= a < prev.len() && prev[a] == x;
        assert((prev + branch)[a] == x);
    }
}

/// Every canonical non-crossing partition of {1, ..., n} is reached from its cut at elem - 1.
proof fn lemma_completions_complete(c: Seq<Seq<usize>>, elem: int, n: int)
    requires
        canonical(c, n),
        nc_list(c),
        1 <= elem <= n + 1,
        n < usize::MAX,
    ensures
        completions(restrict(c, elem - 1), elem, n).contains(c),
    decreases n + 1 - elem,
{
    if elem > n {
        lemma_restrict_ends(c, n);
        assert(completions(c, elem, n)[0] == c);
    } else {
        assert(occurs(c, elem));
        let (j, k) = choose|j: int, k: int|
            0 <= j < c.len() && 0 <= k < c[j].len() && #[trigger] c[j][k] == elem;
        lemma_restrict_step(c, n, elem, j, k);
        let r0 = restrict(c, elem - 1);
        let r1 = restrict(c, elem);
        lemma_restrict_non_crossing(c, n, elem);
        lemma_completions_complete(c, elem + 1, n);
        let e = extensions_upto(r0, elem, n, r0.len() as int);
        let rest = completions(r0.push(seq![elem as usize]), elem + 1, n);
        assert(completions(r0, elem, n) == e + rest);
        if k == 0 {
            let a = choose|a: int| 0 <= a < rest.len() && rest[a] == c;
            assert((e + rest)[e.len() + a] == c);
        } else {
            lemma_extensions_contain(r0, elem, n, r0.len() as int, j, c);
            let a = choose|a: int| 0 <= a < e.len() && e[a] == c;
            assert((e + rest)[a] == c);
        }
    }
}

/// The elements of `s` among 1, ..., m, in increasing order.
pub open spec fn sorted_list(s: Set<usize>, m: int) -> Seq<usize>
    decreases m,
{
    if m <= 0 {
        seq![]
    } else {
        let r = sorted_list(s, m - 1);
        if s.contains(m as usize) {
            r.push(m as usize)
        } else {
            r
        }
    }
}

proof fn lemma_sorted_list(s: Set<usize>, m: int)
    requires
        0 <= m <= usize::MAX,
    ensures
        strictly_increasing(sorted_list(s, m)),
        forall|a: int| 0 <= a < sorted_list(s, m).len() ==> 1 <= #[trigger] sorted_list(s, m)[a] <= m,
        forall|x: usize| #[trigger] sorted_list(s, m).to_set().contains(x) <==> (s.contains(x) && 1 <= x <= m),
    decreases m,
{
    if m > 0 {
        let r = sorted_list(s, m - 1);
        lemma_sorted_list(s, m - 1);
        if s.contains(m as usize) {
            r.lemma_push_to_set_commute(m as usize);
            let t = r.push(m as usize);
            assert forall|a: int, b: int| 0 <= a < b < t.len() implies t[a] < t[b] by {
                if b == r.len() {
                    assert(r[a] <= m - 1);
                }
            }
        }
    }
}

/// Increasing lists with the same elements are equal.
proof fn lemma_sorted_unique(s: Seq<usize>, t: Seq<usize>)
    requires
        strictly_increasing(s),
        strictly_increasing(t),
        s.to_set() == t.to_set(),
    ensures
        s == t,
{
    assert(s.no_duplicates());
    assert(t.no_duplicates());
    s.unique_seq_to_set();
    t.unique_seq_to_set();
    assert forall|k: int| 0 <= k < s.len() implies s[k] == t[k] by {
        lemma_sorted_unique_at(s, t, k);
    }
    assert(s =~= t);
}

proof fn lemma_sorted_unique_at(s: Seq<usize>, t: Seq<usize>, k: int)
    requires
        strictly_increasing(s),
        strictly_increasing(t),
        s.to_set() == t.to_set(),
        s.len() == t.len(),
        0 <= k < s.len(),
    ensures
        s[k] == t[k],
    decreases k,
{
    assert forall|m: int| 0 <= m < k implies s[m] == t[m] by {
        lemma_sorted_unique_at(s, t, m);
    }
    assert(s.to_set().contains(s[k]));
    let a = t.index_of(s[k]);
    assert(t[a] == s[k]);
    if a < k {
        assert(s[a] == t[a]);
    }
    assert(t.to_set().contains(t[k]));
    let b = s.index_of(t[k]);
    assert(s[b] == t[k]);
    if b < k {
        assert(s[b] == t[b]);
    }
}

/// A canonical non-crossing listing is a non-crossing partition with blocks in order.
proof fn lemma_canonical_sets(c: Seq<Seq<usize>>, n: int)
    requires
        canonical(c, n),
        nc_list(c),
        n >= 0,
    ensures
        is_nc_partition(partition_sets(c), n as nat),
        blocks_in_order(partition_sets(c)),
{
    let bs = partition_sets(c);
    assert forall|i: int, j: int| 0 <= i < j < bs.len() implies (#[trigger] bs[i]).disjoint(
        #[trigger] bs[j],
    ) by {
        assert forall|x: usize| bs[i].contains(x) implies !bs[j].contains(x) by {
            let a = c[i].index_of(x);
            if bs[j].contains(x) {
                let b = c[j].index_of(x);
                assert(c[i][a] == c[j][b]);
            }
        }
    }
    assert forall|i: int, x: usize| 0 <= i < bs.len() && #[trigger] bs[i].contains(x) implies 1 <= x
        <= n by {
        let a = c[i].index_of(x);
        assert(c[i][a] == x);
    }
    assert forall|x: usize| 1 <= x <= n implies #[trigger] in_some_block(bs, x) by {
        assert(occurs(c, x as int));
        let (i, k) = choose|i: int, k: int|
            0 <= i < c.len() && 0 <= k < c[i].len() && #[trigger] c[i][k] == x as int;
        assert(c[i].to_set().contains(c[i][k]));
        assert(bs[i].contains(x));
    }
    assert forall|j: int| 0 <= j < bs.len() implies #[trigger] has_element(bs[j]) by {
        assert(c[j].to_set().contains(c[j][0]));
    }
    assert forall|i: int, j: int, y: usize|
        0 <= i < j < bs.len() && #[trigger] bs[j].contains(y) implies #[trigger] has_smaller(bs[i], y) by {
        let b = c[j].index_of(y);
        if b > 0 {
            assert(c[j][0] < c[j][b]);
        }
        assert(c[i][0] < c[j][0]);
        assert(c[i].to_set().contains(c[i][0]));
    }
}

/// Distinct canonical listings give distinct partitions.
proof fn lemma_canonical_injective(c1: Seq<Seq<usize>>, c2: Seq<Seq<usize>>, n: int)
    requires
        canonical(c1, n),
        canonical(c2, n),
        partition_sets(c1) == partition_sets(c2),
    ensures
        c1 == c2,
{
    assert(c1.len() == partition_sets(c1).len());
    assert forall|i: int| 0 <= i < c1.len() implies #[trigger] c1[i] == c2[i] by {
        assert(partition_sets(c1)[i] == partition_sets(c2)[i]);
        lemma_sorted_unique(c1[i], c2[i]);
    }
    assert(c1 =~= c2);
}

/// The canonical listing of a non-crossing partition whose blocks are in order.
proof fn lemma_sets_canonical(bs: Seq<Set<usize>>, n: int)
    requires
        is_nc_partition(bs, n as nat),
        blocks_in_order(bs),
        0 <= n < usize::MAX,
    ensures
        canonical(bs.map_values(|b: Set<usize>| sorted_list(b, n)), n),
        nc_list(bs.map_values(|b: Set<usize>| sorted_list(b, n))),
        partition_sets(bs.map_values(|b: Set<usize>| sorted_list(b, n))) == bs,
{
    let c = bs.map_values(|b: Set<usize>| sorted_list(b, n));
    assert forall|i: int| 0 <= i < c.len() implies #[trigger] c[i].to_set() == bs[i] by {
        lemma_sorted_list(bs[i], n);
        assert(c[i].to_set() =~= bs[i]);
    }
    assert(partition_sets(c) =~= bs);
    assert forall|i: int| 0 <= i < c.len() implies #[trigger] c[i].len() > 0 && strictly_increasing(c[i]) by {
        lemma_sorted_list(bs[i], n);
        assert(has_element(bs[i]));
        let x = choose|x: usize| bs[i].contains(x);
        assert(c[i].to_set() == bs[i]);
        assert(c[i].to_set().contains(x));
    }
    assert forall|i: int, j: int| 0 <= i < j < c.len() implies #[trigger] c[i][0] < #[trigger] c[j][0] by {
        assert(c[i].to_set() == bs[i]);
        assert(c[j].to_set() == bs[j]);
        assert(c[j].to_set().contains(c[j][0]));
        assert(has_smaller(bs[i], c[j][0]));
        let x = choose|x: usize| bs[i].contains(x) && x < c[j][0];
        let a = c[i].index_of(x);
        if a > 0 {
            assert(c[i][0] < c[i][a]);
        }
    }
    assert forall|i: int, k: int| 0 <= i < c.len() && 0 <= k < c[i].len() implies 1 <= #[trigger] c[i][k]
        <= n by {
        lemma_sorted_list(bs[i], n);
    }
    assert forall|i: int, j: int, k: int, l: int|
        0 <= i < c.len() && 0 <= j < c.len() && i != j && 0 <= k < c[i].len() && 0 <= l < c[j].len()
            implies #[trigger] c[i][k] != #[trigger] c[j][l] by {
        assert(c[i].to_set() == bs[i]);
        assert(c[j].to_set() == bs[j]);
        assert(c[i].to_set().contains(c[i][k]));
        assert(c[j].to_set().contains(c[j][l]));
        if i < j {
            assert(bs[i].disjoint(bs[j]));
        } else {
            assert(bs[j].disjoint(bs[i]));
        }
    }
    assert forall|x: int| 1 <= x <= n implies #[trigger] occurs(c, x) by {
        assert(in_some_block(bs, x as usize));
        let i = choose|i: int| 0 <= i < bs.len() && #[trigger] bs[i].contains(x as usize);
        assert(c[i].to_set() == bs[i]);
        assert(c[i].to_set().contains(x as usize));
        let a = c[i].index_of(x as usize);
        assert(c[i][a] == x);
    }
}

/// The search from the empty listing yields every non-crossing partition of {1, ..., n}
/// with its blocks in order, each exactly once, and nothing else.
pub proof fn lemma_enumeration_exact(n: int)
    requires
        1 <= n < usize::MAX,
    ensures
        forall|k: int|
            0 <= k < completions(seq![], 1, n).len() ==> is_nc_partition(
                #[trigger] partition_sets(completions(seq![], 1, n)[k]),
                n as nat,
            ) && blocks_in_order(partition_sets(completions(seq![], 1, n)[k])),
        forall|k: int, l: int|
            0 <= k < completions(seq![], 1, n).len() && 0 <= l < completions(seq![], 1, n).len()
                && k != l ==> #[trigger] partition_sets(completions(seq![], 1, n)[k])
                != #[trigger] partition_sets(completions(seq![], 1, n)[l]),
        forall|bs: Seq<Set<usize>>|
            #[trigger] is_nc_partition(bs, n as nat) && blocks_in_order(bs) ==> exists|k: int|
                0 <= k < completions(seq![], 1, n).len() && #[trigger] partition_sets(
                    completions(seq![], 1, n)[k],
                ) == bs,
{
    let empty = Seq::<Seq<usize>>::empty();
    let cs = completions(empty, 1, n);
    assert(canonical(empty, 0));
    lemma_completions_sound(empty, 1, n);
    lemma_completions_distinct(empty, 1, n);
    assert forall|k: int| 0 <= k < cs.len() implies is_nc_partition(
        #[trigger] partition_sets(cs[k]),
        n as nat,
    ) && blocks_in_order(partition_sets(cs[k])) by {
        assert(sound_completion(empty, n, cs[k]));
        lemma_canonical_sets(cs[k], n);
    }
    assert forall|k: int, l: int| 0 <= k < cs.len() && 0 <= l < cs.len() && k != l implies #[trigger] partition_sets(
        cs[k],
    ) != #[trigger] partition_sets(cs[l]) by {
        assert(sound_completion(empty, n, cs[k]));
        assert(sound_completion(empty, n, cs[l]));
        if partition_sets(cs[k]) == partition_sets(cs[l]) {
            lemma_canonical_injective(cs[k], cs[l], n);
        }
    }
    assert forall|bs: Seq<Set<usize>>| #[trigger] is_nc_partition(bs, n as nat) && blocks_in_order(
        bs,
    ) implies exists|k: int| 0 <= k < cs.len() && #[trigger] partition_sets(cs[k]) == bs by {
        lemma_sets_canonical(bs, n);
        let c = bs.map_values(|b: Set<usize>| sorted_list(b, n));
        lemma_completions_complete(c, 1, n);
        lemma_restrict_ends(c, n);
        let k = choose|k: int| 0 <= k < cs.len() && cs[k] == c;
        assert(partition_sets(cs[k]) == bs);
    }
}
} // verus!
