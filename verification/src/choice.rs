//! Lists that are made by choosing from another list: what is chosen, all of it and in order.
use vstd::prelude::*;

verus! {

/// How many of the first `k` flags are set.
pub open spec fn count(flags: Seq<bool>, k: int) -> int
    decreases k,
{
    if k <= 0 {
        0
    } else {
        count(flags, k - 1) + if flags[k - 1] {
            1int
        } else {
            0int
        }
    }
}

/// Whether `r` holds those of the first `k` items whose flag is set: as many as there are, each where
/// it belongs.
pub open spec fn picked<T>(r: Seq<T>, items: Seq<T>, flags: Seq<bool>, k: int) -> bool {
    &&& r.len() == count(flags, k)
    &&& forall|i: int| 0 <= i < k && #[trigger] flags[i] ==> r[count(flags, i)] == items[i]
}

/// Counts grow with what is counted.
pub proof fn lemma_count(flags: Seq<bool>, i: int, k: int)
    requires
        0 <= i <= k,
    ensures
        0 <= count(flags, i) <= count(flags, k) <= k,
        count(flags, i) <= i,
        i < k && flags[i] ==> count(flags, i) < count(flags, k),
    decreases k,
{
    if k > 0 {
        if i < k {
            lemma_count(flags, i, k - 1);
        } else {
            lemma_count(flags, k - 1, k - 1);
        }
    }
}

/// One more item is chosen, or left out.
pub proof fn lemma_picked_step<T>(r: Seq<T>, items: Seq<T>, flags: Seq<bool>, k: int)
    requires
        k > 0,
        picked(r, items, flags, k - 1),
    ensures
        picked(if flags[k - 1] { r.push(items[k - 1]) } else { r }, items, flags, k),
{
    let s = if flags[k - 1] { r.push(items[k - 1]) } else { r };
    assert forall|i: int| 0 <= i < k && #[trigger] flags[i] implies s[count(flags, i)] == items[i] by {
        lemma_count(flags, i, k - 1);
    }
}

/// Whether `x` is one of the first `k` items whose flag is set.
pub open spec fn chosen_from<T>(x: T, items: Seq<T>, flags: Seq<bool>, k: int) -> bool {
    exists|i: int| 0 <= i < k && #[trigger] flags[i] && items[i] == x
}

/// What is chosen occurs, and nothing else.
pub proof fn lemma_picked_members<T>(r: Seq<T>, items: Seq<T>, flags: Seq<bool>, k: int)
    requires
        k >= 0,
        picked(r, items, flags, k),
    ensures
        forall|i: int| 0 <= i < k && #[trigger] flags[i] ==> r.contains(items[i]),
        forall|j: int| 0 <= j < r.len() ==> chosen_from(#[trigger] r[j], items, flags, k),
{
    assert forall|i: int| 0 <= i < k && #[trigger] flags[i] implies r.contains(items[i]) by {
        lemma_count(flags, i, k);
        assert(r[count(flags, i)] == items[i]);
    }
    assert forall|j: int| 0 <= j < r.len() implies chosen_from(#[trigger] r[j], items, flags, k) by {
        let i = lemma_source(flags, k, j);
        assert(flags[i] && items[i] == r[j]);
    }
}

/// Which flag the `j`th of those that are set is.
proof fn lemma_source(flags: Seq<bool>, k: int, j: int) -> (i: int)
    requires
        k >= 0,
        0 <= j < count(flags, k),
    ensures
        0 <= i < k,
        flags[i],
        count(flags, i) == j,
    decreases k,
{
    if flags[k - 1] && count(flags, k - 1) == j {
        k - 1
    } else {
        lemma_source(flags, k - 1, j)
    }
}

} // verus!
