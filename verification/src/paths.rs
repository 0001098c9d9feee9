//! Sets of paths, kept as lists in which nothing occurs twice.
use crate::state::distinct;
use vstd::prelude::*;

verus! {

/// Whether a list holds a path.
pub open spec fn holds(v: Seq<String>, p: Seq<char>) -> bool {
    exists|i: int| 0 <= i < v.len() && (#[trigger] v[i])@ == p
}

/// Whether a list holds a path.
pub fn contains(v: &Vec<String>, p: &String) -> (r: bool)
    ensures
        r == holds(v@, p@),
{
    let n: usize = v.len();
    let mut i: usize = 0;
    while i < n
        invariant
            i <= n,
            n == v@.len(),
            forall|j: int| 0 <= j < i ==> (#[trigger] v@[j])@ != p@,
        decreases n - i,
    {
        if v[i] == *p {
            assert(v@[i as int]@ == p@);
            return true;
        }
        i = i + 1;
    }
    false
}

/// A list with one more path, unless it holds it already.
pub open spec fn with_path(v: Seq<String>, p: String) -> Seq<String> {
    if holds(v, p@) {
        v
    } else {
        v.push(p)
    }
}

/// Adds a path, and says whether it was missing.
pub fn insert(v: &mut Vec<String>, p: String) -> (r: bool)
    ensures
        r == !holds(old(v)@, p@),
        final(v)@ == with_path(old(v)@, p),
        distinct(old(v)@) ==> distinct(final(v)@),
        holds(final(v)@, p@),
{
    if contains(v, &p) {
        false
    } else {
        v.push(p);
        assert(v@[v@.len() - 1]@ == p@);
        true
    }
}

/// The paths of `v` that `present` holds, in the same order.
pub open spec fn kept(v: Seq<String>, present: Seq<String>) -> Seq<String>
    decreases v.len(),
{
    if v.len() == 0 {
        Seq::empty()
    } else if holds(present, v.last()@) {
        kept(v.drop_last(), present).push(v.last())
    } else {
        kept(v.drop_last(), present)
    }
}

/// What is kept is what was there and is present.
pub proof fn lemma_kept(v: Seq<String>, present: Seq<String>)
    ensures
        forall|p: Seq<char>| #[trigger] holds(kept(v, present), p) <==> holds(v, p) && holds(present, p),
        distinct(v) ==> distinct(kept(v, present)),
    decreases v.len(),
{
    if v.len() > 0 {
        let head = v.drop_last();
        lemma_kept(head, present);
        let k = kept(v, present);
        let h = kept(head, present);
        assert forall|p: Seq<char>| #[trigger] holds(k, p) <==> holds(v, p) && holds(present, p) by {
            lemma_holds_last(v, p);
            if holds(present, v.last()@) {
                assert(k.drop_last() =~= h);
                lemma_holds_last(k, p);
            }
        }
        if distinct(v) {
            assert(distinct(head)) by {
                assert forall|i: int, j: int| 0 <= i < j < head.len() implies (#[trigger] head[i])@ != (#[trigger] head[j])@ by {
                    assert(v[i]@ != v[j]@);
                }
            }
            if holds(present, v.last()@) {
                assert(!holds(head, v.last()@)) by {
                    if holds(head, v.last()@) {
                        let i = choose|i: int| 0 <= i < head.len() && (#[trigger] head[i])@ == v.last()@;
                        assert(v[i]@ != v[v.len() - 1]@);
                    }
                }
                assert(!holds(h, v.last()@));
                assert forall|i: int, j: int| 0 <= i < j < k.len() implies (#[trigger] k[i])@ != (#[trigger] k[j])@ by {
                    if j == h.len() {
                        assert(k[i] == h[i]);
                        assert(h[i]@ != v.last()@);
                    } else {
                        assert(k[i] == h[i] && k[j] == h[j]);
                    }
                }
            }
        }
    }
}

proof fn lemma_holds_last(v: Seq<String>, p: Seq<char>)
    requires
        v.len() > 0,
    ensures
        holds(v, p) <==> holds(v.drop_last(), p) || v.last()@ == p,
{
    let head = v.drop_last();
    if holds(v, p) {
        let i = choose|i: int| 0 <= i < v.len() && (#[trigger] v[i])@ == p;
        if i < head.len() {
            assert(head[i]@ == p);
        }
    }
    if holds(head, p) {
        let i = choose|i: int| 0 <= i < head.len() && (#[trigger] head[i])@ == p;
        assert(v[i]@ == p);
    }
    if v.last()@ == p {
        assert(v[v.len() - 1]@ == p);
    }
}

/// Keeps the paths that are present.
pub fn retain(v: &mut Vec<String>, present: &Vec<String>)
    ensures
        final(v)@ == kept(old(v)@, present@),
        distinct(old(v)@) ==> distinct(final(v)@),
{
    let ghost before = v@;
    let n: usize = v.len();
    let mut out: Vec<String> = Vec::new();
    let mut i: usize = 0;
    assert(before.take(0).len() == 0);
    while i < n
        invariant
            i <= n,
            n == v@.len(),
            v@ == before,
            out@ == kept(before.take(i as int), present@),
        decreases n - i,
    {
        assert(before.take(i + 1).drop_last() =~= before.take(i as int));
        if contains(present, &v[i]) {
            out.push(v[i].clone());
        }
        i = i + 1;
    }
    assert(before.take(n as int) =~= before);
    proof {
        lemma_kept(before, present@);
    }
    *v = out;
}

/// The paths of a list, each once, where it first occurs.
pub open spec fn unique(v: Seq<String>) -> Seq<String>
    decreases v.len(),
{
    if v.len() == 0 {
        Seq::empty()
    } else {
        with_path(unique(v.drop_last()), v.last())
    }
}

/// The paths of a list, each once.
pub fn collect(v: &Vec<String>) -> (r: Vec<String>)
    ensures
        r@ == unique(v@),
        distinct(r@),
{
    let n: usize = v.len();
    let mut out: Vec<String> = Vec::new();
    let mut i: usize = 0;
    assert(v@.take(0).len() == 0);
    while i < n
        invariant
            i <= n,
            n == v@.len(),
            out@ == unique(v@.take(i as int)),
            distinct(out@),
        decreases n - i,
    {
        assert(v@.take(i + 1).drop_last() =~= v@.take(i as int));
        insert(&mut out, v[i].clone());
        i = i + 1;
    }
    assert(v@.take(n as int) =~= v@);
    out
}

/// The paths of `v` but for one.
pub open spec fn without(v: Seq<String>, p: Seq<char>) -> Seq<String>
    decreases v.len(),
{
    if v.len() == 0 {
        Seq::empty()
    } else if v.last()@ == p {
        without(v.drop_last(), p)
    } else {
        without(v.drop_last(), p).push(v.last())
    }
}

/// Only the one path is taken out.
pub proof fn lemma_without(v: Seq<String>, p: Seq<char>)
    ensures
        forall|q: Seq<char>| #[trigger] holds(without(v, p), q) <==> holds(v, q) && q != p,
        distinct(v) ==> distinct(without(v, p)),
    decreases v.len(),
{
    if v.len() > 0 {
        let head = v.drop_last();
        lemma_without(head, p);
        let k = without(v, p);
        let h = without(head, p);
        assert forall|q: Seq<char>| #[trigger] holds(k, q) <==> holds(v, q) && q != p by {
            lemma_holds_last(v, q);
            if v.last()@ != p {
                assert(k.drop_last() =~= h);
                lemma_holds_last(k, q);
            }
        }
        if distinct(v) {
            assert(distinct(head)) by {
                assert forall|i: int, j: int| 0 <= i < j < head.len() implies (#[trigger] head[i])@ != (#[trigger] head[j])@ by {
                    assert(v[i]@ != v[j]@);
                }
            }
            if v.last()@ != p {
                assert(!holds(head, v.last()@)) by {
                    if holds(head, v.last()@) {
                        let i = choose|i: int| 0 <= i < head.len() && (#[trigger] head[i])@ == v.last()@;
                        assert(v[i]@ != v[v.len() - 1]@);
                    }
                }
                assert(!holds(h, v.last()@));
                assert forall|i: int, j: int| 0 <= i < j < k.len() implies (#[trigger] k[i])@ != (#[trigger] k[j])@ by {
                    if j == h.len() {
                        assert(k[i] == h[i]);
                        assert(h[i]@ != v.last()@);
                    } else {
                        assert(k[i] == h[i] && k[j] == h[j]);
                    }
                }
            }
        }
    }
}

/// Takes a path out.
pub fn remove(v: &mut Vec<String>, p: &String)
    ensures
        final(v)@ == without(old(v)@, p@),
        distinct(old(v)@) ==> distinct(final(v)@),
{
    let ghost before = v@;
    let n: usize = v.len();
    let mut out: Vec<String> = Vec::new();
    let mut i: usize = 0;
    assert(before.take(0).len() == 0);
    while i < n
        invariant
            i <= n,
            n == v@.len(),
            v@ == before,
            out@ == without(before.take(i as int), p@),
        decreases n - i,
    {
        assert(before.take(i + 1).drop_last() =~= before.take(i as int));
        if v[i] != *p {
            out.push(v[i].clone());
        }
        i = i + 1;
    }
    assert(before.take(n as int) =~= before);
    proof {
        lemma_without(before, p@);
    }
    *v = out;
}

} // verus!
