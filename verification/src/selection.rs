//! Selection of the n-th largest element of a slice.

use vstd::prelude::*;
use vstd::relations::sorted_by;
use vstd::relations::total_ordering;
use vstd::seq_lib::lemma_sorted_unique;

verus! {

/// Descending order on `i32`, as a "less or equal" relation that places
/// larger values first.
pub open spec fn ge_ord() -> spec_fn(i32, i32) -> bool {
    |x: i32, y: i32| x >= y
}

/// The elements of `s` rearranged into descending order.
pub open spec fn sorted_desc_of(s: Seq<i32>) -> Seq<i32> {
    s.sort_by(ge_ord())
}

proof fn lemma_ge_ord_total()
    ensures
        total_ordering(ge_ord()),
{
    assert(vstd::relations::reflexive(ge_ord()));
    assert(vstd::relations::antisymmetric(ge_ord()));
    assert(vstd::relations::transitive(ge_ord()));
    assert(vstd::relations::strongly_connected(ge_ord()));
}

/// Copies the slice into a vector sorted in descending order.
fn sort_desc(a: &[i32]) -> (r: Vec<i32>)
    ensures
        r@ == sorted_desc_of(a@),
{
    let mut out: Vec<i32> = Vec::new();
    let mut i: usize = 0;
    proof {
        assert(a@.take(0) =~= Seq::<i32>::empty());
        assert(out@.to_multiset() =~= a@.take(0).to_multiset());
    }
    while i < a.len()
        invariant
            0 <= i <= a@.len(),
            sorted_by(out@, ge_ord()),
            out@.to_multiset() == a@.take(i as int).to_multiset(),
            out@.len() == i,
        decreases a@.len() - i,
    {
        let x: i32 = a[i];
        let mut pos: usize = 0;
        while pos < out.len() && out[pos] >= x
            invariant
                0 <= pos <= out@.len(),
                forall|k: int| 0 <= k < pos ==> #[trigger] out@[k] >= x,
            decreases out@.len() - pos,
        {
            pos = pos + 1;
        }
        let ghost before = out@;
        out.insert(pos, x);
        proof {
            before.insert_ensures(pos as int, x);
            assert forall|p: int, q: int|
                0 <= p < q < out@.len() implies #[trigger] ge_ord()(out@[p], out@[q]) by {
                if q < pos {
                    assert(ge_ord()(before[p], before[q]));
                } else if p < pos && q == pos {
                    assert(out@[p] == before[p]);
                } else if p < pos && q > pos {
                    assert(ge_ord()(before[p], before[q - 1]));
                } else if p == pos {
                    if q > pos {
                        assert(pos < before.len());
                        assert(!(before[pos as int] >= x));
                        if q - 1 > pos {
                            assert(ge_ord()(before[pos as int], before[q - 1]));
                        }
                    }
                } else {
                    assert(ge_ord()(before[p - 1], before[q - 1]));
                }
            }
            vstd::seq_lib::to_multiset_insert(before, pos as int, x);
            assert(a@.take(i as int + 1) =~= a@.take(i as int).push(a@[i as int]));
            vstd::seq_lib::to_multiset_build(a@.take(i as int), a@[i as int]);
        }
        i = i + 1;
    }
    proof {
        assert(a@.take(a@.len() as int) =~= a@);
        lemma_ge_ord_total();
        a@.lemma_sort_by_ensures(ge_ord());
        lemma_sorted_unique(out@, a@.sort_by(ge_ord()), ge_ord());
    }
    out
}

/// Returns the `n`-th largest element of `a` (0-indexed, duplicates
/// counted by position), or `None` if `a` has no such position.
pub fn nthmax(n: usize, a: &[i32]) -> (r: Option<i32>)
    ensures
        n < a@.len() ==> r == Some(sorted_desc_of(a@)[n as int]),
        n >= a@.len() ==> r is None,
{
    if a.len() == 0 {
        return None;
    }
    let v: Vec<i32> = sort_desc(a);
    proof {
        lemma_ge_ord_total();
        a@.lemma_sort_by_ensures(ge_ord());
        broadcast use vstd::seq_lib::to_multiset_len;

        assert(a@.to_multiset().len() == a@.len());
        assert(sorted_desc_of(a@).to_multiset().len() == sorted_desc_of(a@).len());
        assert(v@.len() == a@.len());
    }
    if n < v.len() {
        Some(v[n])
    } else {
        None
    }
}

} // verus!
