//! What a stable sort promises, and the step that insertion sort takes.

use vstd::prelude::*;

verus! {

/// `r` is in order: each element ranks at or below every later one.
pub open spec fn sorted_by<T>(r: Seq<T>, le: spec_fn(T, T) -> bool) -> bool {
    forall|i: int, j: int| 0 <= i < j < r.len() ==> #[trigger] le(r[i], r[j])
}

/// `p` rearranges `s` into `r` (`r[j]` is `s[p[j]]`, no index of `s` used
/// twice) and keeps the elements that rank equally in their order in `s`.
pub open spec fn stable_rearrangement<T>(
    p: Seq<int>,
    r: Seq<T>,
    s: Seq<T>,
    le: spec_fn(T, T) -> bool,
) -> bool {
    &&& p.len() == r.len()
    &&& forall|j: int| 0 <= j < p.len() ==> 0 <= #[trigger] p[j] < s.len() && r[j] == s[p[j]]
    &&& forall|j1: int, j2: int| 0 <= j1 < j2 < p.len() ==> #[trigger] p[j1] != #[trigger] p[j2]
    &&& forall|j1: int, j2: int|
        0 <= j1 < j2 < p.len() && #[trigger] le(r[j2], r[j1]) ==> p[j1] < p[j2]
}

/// `r` is `s` sorted stably by `le`: in order, with the same elements, and
/// elements of equal rank in the order they had in `s`.
pub open spec fn stable_sorted<T>(r: Seq<T>, s: Seq<T>, le: spec_fn(T, T) -> bool) -> bool {
    &&& r.len() == s.len()
    &&& sorted_by(r, le)
    &&& exists|p: Seq<int>| stable_rearrangement(p, r, s, le)
}

/// Inserting the next element `x` of `s` into the sorted `r` right after the
/// elements that rank at or below it keeps `r` a stable sort of `s`.
pub proof fn lemma_stable_insert<T>(
    p: Seq<int>,
    r: Seq<T>,
    s: Seq<T>,
    le: spec_fn(T, T) -> bool,
    x: T,
    k: int,
)
    requires
        stable_rearrangement(p, r, s, le),
        sorted_by(r, le),
        r.len() == s.len(),
        0 <= k <= r.len(),
        forall|j: int| 0 <= j < k ==> #[trigger] le(r[j], x),
        forall|j: int| k <= j < r.len() ==> !#[trigger] le(r[j], x),
        forall|j: int| k <= j < r.len() ==> #[trigger] le(x, r[j]),
    ensures
        stable_rearrangement(p.insert(k, s.len() as int), r.insert(k, x), s.push(x), le),
        sorted_by(r.insert(k, x), le),
{
    let p2 = p.insert(k, s.len() as int);
    let r2 = r.insert(k, x);
    let s2 = s.push(x);
    assert forall|j: int| 0 <= j < p2.len() implies 0 <= #[trigger] p2[j] < s2.len() && r2[j]
        == s2[p2[j]] by {
        if j < k {
            assert(p2[j] == p[j]);
            assert(r2[j] == r[j]);
        } else if j > k {
            assert(p2[j] == p[j - 1]);
            assert(r2[j] == r[j - 1]);
        } else {
            assert(r2[j] == x);
            assert(p2[j] == s.len());
        }
    }
    assert forall|j1: int, j2: int| 0 <= j1 < j2 < p2.len() implies #[trigger] p2[j1]
        != #[trigger] p2[j2] by {
        if j1 != k && j2 != k {
            let a = if j1 < k { j1 } else { j1 - 1 };
            let b = if j2 < k { j2 } else { j2 - 1 };
            assert(p2[j1] == p[a] && p2[j2] == p[b]);
            assert(p[a] != p[b]);
        } else if j1 == k {
            assert(p2[j1] == s.len());
            assert(p2[j2] == p[j2 - 1]);
        } else {
            assert(p2[j2] == s.len());
            assert(p2[j1] == p[j1]);
        }
    }
    assert forall|j1: int, j2: int| 0 <= j1 < j2 < p2.len() && #[trigger] le(r2[j2], r2[j1]) implies p2[j1]
        < p2[j2] by {
        if j1 != k && j2 != k {
            let a = if j1 < k { j1 } else { j1 - 1 };
            let b = if j2 < k { j2 } else { j2 - 1 };
            assert(p2[j1] == p[a] && p2[j2] == p[b]);
            assert(r2[j1] == r[a] && r2[j2] == r[b]);
            assert(le(r[b], r[a]));
        } else if j1 == k {
            assert(r2[j1] == x);
            assert(r2[j2] == r[j2 - 1]);
            assert(!le(r[j2 - 1], x));
        } else {
            assert(p2[j2] == s.len());
            assert(p2[j1] == p[j1]);
        }
    }
    assert forall|i: int, j: int| 0 <= i < j < r2.len() implies #[trigger] le(r2[i], r2[j]) by {
        if i != k && j != k {
            let a = if i < k { i } else { i - 1 };
            let b = if j < k { j } else { j - 1 };
            assert(r2[i] == r[a] && r2[j] == r[b]);
            assert(le(r[a], r[b]));
        } else if i == k {
            assert(r2[i] == x);
            assert(r2[j] == r[j - 1]);
            assert(le(x, r[j - 1]));
        } else {
            assert(r2[j] == x);
            assert(r2[i] == r[i]);
            assert(le(r[i], x));
        }
    }
}


/// A rearrangement as long as `s` uses every index of `s`.
pub proof fn lemma_rearrangement_onto<T>(
    p: Seq<int>,
    r: Seq<T>,
    s: Seq<T>,
    le: spec_fn(T, T) -> bool,
)
    requires
        stable_rearrangement(p, r, s, le),
        r.len() == s.len(),
    ensures
        p.to_set() == vstd::set_lib::set_int_range(0, s.len() as int),
{
    let n = s.len() as int;
    assert(p.no_duplicates()) by {
        assert forall|i: int, j: int| 0 <= i < p.len() && 0 <= j < p.len() && i != j implies p[i]
            != p[j] by {
            if i < j {
                assert(p[i] != p[j]);
            } else {
                assert(p[j] != p[i]);
            }
        }
    }
    p.unique_seq_to_set();
    vstd::set_lib::lemma_int_range(0, n);
    let range = vstd::set_lib::set_int_range(0, n);
    assert(p.to_set().subset_of(range)) by {
        assert forall|x: int| p.to_set().contains(x) implies range.contains(x) by {
            let j = choose|j: int| 0 <= j < p.len() && p[j] == x;
            assert(0 <= p[j] < n);
        }
    }
    vstd::set_lib::lemma_subset_equality(p.to_set(), range);
}

} // verus!
