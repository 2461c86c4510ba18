//! Sums, duplicates and filters over lists of integers.

use vstd::prelude::*;

verus! {

/// The sum of the elements of `s`.
pub open spec fn sum_of(s: Seq<i32>) -> int
    decreases s.len(),
{
    if s.len() == 0 {
        0
    } else {
        sum_of(s.drop_last()) + s.last()
    }
}

/// Whether the sum of every prefix of `s` fits in `i32`, so that adding the
/// elements up from left to right never leaves the range.
pub open spec fn sums_fit(s: Seq<i32>) -> bool {
    forall|k: int| 0 <= k <= s.len() ==> i32::MIN <= #[trigger] sum_of(s.take(k)) <= i32::MAX
}

/// Computes the sum of all elements of `slice`.
pub fn sum(slice: &[i32]) -> (total: i32)
    requires
        sums_fit(slice@),
    ensures
        total == sum_of(slice@),
{
    let mut acc: i32 = 0;
    let mut i: usize = 0;
    assert(slice@.take(0) =~= Seq::<i32>::empty());
    while i < slice.len()
        invariant
            i <= slice.len(),
            sums_fit(slice@),
            acc == sum_of(slice@.take(i as int)),
        decreases slice.len() - i,
    {
        proof {
            assert(slice@.take(i + 1).drop_last() =~= slice@.take(i as int));
            assert(i32::MIN <= sum_of(slice@.take(i + 1)) <= i32::MAX);
        }
        acc = acc + slice[i];
        i += 1;
    }
    assert(slice@.take(i as int) =~= slice@);
    acc
}

/// Tests whether `x` occurs in `v`.
fn occurs(v: &Vec<i32>, x: i32) -> (b: bool)
    ensures
        b == v@.contains(x),
{
    let mut i: usize = 0;
    while i < v.len()
        invariant
            i <= v.len(),
            forall|j: int| 0 <= j < i ==> v@[j] != x,
        decreases v.len() - i,
    {
        if v[i] == x {
            return true;
        }
        i += 1;
    }
    false
}

/// The first occurrence of each distinct element of `s`, in the order of `s`.
pub open spec fn dedup_of(s: Seq<i32>) -> Seq<i32>
    decreases s.len(),
{
    if s.len() == 0 {
        Seq::empty()
    } else {
        let d = dedup_of(s.drop_last());
        if d.contains(s.last()) {
            d
        } else {
            d.push(s.last())
        }
    }
}

/// Removes the duplicates from `vs`: the result holds the first instance of
/// each distinct element, in the order of `vs`.
pub fn dedup(vs: &Vec<i32>) -> (out: Vec<i32>)
    ensures
        out@ == dedup_of(vs@),
{
    let mut new_vec: Vec<i32> = Vec::new();
    let mut i: usize = 0;
    assert(vs@.take(0) =~= Seq::<i32>::empty());
    while i < vs.len()
        invariant
            i <= vs.len(),
            new_vec@ == dedup_of(vs@.take(i as int)),
        decreases vs.len() - i,
    {
        proof {
            assert(vs@.take(i + 1).drop_last() =~= vs@.take(i as int));
        }
        if !occurs(&new_vec, vs[i]) {
            new_vec.push(vs[i]);
        }
        i += 1;
    }
    assert(vs@.take(i as int) =~= vs@);
    new_vec
}

/// A list without duplicates holds exactly the elements of the list it was
/// made from, each of them once.
pub proof fn law_dedup_elements(s: Seq<i32>)
    ensures
        dedup_of(s).no_duplicates(),
        forall|x: i32| dedup_of(s).contains(x) <==> s.contains(x),
        dedup_of(s).len() <= s.len(),
    decreases s.len(),
{
    if s.len() > 0 {
        let head = s.drop_last();
        let d = dedup_of(head);
        law_dedup_elements(head);
        assert forall|x: i32| dedup_of(s).contains(x) <==> s.contains(x) by {
            if s.contains(x) {
                let i = choose|i: int| 0 <= i < s.len() && s[i] == x;
                if i < s.len() - 1 {
                    assert(head[i] == x);
                    assert(head.contains(x));
                    assert(d.contains(x));
                    let j = choose|j: int| 0 <= j < d.len() && d[j] == x;
                    assert(dedup_of(s)[j] == x);
                } else if !d.contains(x) {
                    assert(dedup_of(s)[d.len() as int] == x);
                }
            }
            if dedup_of(s).contains(x) {
                let j = choose|j: int| 0 <= j < dedup_of(s).len() && dedup_of(s)[j] == x;
                if j < d.len() {
                    assert(d[j] == x);
                    assert(d.contains(x));
                    assert(head.contains(x));
                    let i = choose|i: int| 0 <= i < head.len() && head[i] == x;
                    assert(s[i] == x);
                } else {
                    assert(s[s.len() - 1] == x);
                }
            }
        }
    }
}

/// A list that has no duplicates is left as it is.
pub proof fn law_dedup_fixed(s: Seq<i32>)
    requires
        s.no_duplicates(),
    ensures
        dedup_of(s) == s,
    decreases s.len(),
{
    if s.len() > 0 {
        let head = s.drop_last();
        law_dedup_fixed(head);
        if head.contains(s.last()) {
            let i = choose|i: int| 0 <= i < head.len() && head[i] == s.last();
            assert(s[i] == s[s.len() - 1]);
        }
        assert(head.push(s.last()) =~= s);
    }
}

/// The elements of `s` at the places where `keep` says `true`, in order.
pub open spec fn select(s: Seq<i32>, keep: Seq<bool>) -> Seq<i32>
    recommends
        keep.len() == s.len(),
    decreases s.len(),
{
    if s.len() == 0 || keep.len() != s.len() {
        Seq::empty()
    } else if keep.last() {
        select(s.drop_last(), keep.drop_last()).push(s.last())
    } else {
        select(s.drop_last(), keep.drop_last())
    }
}

/// Filters `vs` with the predicate `pred`: the result holds, in order, the
/// elements on which `pred` returned `true`.
///
/// The predicate is called once on each element, from left to right.
pub fn filter<F: Fn(i32) -> bool + ?Sized>(vs: &Vec<i32>, pred: &F) -> (out: Vec<i32>)
    requires
        forall|i: int| 0 <= i < vs@.len() ==> call_requires(pred, (#[trigger] vs@[i],)),
    ensures
        exists|keep: Seq<bool>|
            keep.len() == vs@.len() && (forall|i: int|
                0 <= i < vs@.len() ==> call_ensures(pred, (vs@[i],), #[trigger] keep[i])) && out@
                == select(vs@, keep),
{
    let mut new_vec: Vec<i32> = Vec::new();
    let ghost mut keep: Seq<bool> = Seq::empty();
    let mut i: usize = 0;
    assert(vs@.take(0) =~= Seq::<i32>::empty());
    while i < vs.len()
        invariant
            i <= vs.len(),
            forall|j: int| 0 <= j < vs@.len() ==> call_requires(pred, (#[trigger] vs@[j],)),
            keep.len() == i,
            forall|j: int| 0 <= j < i ==> call_ensures(pred, (vs@[j],), #[trigger] keep[j]),
            new_vec@ == select(vs@.take(i as int), keep),
        decreases vs.len() - i,
    {
        let x = vs[i];
        let b = pred(x);
        proof {
            assert(vs@.take(i + 1).drop_last() =~= vs@.take(i as int));
            assert(keep.push(b).drop_last() =~= keep);
            keep = keep.push(b);
        }
        if b {
            new_vec.push(x);
        }
        i += 1;
    }
    assert(vs@.take(i as int) =~= vs@);
    new_vec
}

/// Where the kept places are those on which a fixed test holds, selecting is
/// filtering by that test.
pub proof fn law_select_filters(s: Seq<i32>, keep: Seq<bool>, test: spec_fn(i32) -> bool)
    requires
        keep.len() == s.len(),
        forall|i: int| 0 <= i < s.len() ==> #[trigger] keep[i] == test(s[i]),
    ensures
        select(s, keep) == s.filter(test),
    decreases s.len(),
{
    reveal(Seq::filter);
    if s.len() > 0 {
        law_select_filters(s.drop_last(), keep.drop_last(), test);
    }
}

} // verus!
