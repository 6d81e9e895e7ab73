//! Searching and sorting over arrays of integers, and a growable ring buffer.
use vstd::prelude::*;
use vstd::seq_lib::group_to_multiset_ensures;

verus! {

/// `s` is in non-decreasing order between `lo` (included) and `hi` (excluded).
pub open spec fn sorted_between(s: Seq<i64>, lo: int, hi: int) -> bool {
    forall|a: int, b: int| lo <= a <= b < hi ==> s[a] <= s[b]
}

/// `s` is in non-decreasing order.
pub open spec fn sorted(s: Seq<i64>) -> bool {
    sorted_between(s, 0, s.len() as int)
}

/// Once an entry of `s` is true, all later ones are.
pub open spec fn monotone(s: Seq<bool>) -> bool {
    forall|a: int, b: int| 0 <= a <= b < s.len() && s[a] ==> s[b]
}

/// Overwriting one element takes it out of the multiset and puts the new one in.
pub proof fn lemma_update_multiset(s: Seq<i64>, i: int, x: i64)
    requires
        0 <= i < s.len(),
    ensures
        s.update(i, x).to_multiset() == s.to_multiset().remove(s[i]).insert(x),
{
    broadcast use group_to_multiset_ensures;

    let t = s.update(i, x);
    assert(t.remove(i) =~= s.remove(i));
    assert(t[i] == x);
    assert(t.contains(x));
    assert(t.to_multiset() =~= t.to_multiset().remove(x).insert(x));
}

/// Exchanges two elements; the multiset of elements stays the same.
pub fn swap(arr: &mut Vec<i64>, i: usize, j: usize)
    requires
        i < old(arr).len(),
        j < old(arr).len(),
    ensures
        final(arr)@ == old(arr)@.update(i as int, old(arr)@[j as int]).update(
            j as int,
            old(arr)@[i as int],
        ),
        final(arr)@.to_multiset() == old(arr)@.to_multiset(),
{
    let a = arr[i];
    let b = arr[j];
    arr.set(i, b);
    arr.set(j, a);
    proof {
        lemma_swap_multiset(old(arr)@, i as int, j as int);
    }
}

/// Exchanging two elements keeps the multiset of elements.
pub proof fn lemma_swap_multiset(s: Seq<i64>, i: int, j: int)
    requires
        0 <= i < s.len(),
        0 <= j < s.len(),
    ensures
        s.update(i, s[j]).update(j, s[i]).to_multiset() == s.to_multiset(),
{
    broadcast use group_to_multiset_ensures;

    let t = s.update(i, s[j]);
    lemma_update_multiset(s, i, s[j]);
    lemma_update_multiset(t, j, s[i]);
    assert(s.contains(s[j]));
    assert(t.update(j, s[i]).to_multiset() =~= s.to_multiset());
}

/// Exchanging two elements inside `[lo, hi)` keeps the multiset of that range.
pub proof fn lemma_swap_range(s: Seq<i64>, i: int, j: int, lo: int, hi: int)
    requires
        0 <= lo <= i < hi <= s.len(),
        lo <= j < hi,
    ensures
        s.update(i, s[j]).update(j, s[i]).subrange(lo, hi).to_multiset() == s.subrange(
            lo,
            hi,
        ).to_multiset(),
{
    let r = s.subrange(lo, hi);
    lemma_swap_multiset(r, i - lo, j - lo);
    assert(s.update(i, s[j]).update(j, s[i]).subrange(lo, hi) =~= r.update(i - lo, r[j - lo]).update(
        j - lo,
        r[i - lo],
    ));
}

/// What holds of every element of `a` holds of every element of `b`, when
/// the two hold the same multiset.
pub proof fn lemma_same_elements(a: Seq<i64>, b: Seq<i64>, p: spec_fn(i64) -> bool)
    requires
        a.to_multiset() == b.to_multiset(),
        forall|k: int| 0 <= k < a.len() ==> p(#[trigger] a[k]),
    ensures
        forall|k: int| 0 <= k < b.len() ==> p(#[trigger] b[k]),
{
    broadcast use group_to_multiset_ensures;

    assert forall|k: int| 0 <= k < b.len() implies p(#[trigger] b[k]) by {
        assert(b.contains(b[k]));
        assert(b.to_multiset().count(b[k]) > 0);
        assert(a.to_multiset().count(b[k]) > 0);
        assert(a.contains(b[k]));
        let j = choose|j: int| 0 <= j < a.len() && a[j] == b[k];
        assert(p(a[j]));
    }
}

/// Searches the sorted range `arr[low..high]` for `target` by halving it.
///
/// A returned index holds `target`; on a sorted range, `None` means that
/// `target` is not in it.
pub fn binary_search(arr: &[i64], target: i64, low: usize, high: usize) -> (r: Option<usize>)
    requires
        low < high ==> high <= arr.len(),
    ensures
        r matches Some(i) ==> low <= i < high && arr@[i as int] == target,
        sorted_between(arr@, low as int, high as int) ==> (r is None <==> forall|j: int|
            low <= j < high ==> arr@[j] != target),
{
    let mut lo = low;
    let mut hi = high;
    while lo < hi
        invariant
            low <= lo,
            hi <= high,
            lo < hi ==> hi <= arr.len(),
            sorted_between(arr@, low as int, high as int) ==> forall|j: int|
                (low <= j < lo || hi <= j < high) ==> arr@[j] != target,
        decreases hi - lo,
    {
        let mid = lo + (hi - lo) / 2;
        let mid_val = arr[mid];
        if mid_val == target {
            return Some(mid);
        } else if mid_val > target {
            hi = mid;
        } else {
            lo = mid + 1;
        }
    }
    None
}

/// The largest `r` with `r * r <= n`.
pub fn floor_sqrt(n: usize) -> (r: usize)
    ensures
        r * r <= n < (r + 1) * (r + 1),
{
    let mut r: usize = 0;
    while r + 1 <= n / (r + 1)
        invariant
            r * r <= n,
            r <= n,
            r < usize::MAX,
        decreases n - r,
    {
        proof {
            let d = (r + 1) as int;
            let q = n as int / d;
            vstd::arithmetic::div_mod::lemma_fundamental_div_mod(n as int, d);
            vstd::arithmetic::div_mod::lemma_mod_bound(n as int, d);
            assert(d * d <= n) by (nonlinear_arith)
                requires
                    d <= q,
                    n == d * q + n as int % d,
                    0 <= n as int % d,
                    0 < d,
            ;
            assert(d <= n) by (nonlinear_arith)
                requires
                    d * d <= n,
                    0 < d,
            ;
            let m = usize::MAX as int;
            assert(d < m) by (nonlinear_arith)
                requires
                    d * d <= n,
                    n <= m,
                    0 < d,
                    4 <= m,
            ;
        }
        r = r + 1;
    }
    proof {
        let d = (r + 1) as int;
        let q = n as int / d;
        vstd::arithmetic::div_mod::lemma_fundamental_div_mod(n as int, d);
        vstd::arithmetic::div_mod::lemma_mod_bound(n as int, d);
        assert(n < d * d) by (nonlinear_arith)
            requires
                q + 1 <= d,
                n == d * q + n as int % d,
                n as int % d < d,
                0 < d,
        ;
    }
    r
}

/// Finds where a run of `false` turns into `true`: jumps ahead by the square
/// root of the length until it lands on `true`, then walks the last jump.
///
/// A returned index holds `true`. On a monotone array the result is the
/// first `true`, and `None` when there is none.
pub fn two_crystal_balls(arr: &[bool]) -> (r: Option<usize>)
    ensures
        r matches Some(i) ==> i < arr.len() && arr@[i as int],
        monotone(arr@) ==> match r {
            Some(i) => forall|j: int| 0 <= j < i ==> !arr@[j],
            None => forall|j: int| 0 <= j < arr.len() ==> !arr@[j],
        },
{
    let n = arr.len();
    let jump = floor_sqrt(n);
    let mut start: usize = 0;
    if jump > 0 {
        assert(jump <= jump * jump) by (nonlinear_arith)
            requires
                jump > 0,
        ;
        while jump < n - start
            invariant
                n == arr@.len(),
                start < n,
                0 < jump,
                monotone(arr@) ==> forall|j: int| 0 <= j < start ==> !arr@[j],
                start == 0 || !arr@[start as int],
            decreases n - start,
        {
            if arr[start + jump] {
                break;
            }
            start = start + jump;
        }
    }
    let mut i = start;
    while i < n
        invariant
            n == arr@.len(),
            start <= i <= n,
            monotone(arr@) ==> forall|j: int| 0 <= j < i ==> !arr@[j],
        decreases n - i,
    {
        if arr[i] {
            return Some(i);
        }
        i = i + 1;
    }
    None
}

/// Sorts `arr` in place by repeatedly swapping neighbours that are out of
/// order; the largest remaining element sinks to the end on each pass.
pub fn bubble_sort(arr: &mut Vec<i64>)
    ensures
        sorted(final(arr)@),
        final(arr)@.to_multiset() == old(arr)@.to_multiset(),
{
    let n = arr.len();
    let mut i: usize = 0;
    while i < n
        invariant
            arr.len() == n,
            i <= n,
            arr@.to_multiset() == old(arr)@.to_multiset(),
            sorted_between(arr@, n - i, n as int),
            forall|a: int, b: int| 0 <= a < n - i <= b < n ==> arr@[a] <= arr@[b],
        decreases n - i,
    {
        let stop = n - i;
        let mut j: usize = 0;
        while j + 1 < stop
            invariant
                arr.len() == n,
                i < n,
                stop == n - i,
                j < stop,
                arr@.to_multiset() == old(arr)@.to_multiset(),
                sorted_between(arr@, n - i, n as int),
                forall|a: int, b: int| 0 <= a < n - i <= b < n ==> arr@[a] <= arr@[b],
                forall|a: int| 0 <= a <= j ==> arr@[a] <= arr@[j as int],
            decreases stop - j,
        {
            if arr[j] > arr[j + 1] {
                swap(arr, j, j + 1);
            }
            j = j + 1;
        }
        i = i + 1;
    }
}

/// Sorts `arr[low..=high]` in place: partitions it round its last element,
/// then sorts the two sides. Elements outside the range stay where they are.
pub fn quicksort(arr: &mut Vec<i64>, low: i64, high: i64)
    requires
        low < high ==> 0 <= low && high < old(arr).len() && high < i64::MAX,
    ensures
        final(arr).len() == old(arr).len(),
        low < high ==> sorted_between(final(arr)@, low as int, high + 1),
        low < high ==> final(arr)@.subrange(low as int, high + 1).to_multiset() == old(
            arr,
        )@.subrange(low as int, high + 1).to_multiset(),
        forall|k: int|
            0 <= k < old(arr).len() && !(low <= k <= high && low < high) ==> #[trigger] final(arr)@[k]
                == old(arr)@[k],
    decreases high - low + 1,
{
    if low >= high {
        return;
    }
    let p = partition(arr, low, high);
    let ghost s1 = arr@;
    quicksort(arr, low, p - 1);
    let ghost s2 = arr@;
    quicksort(arr, p + 1, high);
    proof {
        let s3 = arr@;
        let lo = low as int;
        let hi = high + 1;
        let pivot = s1[p as int];
        // the left side keeps its elements, so all of them stay at most the pivot
        assert forall|k: int| 0 <= k < s1.subrange(lo, p as int).len() implies (|x: i64| x
            <= pivot)(#[trigger] s1.subrange(lo, p as int)[k]) by {}
        if lo < p - 1 {
            assert(s2.subrange(lo, p as int) =~= s2.subrange(lo, p as int));
        }
        assert(s2.subrange(lo, p as int).to_multiset() == s1.subrange(lo, p as int).to_multiset())
            by {
            if !(lo < p - 1) {
                assert(s2.subrange(lo, p as int) =~= s1.subrange(lo, p as int));
            }
        }
        lemma_same_elements(
            s1.subrange(lo, p as int),
            s2.subrange(lo, p as int),
            |x: i64| x <= pivot,
        );
        assert forall|k: int| 0 <= k < s2.subrange(p + 1, hi).len() implies (|x: i64| x
            > pivot)(#[trigger] s2.subrange(p + 1, hi)[k]) by {
            assert(s2[p + 1 + k] == s1[p + 1 + k]);
        }
        assert(s3.subrange(p + 1, hi).to_multiset() == s2.subrange(p + 1, hi).to_multiset()) by {
            if !(p + 1 < high) {
                assert(s3.subrange(p + 1, hi) =~= s2.subrange(p + 1, hi));
            }
        }
        lemma_same_elements(s2.subrange(p + 1, hi), s3.subrange(p + 1, hi), |x: i64| x > pivot);
        assert forall|k: int| lo <= k < p implies #[trigger] s3[k] <= pivot by {
            assert(s3[k] == s2[k]);
            assert(s2[k] == s2.subrange(lo, p as int)[k - lo]);
        }
        assert forall|k: int| p < k < hi implies #[trigger] s3[k] > pivot by {
            assert(s3[k] == s3.subrange(p + 1, hi)[k - p - 1]);
        }
        assert(s3[p as int] == pivot);
        assert forall|a: int, b: int| lo <= a <= b < hi implies s3[a] <= s3[b] by {
            if a < p && b < p {
                assert(s3[a] == s2[a] && s3[b] == s2[b]);
            }
        }
        // the multiset of the whole range is the sum of its three parts
        let m0 = old(arr)@.subrange(lo, hi);
        assert(s1.subrange(lo, hi) =~= s1.subrange(lo, p as int) + seq![pivot] + s1.subrange(
            p + 1,
            hi,
        ));
        assert(s3.subrange(lo, hi) =~= s3.subrange(lo, p as int) + seq![pivot] + s3.subrange(
            p + 1,
            hi,
        ));
        assert(s3.subrange(lo, p as int) =~= s2.subrange(lo, p as int));
        assert(s2.subrange(p + 1, hi) =~= s1.subrange(p + 1, hi));
        vstd::seq_lib::lemma_multiset_commutative(
            s1.subrange(lo, p as int) + seq![pivot],
            s1.subrange(p + 1, hi),
        );
        vstd::seq_lib::lemma_multiset_commutative(s1.subrange(lo, p as int), seq![pivot]);
        vstd::seq_lib::lemma_multiset_commutative(
            s3.subrange(lo, p as int) + seq![pivot],
            s3.subrange(p + 1, hi),
        );
        vstd::seq_lib::lemma_multiset_commutative(s3.subrange(lo, p as int), seq![pivot]);
    }
}

/// Moves every element of `arr[low..=high]` that is at most the last one (the
/// pivot) to the front of the range, then the pivot itself, and returns where
/// the pivot ends up. Elements outside the range stay where they are.
pub fn partition(arr: &mut Vec<i64>, low: i64, high: i64) -> (p: i64)
    requires
        0 <= low <= high < old(arr).len(),
        high < i64::MAX,
    ensures
        final(arr).len() == old(arr).len(),
        low <= p <= high,
        final(arr)@[p as int] == old(arr)@[high as int],
        forall|k: int| low <= k < p ==> #[trigger] final(arr)@[k] <= old(arr)@[high as int],
        forall|k: int| p < k <= high ==> #[trigger] final(arr)@[k] > old(arr)@[high as int],
        final(arr)@.subrange(low as int, high + 1).to_multiset() == old(arr)@.subrange(
            low as int,
            high + 1,
        ).to_multiset(),
        forall|k: int|
            0 <= k < old(arr).len() && !(low <= k <= high) ==> #[trigger] final(arr)@[k] == old(
                arr,
            )@[k],
{
    let pivot = arr[high as usize];
    let mut switch: i64 = low - 1;
    let mut i: i64 = low;
    while i <= high
        invariant
            arr.len() == old(arr).len(),
            0 <= low <= high < arr.len(),
            high < i64::MAX,
            pivot == old(arr)@[high as int],
            low - 1 <= switch < i <= high + 1,
            i <= high ==> arr@[high as int] == pivot,
            i == high + 1 ==> low <= switch && arr@[switch as int] == pivot,
            forall|k: int| low <= k <= switch ==> #[trigger] arr@[k] <= pivot,
            forall|k: int| switch < k < i ==> #[trigger] arr@[k] > pivot,
            arr@.subrange(low as int, high + 1).to_multiset() == old(arr)@.subrange(
                low as int,
                high + 1,
            ).to_multiset(),
            forall|k: int|
                0 <= k < arr.len() && !(low <= k <= high) ==> #[trigger] arr@[k] == old(arr)@[k],
        decreases high + 1 - i,
    {
        if arr[i as usize] <= pivot {
            switch = switch + 1;
            proof {
                lemma_swap_range(arr@, i as int, switch as int, low as int, high + 1);
            }
            swap(arr, i as usize, switch as usize);
        }
        i = i + 1;
    }
    switch
}

} // verus!
