//! Counting inversions with merge sort.
use vstd::prelude::*;

verus! {

broadcast use vstd::seq_lib::group_to_multiset_ensures;

/// The number of entries of `s` greater than `v`.
pub open spec fn greater(s: Seq<usize>, v: usize) -> nat
    decreases s.len(),
{
    if s.len() == 0 {
        0
    } else {
        greater(s.drop_last(), v) + if s.last() > v { 1nat } else { 0 }
    }
}

/// The pairs `i < j` with `s[i] > s[j]`.
pub open spec fn inversions(s: Seq<usize>) -> nat
    decreases s.len(),
{
    if s.len() == 0 {
        0
    } else {
        inversions(s.drop_last()) + greater(s.drop_last(), s.last())
    }
}

/// The pairs of an entry of `a` and a later entry of `b` with the first greater.
pub open spec fn cross(a: Seq<usize>, b: Seq<usize>) -> nat
    decreases b.len(),
{
    if b.len() == 0 {
        0
    } else {
        cross(a, b.drop_last()) + greater(a, b.last())
    }
}

pub open spec fn sorted(s: Seq<usize>) -> bool {
    forall|i: int, j: int| 0 <= i <= j < s.len() ==> #[trigger] s[i] <= #[trigger] s[j]
}

proof fn lemma_greater_concat(a: Seq<usize>, b: Seq<usize>, v: usize)
    ensures
        greater(a + b, v) == greater(a, v) + greater(b, v),
    decreases b.len(),
{
    if b.len() == 0 {
        assert(a + b =~= a);
    } else {
        lemma_greater_concat(a, b.drop_last(), v);
        assert((a + b).drop_last() =~= a + b.drop_last());
    }
}

proof fn lemma_inversions_concat(a: Seq<usize>, b: Seq<usize>)
    ensures
        inversions(a + b) == inversions(a) + inversions(b) + cross(a, b),
    decreases b.len(),
{
    if b.len() == 0 {
        assert(a + b =~= a);
    } else {
        lemma_inversions_concat(a, b.drop_last());
        assert((a + b).drop_last() =~= a + b.drop_last());
        lemma_greater_concat(a, b.drop_last(), b.last());
    }
}

/// Removing entry `i` removes its contribution to `greater`.
proof fn lemma_greater_remove(s: Seq<usize>, i: int, v: usize)
    requires
        0 <= i < s.len(),
    ensures
        greater(s, v) == greater(s.remove(i), v) + if s[i] > v { 1nat } else { 0 },
    decreases s.len(),
{
    if i < s.len() - 1 {
        lemma_greater_remove(s.drop_last(), i, v);
        assert(s.remove(i).drop_last() =~= s.drop_last().remove(i));
        assert(s.remove(i).last() == s.last());
    } else {
        assert(s.remove(i) =~= s.drop_last());
    }
}

/// `greater` depends on the multiset of entries only.
proof fn lemma_greater_perm(s: Seq<usize>, t: Seq<usize>, v: usize)
    requires
        s.to_multiset() == t.to_multiset(),
    ensures
        greater(s, v) == greater(t, v),
    decreases s.len(),
{
    assert(s.len() == t.len()) by {
        assert(s.len() == s.to_multiset().len());
        assert(t.len() == t.to_multiset().len());
    }
    if s.len() > 0 {
        let x = s.last();
        assert(s =~= s.drop_last().push(x));
        assert(s.to_multiset() == s.drop_last().to_multiset().insert(x));
        assert(t.to_multiset().count(x) > 0);
        assert(t.contains(x));
        let i = choose|i: int| 0 <= i < t.len() && t[i] == x;
        assert(t.remove(i).to_multiset() == t.to_multiset().remove(x));
        assert(s.drop_last().to_multiset() =~= t.remove(i).to_multiset());
        lemma_greater_perm(s.drop_last(), t.remove(i), v);
        lemma_greater_remove(t, i, v);
    }
}

/// `cross` depends on the multisets of both sides only.
proof fn lemma_cross_perm(a: Seq<usize>, b: Seq<usize>, a2: Seq<usize>, b2: Seq<usize>)
    requires
        a.to_multiset() == a2.to_multiset(),
        b.to_multiset() == b2.to_multiset(),
    ensures
        cross(a, b) == cross(a2, b2),
    decreases b.len(),
{
    assert(b.len() == b2.len()) by {
        assert(b.len() == b.to_multiset().len());
        assert(b2.len() == b2.to_multiset().len());
    }
    if b.len() > 0 {
        let x = b.last();
        assert(b =~= b.drop_last().push(x));
        assert(b.to_multiset() == b.drop_last().to_multiset().insert(x));
        assert(b2.to_multiset().count(x) > 0);
        assert(b2.contains(x));
        let i = choose|i: int| 0 <= i < b2.len() && b2[i] == x;
        assert(b2.remove(i).to_multiset() == b2.to_multiset().remove(x));
        assert(b.drop_last().to_multiset() =~= b2.remove(i).to_multiset());
        lemma_cross_perm(a, b.drop_last(), a2, b2.remove(i));
        lemma_cross_remove(a2, b2, i);
        lemma_greater_perm(a, a2, x);
    }
}

proof fn lemma_cross_remove(a: Seq<usize>, b: Seq<usize>, i: int)
    requires
        0 <= i < b.len(),
    ensures
        cross(a, b) == cross(a, b.remove(i)) + greater(a, b[i]),
    decreases b.len(),
{
    if i < b.len() - 1 {
        lemma_cross_remove(a, b.drop_last(), i);
        assert(b.remove(i).drop_last() =~= b.drop_last().remove(i));
        assert(b.remove(i).last() == b.last());
    } else {
        assert(b.remove(i) =~= b.drop_last());
    }
}

/// With the first `c` entries at most `v` and the rest above it, `greater` is the rest.
proof fn lemma_greater_split(s: Seq<usize>, c: int, v: usize)
    requires
        0 <= c <= s.len(),
        forall|k: int| 0 <= k < c ==> #[trigger] s[k] <= v,
        forall|k: int| c <= k < s.len() ==> #[trigger] s[k] > v,
    ensures
        greater(s, v) == s.len() - c,
    decreases s.len(),
{
    if s.len() > 0 {
        if c < s.len() {
            lemma_greater_split(s.drop_last(), c, v);
        } else {
            lemma_greater_split(s.drop_last(), c - 1, v);
        }
    }
}

proof fn lemma_greater_bound(s: Seq<usize>, v: usize)
    ensures
        greater(s, v) <= s.len(),
    decreases s.len(),
{
    if s.len() > 0 {
        lemma_greater_bound(s.drop_last(), v);
    }
}

proof fn lemma_cross_bound(a: Seq<usize>, b: Seq<usize>)
    ensures
        cross(a, b) <= a.len() * b.len(),
    decreases b.len(),
{
    if b.len() > 0 {
        lemma_cross_bound(a, b.drop_last());
        lemma_greater_bound(a, b.last());
        assert(a.len() * (b.len() - 1) + a.len() == a.len() * b.len()) by (nonlinear_arith);
    }
}

/// Everything outside `[lo, hi)` is as it was.
pub open spec fn same_outside(a: Seq<usize>, b: Seq<usize>, lo: int, hi: int) -> bool {
    a.len() == b.len() && forall|k: int| 0 <= k < a.len() && !(lo <= k < hi) ==> #[trigger] a[k] == b[k]
}

/// Merges the sorted runs `arr[left..=mid]` and `arr[mid+1..=right]` through
/// `temp`, and returns the number of pairs of an entry of the first run and a
/// smaller entry of the second.
pub fn merge_and_count(arr: &mut [usize], temp: &mut [usize], left: usize, mid: usize, right: usize) -> (count: usize)
    requires
        left <= mid < right < old(arr)@.len(),
        old(temp)@.len() == old(arr)@.len(),
        right - left < 0x8000,
        sorted(old(arr)@.subrange(left as int, mid + 1)),
        sorted(old(arr)@.subrange(mid + 1, right + 1)),
    ensures
        final(temp)@.len() == old(temp)@.len(),
        same_outside(final(arr)@, old(arr)@, left as int, right + 1),
        sorted(final(arr)@.subrange(left as int, right + 1)),
        final(arr)@.subrange(left as int, right + 1).to_multiset() == old(arr)@.subrange(left as int, right + 1).to_multiset(),
        count == cross(old(arr)@.subrange(left as int, mid + 1), old(arr)@.subrange(mid + 1, right + 1)),
{
    let ghost a0 = arr@;
    let ghost l = a0.subrange(left as int, mid + 1);
    let ghost r = a0.subrange(mid + 1, right + 1);
    let mut i = left;
    let mut j = mid + 1;
    let mut k = left;
    let mut count: usize = 0;
    proof {
        lemma_cross_bound(l, r);
        assert(l.len() * r.len() <= 0x8000 * 0x8000) by (nonlinear_arith)
            requires
                l.len() <= 0x8000,
                r.len() <= 0x8000,
        ;
        assert(temp@.subrange(left as int, k as int) =~= Seq::<usize>::empty());
        assert(l.take(0) =~= Seq::<usize>::empty());
        assert(r.take(0) =~= Seq::<usize>::empty());
    }
    while i <= mid && j <= right
        invariant
            arr@ == a0,
            temp@.len() == a0.len(),
            left <= i <= mid + 1,
            mid + 1 <= j <= right + 1,
            right < a0.len(),
            right - left < 0x8000,
            k == left + (i - left) + (j - mid - 1),
            l == a0.subrange(left as int, mid + 1),
            r == a0.subrange(mid + 1, right + 1),
            sorted(l),
            sorted(r),
            sorted(temp@.subrange(left as int, k as int)),
            temp@.subrange(left as int, k as int).to_multiset() == l.take(i - left).to_multiset().add(r.take(j - mid - 1).to_multiset()),
            forall|m: int| left <= m < k && i <= mid ==> #[trigger] temp@[m] <= a0[i as int],
            forall|m: int| left <= m < k && j <= right ==> #[trigger] temp@[m] <= a0[j as int],
            forall|c: int| 0 <= c < i - left && j <= right ==> #[trigger] l[c] <= a0[j as int],
            count == cross(l, r.take(j - mid - 1)),
            cross(l, r) <= 0x8000 * 0x8000,
        decreases right + 1 - k,
    {
        let ghost t0 = temp@;
        if arr[i] <= arr[j] {
            temp[k] = arr[i];
            proof {
                lemma_step(t0, temp@, left as int, k as int, a0[i as int]);
                assert(l.take(i - left + 1) =~= l.take(i - left).push(a0[i as int]));
                assert(l[i - left] == a0[i as int]);
                lemma_sorted_push(t0.subrange(left as int, k as int), a0[i as int]);
                assert forall|m: int| left <= m < k + 1 && i + 1 <= mid implies #[trigger] temp@[m] <= a0[i + 1] by {
                    assert(l[i - left] <= l[i + 1 - left]);
                    if m < k {
                        assert(temp@[m] == t0[m]);
                    }
                }
                assert forall|m: int| left <= m < k + 1 && j <= right implies #[trigger] temp@[m] <= a0[j as int] by {
                    if m < k {
                        assert(temp@[m] == t0[m]);
                    }
                }
            }
            i = i + 1;
        } else {
            proof {
                let c = i - left;
                assert forall|x: int| 0 <= x < c implies #[trigger] l[x] <= a0[j as int] by {}
                assert forall|x: int| c <= x < l.len() implies #[trigger] l[x] > a0[j as int] by {
                    assert(l[c] <= l[x]);
                    assert(l[c] == a0[i as int]);
                }
                lemma_greater_split(l, c, a0[j as int]);
                assert(r.take(j - mid) =~= r.take(j - mid - 1).push(a0[j as int]));
                assert(r.take(j - mid).drop_last() =~= r.take(j - mid - 1));
                assert(r[j - mid - 1] == a0[j as int]);
                lemma_cross_prefix_bound(l, r, j - mid);
            }
            temp[k] = arr[j];
            count = count + (mid - i + 1);
            proof {
                lemma_step(t0, temp@, left as int, k as int, a0[j as int]);
                lemma_sorted_push(t0.subrange(left as int, k as int), a0[j as int]);
                assert forall|m: int| left <= m < k + 1 && i <= mid implies #[trigger] temp@[m] <= a0[i as int] by {
                    if m < k {
                        assert(temp@[m] == t0[m]);
                    }
                }
                assert forall|m: int| left <= m < k + 1 && j + 1 <= right implies #[trigger] temp@[m] <= a0[j + 1] by {
                    assert(r[j - mid - 1] <= r[j + 1 - mid - 1]);
                    if m < k {
                        assert(temp@[m] == t0[m]);
                    }
                }
                assert forall|x: int| 0 <= x < i - left && j + 1 <= right implies #[trigger] l[x] <= a0[j + 1] by {
                    assert(r[j - mid - 1] <= r[j + 1 - mid - 1]);
                }
            }
            j = j + 1;
        }
        k = k + 1;
    }
    while i <= mid
        invariant
            arr@ == a0,
            temp@.len() == a0.len(),
            left <= i <= mid + 1,
            mid + 1 <= j <= right + 1,
            i <= mid ==> j == right + 1,
            right < a0.len(),
            sorted(r),
            forall|m: int| left <= m < k && j <= right ==> #[trigger] temp@[m] <= a0[j as int],
            forall|c: int| 0 <= c < i - left && j <= right ==> #[trigger] l[c] <= a0[j as int],
            k == left + (i - left) + (j - mid - 1),
            l == a0.subrange(left as int, mid + 1),
            r == a0.subrange(mid + 1, right + 1),
            sorted(l),
            sorted(temp@.subrange(left as int, k as int)),
            temp@.subrange(left as int, k as int).to_multiset() == l.take(i - left).to_multiset().add(r.take(j - mid - 1).to_multiset()),
            forall|m: int| left <= m < k && i <= mid ==> #[trigger] temp@[m] <= a0[i as int],
            count == cross(l, r.take(j - mid - 1)),
        decreases mid + 1 - i,
    {
        let ghost t0 = temp@;
        temp[k] = arr[i];
        proof {
            lemma_step(t0, temp@, left as int, k as int, a0[i as int]);
            assert(l.take(i - left + 1) =~= l.take(i - left).push(a0[i as int]));
            assert(l[i - left] == a0[i as int]);
            lemma_sorted_push(t0.subrange(left as int, k as int), a0[i as int]);
            assert forall|m: int| left <= m < k + 1 && i + 1 <= mid implies #[trigger] temp@[m] <= a0[i + 1] by {
                assert(l[i - left] <= l[i + 1 - left]);
                if m < k {
                    assert(temp@[m] == t0[m]);
                }
            }
        }
        i = i + 1;
        k = k + 1;
    }
    proof {
        assert(l.take(l.len() as int) =~= l);
    }
    while j <= right
        invariant
            arr@ == a0,
            temp@.len() == a0.len(),
            i == mid + 1,
            left <= mid,
            mid + 1 <= j <= right + 1,
            right < a0.len(),
            k == left + (i - left) + (j - mid - 1),
            l == a0.subrange(left as int, mid + 1),
            r == a0.subrange(mid + 1, right + 1),
            sorted(l),
            sorted(r),
            sorted(temp@.subrange(left as int, k as int)),
            temp@.subrange(left as int, k as int).to_multiset() == l.to_multiset().add(r.take(j - mid - 1).to_multiset()),
            forall|m: int| left <= m < k && j <= right ==> #[trigger] temp@[m] <= a0[j as int],
            forall|c: int| 0 <= c < l.len() && j <= right ==> #[trigger] l[c] <= a0[j as int],
            count == cross(l, r.take(j - mid - 1)),
        decreases right + 1 - j,
    {
        let ghost t0 = temp@;
        proof {
            lemma_greater_split(l, l.len() as int, a0[j as int]);
            assert(r.take(j - mid).drop_last() =~= r.take(j - mid - 1));
            assert(r.take(j - mid) =~= r.take(j - mid - 1).push(a0[j as int]));
            assert(r[j - mid - 1] == a0[j as int]);
        }
        temp[k] = arr[j];
        proof {
            lemma_step(t0, temp@, left as int, k as int, a0[j as int]);
            lemma_sorted_push(t0.subrange(left as int, k as int), a0[j as int]);
            assert forall|m: int| left <= m < k + 1 && j + 1 <= right implies #[trigger] temp@[m] <= a0[j + 1] by {
                assert(r[j - mid - 1] <= r[j + 1 - mid - 1]);
                if m < k {
                    assert(temp@[m] == t0[m]);
                }
            }
            assert forall|c: int| 0 <= c < l.len() && j + 1 <= right implies #[trigger] l[c] <= a0[j + 1] by {
                assert(r[j - mid - 1] <= r[j + 1 - mid - 1]);
            }
        }
        j = j + 1;
        k = k + 1;
    }
    proof {
        assert(l.take(l.len() as int) =~= l);
        assert(r.take(r.len() as int) =~= r);
        assert(a0.subrange(left as int, right + 1) =~= l + r);
        vstd::seq_lib::lemma_multiset_commutative(l, r);
    }
    let ghost merged = temp@.subrange(left as int, right + 1);
    let mut t = left;
    while t <= right
        invariant
            left <= t <= right + 1,
            right < a0.len(),
            temp@.len() == a0.len(),
            merged == temp@.subrange(left as int, right + 1),
            arr@.len() == a0.len(),
            forall|x: int| left <= x < t ==> #[trigger] arr@[x] == temp@[x],
            forall|x: int| 0 <= x < a0.len() && !(left <= x < t) ==> #[trigger] arr@[x] == a0[x],
        decreases right + 1 - t,
    {
        arr[t] = temp[t];
        t = t + 1;
    }
    proof {
        assert(arr@.subrange(left as int, right + 1) =~= merged);
    }
    count
}

/// A sorted run stays sorted when an entry no smaller than all of it is appended.
proof fn lemma_sorted_push(s: Seq<usize>, x: usize)
    requires
        sorted(s),
        forall|m: int| 0 <= m < s.len() ==> #[trigger] s[m] <= x,
    ensures
        sorted(s.push(x)),
{
    assert forall|a: int, b: int| 0 <= a <= b < s.len() + 1 implies #[trigger] s.push(x)[a] <= #[trigger] s.push(x)[b] by {
        if b == s.len() {
            if a < s.len() {
                assert(s[a] <= x);
            }
        } else {
            assert(s[a] <= s[b]);
        }
    }
}

/// Appending `x` at position `k` of `temp` extends the merged run.
proof fn lemma_step(t0: Seq<usize>, t1: Seq<usize>, left: int, k: int, x: usize)
    requires
        0 <= left <= k < t0.len(),
        t1 == t0.update(k, x),
    ensures
        t1.subrange(left, k + 1) =~= t0.subrange(left, k).push(x),
{
}

proof fn lemma_cross_prefix_bound(a: Seq<usize>, b: Seq<usize>, c: int)
    requires
        0 <= c <= b.len(),
    ensures
        cross(a, b.take(c)) <= cross(a, b),
    decreases b.len() - c,
{
    if c < b.len() {
        lemma_cross_prefix_bound(a, b, c + 1);
        assert(b.take(c + 1).drop_last() =~= b.take(c));
    } else {
        assert(b.take(c) =~= b);
    }
}

proof fn lemma_inversions_bound(s: Seq<usize>)
    ensures
        inversions(s) <= s.len() * s.len(),
    decreases s.len(),
{
    if s.len() > 0 {
        lemma_inversions_bound(s.drop_last());
        lemma_greater_bound(s.drop_last(), s.last());
        assert((s.len() - 1) * (s.len() - 1) + (s.len() - 1) <= s.len() * s.len()) by (nonlinear_arith)
            requires
                s.len() >= 1,
        ;
    }
}

/// Sorts `arr[left..=right]` and returns its number of inversions before sorting.
pub fn merge_sort_and_count(arr: &mut [usize], temp: &mut [usize], left: usize, right: usize) -> (count: usize)
    requires
        left <= right < old(arr)@.len(),
        old(temp)@.len() == old(arr)@.len(),
        right - left < 0x8000,
    ensures
        final(temp)@.len() == old(temp)@.len(),
        same_outside(final(arr)@, old(arr)@, left as int, right + 1),
        sorted(final(arr)@.subrange(left as int, right + 1)),
        final(arr)@.subrange(left as int, right + 1).to_multiset() == old(arr)@.subrange(left as int, right + 1).to_multiset(),
        count == inversions(old(arr)@.subrange(left as int, right + 1)),
    decreases right - left,
{
    let ghost a0 = arr@;
    if left < right {
        let mid = left + (right - left) / 2;
        let c1 = merge_sort_and_count(arr, temp, left, mid);
        let ghost a1 = arr@;
        let c2 = merge_sort_and_count(arr, temp, mid + 1, right);
        let ghost a2 = arr@;
        let ghost l0 = a0.subrange(left as int, mid + 1);
        let ghost r0 = a0.subrange(mid + 1, right + 1);
        let ghost l = a2.subrange(left as int, mid + 1);
        let ghost r = a2.subrange(mid + 1, right + 1);
        proof {
            assert(l =~= a1.subrange(left as int, mid + 1));
            assert(a1.subrange(mid + 1, right + 1) =~= r0);
            lemma_cross_perm(l, r, l0, r0);
            assert(a0.subrange(left as int, right + 1) =~= l0 + r0);
            assert(a2.subrange(left as int, right + 1) =~= l + r);
            lemma_inversions_concat(l0, r0);
            lemma_inversions_bound(l0 + r0);
            assert((l0 + r0).len() * (l0 + r0).len() <= 0x8000 * 0x8000) by (nonlinear_arith)
                requires
                    (l0 + r0).len() <= 0x8000,
            ;
            vstd::seq_lib::lemma_multiset_commutative(l, r);
            vstd::seq_lib::lemma_multiset_commutative(l0, r0);
        }
        let c3 = merge_and_count(arr, temp, left, mid, right);
        proof {
            assert forall|x: int| 0 <= x < a0.len() && !(left <= x < right + 1) implies #[trigger] arr@[x] == a0[x] by {
                assert(a2[x] == a0[x]);
                assert(a1[x] == a0[x]);
            }
        }
        c1 + c2 + c3
    } else {
        proof {
            let seg = a0.subrange(left as int, right + 1);
            assert(seg.drop_last() =~= Seq::<usize>::empty());
            assert(inversions(Seq::<usize>::empty()) == 0);
            assert(greater(Seq::<usize>::empty(), seg.last()) == 0);
        }
        0
    }
}

/// The number of pairs `i < j` with `q[i] > q[j]`.
pub fn count_inversions_fast(q: &[usize]) -> (count: usize)
    requires
        q@.len() <= 0x8000,
    ensures
        count == inversions(q@),
{
    if q.len() <= 1 {
        proof {
            assert(inversions(Seq::<usize>::empty()) == 0);
            if q@.len() == 1 {
                assert(q@.drop_last() =~= Seq::<usize>::empty());
                assert(greater(Seq::<usize>::empty(), q@.last()) == 0);
            } else {
                assert(q@ =~= Seq::<usize>::empty());
            }
        }
        return 0;
    }
    let mut arr: Vec<usize> = Vec::new();
    let mut temp: Vec<usize> = Vec::new();
    let mut i: usize = 0;
    while i < q.len()
        invariant
            i <= q@.len(),
            arr@ == q@.take(i as int),
            temp@.len() == i,
        decreases q@.len() - i,
    {
        arr.push(q[i]);
        temp.push(0);
        i = i + 1;
        assert(arr@ =~= q@.take(i as int));
    }
    let len = arr.len();
    assert(arr@.subrange(0, len as int) =~= q@);
    merge_sort_and_count(arr.as_mut_slice(), temp.as_mut_slice(), 0, len - 1)
}

} // verus!
