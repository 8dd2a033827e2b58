//! The subset sum of ten numbers closest to 100, preferring the larger sum on a tie.
use vstd::prelude::*;

verus! {

/// The sum the solver aims at.
pub const TARGET: i32 = 100;

/// Element `i` belongs to the subset that `mask` encodes.
pub open spec fn picks(mask: u32, i: u32) -> bool {
    mask & (1u32 << i) != 0
}

/// The sum of the first `k` numbers that `mask` picks.
pub open spec fn subset_sum(nums: Seq<i32>, mask: u32, k: nat) -> int
    decreases k,
{
    if k == 0 {
        0
    } else {
        subset_sum(nums, mask, (k - 1) as nat) + if picks(mask, (k - 1) as u32) {
            nums[k - 1] as int
        } else {
            0
        }
    }
}

pub open spec fn dist(s: int) -> int {
    if s >= TARGET {
        s - TARGET
    } else {
        TARGET - s
    }
}

/// `a` is at least as good as `b`: closer to the target, or as close and not smaller.
pub open spec fn no_worse(a: int, b: int) -> bool {
    dist(a) < dist(b) || (dist(a) == dist(b) && a >= b)
}

/// Numbers small enough that every subset sum fits.
pub open spec fn small(nums: Seq<i32>) -> bool {
    &&& nums.len() >= 10
    &&& forall|i: int| 0 <= i < 10 ==> -200_000_000 <= #[trigger] nums[i] <= 200_000_000
}

proof fn lemma_subset_sum_bound(nums: Seq<i32>, mask: u32, k: nat)
    requires
        small(nums),
        k <= 10,
    ensures
        -200_000_000 * k <= subset_sum(nums, mask, k) <= 200_000_000 * k,
    decreases k,
{
    if k > 0 {
        lemma_subset_sum_bound(nums, mask, (k - 1) as nat);
    }
}

/// The subset sum of the first ten numbers closest to 100; of two equally
/// close sums, the larger.
pub fn solve(nums: &[i32]) -> (r: i32)
    requires
        small(nums@),
    ensures
        exists|mask: u32| mask < 1024 && r == subset_sum(nums@, mask, 10),
        forall|mask: u32| mask < 1024 ==> no_worse(r as int, #[trigger] subset_sum(nums@, mask, 10)),
{
    let mut best_sum: i32 = 0;
    let mut best_dist: i32 = TARGET;
    let mut mask: u32 = 0;
    assert(subset_sum(nums@, 0, 10) == 0) by {
        assert forall|k: nat| k <= 10 implies subset_sum(nums@, 0, k) == 0 by {
            lemma_empty_mask(nums@, k);
        }
    }
    while mask < 1024
        invariant
            small(nums@),
            mask <= 1024,
            best_dist == dist(best_sum as int),
            exists|m: u32| m < 1024 && best_sum == subset_sum(nums@, m, 10),
            forall|m: u32| m < mask ==> no_worse(best_sum as int, #[trigger] subset_sum(nums@, m, 10)),
            mask == 0 ==> best_sum == 0,
        decreases 1024 - mask,
    {
        let mut sum: i32 = 0;
        let mut i: u32 = 0;
        while i < 10
            invariant
                small(nums@),
                i <= 10,
                sum == subset_sum(nums@, mask, i as nat),
            decreases 10 - i,
        {
            proof {
                lemma_subset_sum_bound(nums@, mask, (i + 1) as nat);
            }
            if mask & (1u32 << i) != 0 {
                sum = sum + nums[i as usize];
            }
            i = i + 1;
        }
        proof {
            lemma_subset_sum_bound(nums@, mask, 10);
        }
        let d = if sum >= TARGET { sum - TARGET } else { TARGET - sum };
        if d < best_dist || (d == best_dist && sum > best_sum) {
            best_sum = sum;
            best_dist = d;
        }
        proof {
            if mask == 0 {
                assert(subset_sum(nums@, 0, 10) == 0) by {
                    lemma_empty_mask(nums@, 10);
                }
            }
        }
        mask = mask + 1;
    }
    best_sum
}

proof fn lemma_empty_mask(nums: Seq<i32>, k: nat)
    requires
        k <= 10,
    ensures
        subset_sum(nums, 0, k) == 0,
    decreases k,
{
    if k > 0 {
        lemma_empty_mask(nums, (k - 1) as nat);
        let i = (k - 1) as u32;
        assert(0u32 & (1u32 << i) == 0) by (bit_vector);
    }
}

} // verus!
