//! The two numbers made of nines, each as long as `n - 1` has digits.
use vstd::prelude::*;
use vstd::string::StringExecFns;

verus! {

/// `10^k`
pub open spec fn pow10(k: nat) -> nat
    decreases k,
{
    if k == 0 {
        1
    } else {
        10 * pow10((k - 1) as nat)
    }
}

/// How many decimal digits `x` has (0 has one).
pub open spec fn digits(x: nat) -> nat
    decreases x,
{
    if x < 10 {
        1
    } else {
        1 + digits(x / 10)
    }
}

/// `m` nines.
pub open spec fn nines(m: nat) -> Seq<char> {
    Seq::new(m, |i: int| '9')
}

proof fn lemma_digits(x: nat, k: nat)
    requires
        k >= 1,
        pow10((k - 1) as nat) <= x || k == 1,
        x < pow10(k),
    ensures
        digits(x) == k,
    decreases k,
{
    if k > 1 {
        assert(pow10((k - 1) as nat) == 10 * pow10((k - 2) as nat));
        assert(x >= 10) by {
            lemma_pow10_positive((k - 2) as nat);
        }
        lemma_digits(x / 10, (k - 1) as nat);
    } else {
        assert(pow10(1) == 10) by {
            assert(pow10(0) == 1);
        }
    }
}

proof fn lemma_pow10_positive(k: nat)
    ensures
        pow10(k) >= 1,
    decreases k,
{
    if k > 0 {
        lemma_pow10_positive((k - 1) as nat);
    }
}

/// Both numbers of the answer for `n`: `digits(n - 1)` nines each, and one nine
/// when `n - 1` is not positive.
pub fn solve(n: i32) -> (r: (String, String))
    ensures
        n - 1 >= 0 ==> r.0@ == nines(digits((n - 1) as nat)),
        n - 1 < 0 ==> r.0@ == nines(1),
        r.1@ == r.0@,
{
    let target: i64 = n as i64 - 1;
    let mut m: usize = 0;
    let mut limit: i64 = 1;
    while limit <= target
        invariant
            limit == pow10(m as nat),
            m <= 10,
            target <= 0x7fff_fffe,
            m >= 1 ==> pow10((m - 1) as nat) <= target,
            m >= 1 ==> target >= 1,
        decreases 10 - m,
    {
        assert(m < 10) by {
            if m >= 10 {
                lemma_pow10_ge(m as nat);
            }
        }
        limit = limit * 10;
        m = m + 1;
        proof {
            lemma_pow10_positive((m - 1) as nat);
        }
    }
    if m == 0 {
        m = 1;
    }
    proof {
        if target >= 0 {
            lemma_digits(target as nat, m as nat);
        }
    }
    let mut s = String::new();
    let mut i: usize = 0;
    while i < m
        invariant
            i <= m,
            s@ == nines(i as nat),
        decreases m - i,
    {
        proof {
            reveal_strlit("9");
        }
        s.append("9");
        i = i + 1;
        assert(s@ =~= nines(i as nat));
    }
    let t = s.clone();
    (s, t)
}

proof fn lemma_pow10_ge(k: nat)
    requires
        k >= 10,
    ensures
        pow10(k) >= 10_000_000_000,
    decreases k,
{
    if k > 10 {
        lemma_pow10_ge((k - 1) as nat);
    } else {
        reveal_with_fuel(pow10, 11);
        assert(pow10(10) == 10_000_000_000);
    }
}

} // verus!
