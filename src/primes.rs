//! Prime tools for counting the divisors of a quotient of a factorial:
//! integer square roots and Legendre's formula.
use vstd::arithmetic::div_mod::{
    lemma_div_denominator,
    lemma_div_is_ordered_by_denominator,
    lemma_div_pos_is_pos,
    lemma_add_mod_noop,
    lemma_fundamental_div_mod,
    lemma_mod_multiples_basic,
    lemma_small_mod,
};
use vstd::arithmetic::power::pow;
use vstd::prelude::*;

verus! {

/// `floor(sqrt(n))` for `n >= 2`; smaller `n` is returned as it is.
pub fn int_sqrt(n: i32) -> (r: i32)
    ensures
        n < 2 ==> r == n,
        n >= 2 ==> 1 <= r && r * r <= n < (r + 1) * (r + 1),
{
    if n < 2 {
        return n;
    }
    let mut left: i32 = 1;
    let mut right: i32 = n;
    assert(n < (n + 1) * (n + 1)) by (nonlinear_arith)
        requires
            n >= 2,
    ;
    while left < right
        invariant
            2 <= n,
            1 <= left <= right <= n,
            left * left <= n,
            n < (right + 1) * (right + 1),
        decreases right - left,
    {
        let mid = ((left as i64 + right as i64 + 1) / 2) as i32;
        assert(left < mid <= right);
        assert((mid as i64) * (mid as i64) <= 0x7fff_ffff * 0x7fff_ffff) by (nonlinear_arith)
            requires
                1 <= mid <= 0x7fff_ffff,
        ;
        let sq = (mid as i64) * (mid as i64);
        if sq <= n as i64 {
            left = mid;
        } else {
            right = mid - 1;
        }
    }
    left
}

/// `n/power + n/(power*p) + n/(power*p^2) + ...`, over the powers that do not exceed `n`.
pub open spec fn legendre_from(n: nat, p: nat, power: nat) -> nat
    decreases room(n, power),
    when p >= 2 && power >= 1
    via legendre_from_decreases
{
    if power > n {
        0
    } else {
        n / power + legendre_from(n, p, power * p)
    }
}

/// How far `power` is from passing `n`.
pub open spec fn room(n: nat, power: nat) -> nat {
    if power > n {
        0
    } else {
        (n + 1 - power) as nat
    }
}

#[via_fn]
proof fn legendre_from_decreases(n: nat, p: nat, power: nat) {
    if power <= n {
        assert(power * p > power) by (nonlinear_arith)
            requires
                p >= 2,
                power >= 1,
        ;
    }
}

/// The exponent of `p` in `n!`: `sum over i >= 1 of floor(n / p^i)`.
pub open spec fn legendre_spec(n: nat, p: nat) -> nat {
    legendre_from(n, p, p)
}

proof fn lemma_legendre_bound(n: nat, p: nat, power: nat)
    requires
        p >= 2,
        power >= 1,
    ensures
        legendre_from(n, p, power) <= 2 * (n / power),
    decreases room(n, power),
{
    if power <= n {
        assert(power * p > power) by (nonlinear_arith)
            requires
                p >= 2,
                power >= 1,
        ;
        lemma_legendre_bound(n, p, power * p);
        lemma_div_denominator(n as int, power as int, p as int);
        lemma_div_is_ordered_by_denominator((n / power) as int, 2, p as int);
        let q = n / power;
        assert(2 * (q / 2) <= q) by (nonlinear_arith);
        assert(n / (power * p) <= q / 2);
    }
}

/// The exponent of the prime `p` in `n!`, by Legendre's formula.
pub fn legendre(n: i64, p: i64) -> (r: i64)
    requires
        n >= 0,
        p >= 2,
        n <= i64::MAX / p,
    ensures
        r == legendre_spec(n as nat, p as nat),
{
    let mut result: i64 = 0;
    let mut power = p;
    proof {
        lemma_legendre_bound(n as nat, p as nat, p as nat);
        lemma_div_is_ordered_by_denominator(n as int, 2, p as int);
        assert(2 * (n / 2) <= n) by (nonlinear_arith);
    }
    while power <= n
        invariant
            n >= 0,
            p >= 2,
            n <= i64::MAX / p,
            power >= 1,
            0 <= result,
            result + legendre_from(n as nat, p as nat, power as nat) == legendre_spec(n as nat, p as nat),
            legendre_spec(n as nat, p as nat) <= n,
        decreases room(n as nat, power as nat),
    {
        assert(power * p <= i64::MAX && power * p > power) by (nonlinear_arith)
            requires
                power <= n,
                n <= i64::MAX / p,
                p >= 2,
                power >= 1,
        ;
        proof {
            lemma_div_pos_is_pos(n as int, power as int);
        }
        result = result + n / power;
        power = power * p;
    }
    result
}

/// `x` is prime.
pub open spec fn is_prime(x: int) -> bool {
    x >= 2 && forall|d: int| 2 <= d < x ==> #[trigger] (x % d) != 0
}

/// No `d` in `[2, i)` with `d * d <= x` divides `x`.
pub open spec fn no_small_factor(x: int, i: int) -> bool {
    forall|d: int| 2 <= d < i && d * d <= x ==> #[trigger] (x % d) != 0
}

/// Divisibility is transitive.
proof fn lemma_divides_trans(d: int, x: int, y: int)
    requires
        d > 0,
        x > 0,
        x % d == 0,
        y % x == 0,
    ensures
        y % d == 0,
{
    lemma_fundamental_div_mod(x, d);
    lemma_fundamental_div_mod(y, x);
    let a = x / d;
    let b = y / x;
    assert(y == (a * b) * d) by (nonlinear_arith)
        requires
            x == d * a,
            y == x * b,
    ;
    lemma_mod_multiples_basic(a * b, d);
}

/// A number with a divisor in `[2, x)` has one whose square does not exceed it.
proof fn lemma_small_divisor(x: int, d: int) -> (e: int)
    requires
        2 <= d < x,
        x % d == 0,
    ensures
        2 <= e,
        e * e <= x,
        x % e == 0,
{
    if d * d <= x {
        d
    } else {
        lemma_fundamental_div_mod(x, d);
        let e = x / d;
        assert(x == d * e);
        assert(2 <= e && e * e <= x) by (nonlinear_arith)
            requires
                x == d * e,
                2 <= d < x,
                d * d > x,
        ;
        lemma_mod_multiples_basic(d, e);
        assert(x == d * e);
        e
    }
}

/// Strikes the multiples of the prime `i` from `i * i` on.
fn strike(flags: &mut Vec<bool>, i: i32, n: i32)
    requires
        2 <= n <= 0x7fff_0000,
        2 <= i <= 46340,
        i * i <= n,
        old(flags)@.len() == n + 1,
        forall|x: int| 0 <= x <= n ==> #[trigger] old(flags)@[x] == (x >= 2 && no_small_factor(x, i as int)),
    ensures
        final(flags)@.len() == n + 1,
        forall|x: int| 0 <= x <= n ==> #[trigger] final(flags)@[x] == (x >= 2 && no_small_factor(x, i as int) && !(i * i
            <= x && x % (i as int) == 0)),
{
    let mut j: i32 = i * i;
    proof {
        lemma_mod_multiples_basic(i as int, i as int);
    }
    while j <= n
        invariant
            2 <= n <= 0x7fff_0000,
            2 <= i <= 46340,
            i * i <= j <= n + i,
            (j as int) % (i as int) == 0,
            flags@.len() == n + 1,
            forall|x: int| 0 <= x <= n ==> #[trigger] flags@[x] == (x >= 2 && no_small_factor(x, i as int) && !(i * i <= x < j
                && x % (i as int) == 0)),
        decreases n + i - j,
    {
        let ghost f0 = flags@;
        flags.set(j as usize, false);
        proof {
            assert forall|x: int| j < x < j + i implies #[trigger] (x % (i as int)) != 0 by {
                lemma_add_mod_noop(j as int, x - j, i as int);
                lemma_small_mod((x - j) as nat, i as nat);
            }
            assert forall|x: int| 0 <= x <= n implies #[trigger] flags@[x] == (x >= 2 && no_small_factor(x, i as int) && !(i
                * i <= x < j + i && x % (i as int) == 0)) by {
                if x != j {
                    assert(flags@[x] == f0[x]);
                }
            }
            lemma_fundamental_div_mod(j as int, i as int);
            let m = j / i;
            assert((j + i) == (m + 1) * i) by (nonlinear_arith)
                requires
                    j == i * m,
            ;
            lemma_mod_multiples_basic(m + 1, i as int);
        }
        j = j + i;
    }
}

/// The indices from 2 to `n` whose flag is set, in increasing order.
fn collect(flags: &Vec<bool>, n: i32) -> (primes: Vec<i32>)
    requires
        2 <= n <= 0x7fff_0000,
        flags@.len() == n + 1,
        forall|y: int| 2 <= y <= n ==> #[trigger] flags@[y] == is_prime(y),
    ensures
        forall|k: int| 0 <= k < primes@.len() ==> is_prime(#[trigger] primes@[k] as int) && primes@[k] <= n,
        forall|k1: int, k2: int| 0 <= k1 < k2 < primes@.len() ==> #[trigger] primes@[k1] < #[trigger] primes@[k2],
        forall|x: int| #[trigger] is_prime(x) && x <= n ==> exists|k: int| 0 <= k < primes@.len() && primes@[k] == x,
{
    let mut primes: Vec<i32> = Vec::new();
    let mut x: i32 = 2;
    while x <= n
        invariant
            2 <= x <= n + 1,
            n <= 0x7fff_0000,
            flags@.len() == n + 1,
            forall|y: int| 2 <= y <= n ==> #[trigger] flags@[y] == is_prime(y),
            forall|k: int| 0 <= k < primes@.len() ==> is_prime(#[trigger] primes@[k] as int) && primes@[k] < x,
            forall|k1: int, k2: int| 0 <= k1 < k2 < primes@.len() ==> #[trigger] primes@[k1] < #[trigger] primes@[k2],
            forall|y: int| #[trigger] is_prime(y) && y < x ==> exists|k: int| 0 <= k < primes@.len() && primes@[k] == y,
        decreases n + 1 - x,
    {
        let ghost before = primes@;
        let f = flags[x as usize];
        assert(f == is_prime(x as int));
        if f {
            primes.push(x);
            proof {
                assert forall|k: int| 0 <= k < primes@.len() implies is_prime(#[trigger] primes@[k] as int) && primes@[k]
                    < x + 1 by {
                    if k < before.len() {
                        assert(primes@[k] == before[k]);
                    }
                }
                assert forall|k1: int, k2: int| 0 <= k1 < k2 < primes@.len() implies #[trigger] primes@[k1]
                    < #[trigger] primes@[k2] by {
                    assert(primes@[k1] == before[k1]);
                    assert(before[k1] < x);
                    if k2 < before.len() {
                        assert(primes@[k2] == before[k2]);
                    }
                }
                assert forall|y: int| #[trigger] is_prime(y) && y < x + 1 implies exists|k: int|
                    0 <= k < primes@.len() && primes@[k] == y by {
                    if y < x {
                        let k = choose|k: int| 0 <= k < before.len() && before[k] == y;
                        assert(primes@[k] == y);
                    } else {
                        assert(primes@[before.len() as int] == y);
                    }
                }
            }
        } else {
            proof {
                assert forall|y: int| #[trigger] is_prime(y) && y < x + 1 implies exists|k: int|
                    0 <= k < primes@.len() && primes@[k] == y by {
                    if y == x {
                        assert(false);
                    }
                }
            }
        }
        x = x + 1;
    }
    primes
}

/// The primes up to `n`, in increasing order.
pub fn sieve(n: i32) -> (primes: Vec<i32>)
    requires
        n <= 0x7fff_0000,
    ensures
        forall|k: int| 0 <= k < primes@.len() ==> is_prime(#[trigger] primes@[k] as int) && primes@[k] <= n,
        forall|k1: int, k2: int| 0 <= k1 < k2 < primes@.len() ==> #[trigger] primes@[k1] < #[trigger] primes@[k2],
        forall|x: int| #[trigger] is_prime(x) && x <= n ==> exists|k: int| 0 <= k < primes@.len() && primes@[k] == x,
{
    if n < 2 {
        return Vec::new();
    }
    let mut flags: Vec<bool> = Vec::new();
    let mut k: i32 = 0;
    while k <= n
        invariant
            2 <= n <= 0x7fff_0000,
            0 <= k <= n + 1,
            flags@.len() == k,
            forall|x: int| 0 <= x < k ==> #[trigger] flags@[x] == (x >= 2),
        decreases n + 1 - k,
    {
        flags.push(k >= 2);
        k = k + 1;
    }
    let mut i: i32 = 2;
    loop
        invariant
            2 <= n <= 0x7fff_0000,
            2 <= i <= 46341,
            flags@.len() == n + 1,
            forall|x: int| 0 <= x <= n ==> #[trigger] flags@[x] == (x >= 2 && no_small_factor(x, i as int)),
        ensures
            i * i > n,
            2 <= i,
            flags@.len() == n + 1,
            forall|x: int| 0 <= x <= n ==> #[trigger] flags@[x] == (x >= 2 && no_small_factor(x, i as int)),
        decreases 46341 - i,
    {
        assert((i as i64) * (i as i64) <= 46341 * 46341) by (nonlinear_arith)
            requires
                2 <= i <= 46341,
        ;
        if (i as i64) * (i as i64) > n as i64 {
            break;
        }
        assert(i <= 46340 && i <= n) by (nonlinear_arith)
            requires
                i * i <= n,
                n <= 0x7fff_0000,
                i >= 2,
        ;
        let ghost f0 = flags@;
        if flags[i as usize] {
            strike(&mut flags, i, n);
            proof {
                assert forall|x: int| 0 <= x <= n implies #[trigger] flags@[x] == (x >= 2 && no_small_factor(x, i + 1)) by {
                    if x >= 2 && no_small_factor(x, i as int) && !(i * i <= x && x % (i as int) == 0) {
                        assert(no_small_factor(x, i + 1));
                    }
                }
            }
        } else {
            proof {
                // i is composite: a smaller factor already struck every multiple of i.
                assert(!no_small_factor(i as int, i as int));
                let d = choose|d: int| 2 <= d < i && d * d <= i && #[trigger] ((i as int) % d) != 0 == false;
                assert forall|x: int| 0 <= x <= n implies #[trigger] flags@[x] == (x >= 2 && no_small_factor(x, i + 1)) by {
                    if x >= 2 && no_small_factor(x, i as int) && i * i <= x && x % (i as int) == 0 {
                        lemma_divides_trans(d, i as int, x);
                        assert(d * d <= x) by (nonlinear_arith)
                            requires
                                d * d <= i,
                                i * i <= x,
                                i >= 2,
                        ;
                    }
                }
            }
        }
        i = i + 1;
    }
    proof {
        assert forall|x: int| 2 <= x <= n implies #[trigger] flags@[x] == is_prime(x) by {
            if no_small_factor(x, i as int) && !is_prime(x) {
                let d = choose|d: int| 2 <= d < x && #[trigger] (x % d) == 0;
                let e = lemma_small_divisor(x, d);
                assert(e < i) by (nonlinear_arith)
                    requires
                        e * e <= x,
                        x <= n,
                        i * i > n,
                        e >= 2,
                        i >= 2,
                ;
            }
            if is_prime(x) {
                assert forall|d: int| 2 <= d < i && d * d <= x implies #[trigger] (x % d) != 0 by {
                    assert(d < x) by (nonlinear_arith)
                        requires
                            d * d <= x,
                            d >= 2,
                    ;
                }
            }
        }
    }
    collect(&flags, n)
}

/// The product of every listed prime raised to its exponent.
pub open spec fn product(f: Seq<(i32, i32)>) -> int
    decreases f.len(),
{
    if f.len() == 0 {
        1
    } else {
        product(f.drop_last()) * pow(f.last().0 as int, f.last().1 as nat)
    }
}

/// `f` lists distinct primes in increasing order, each with a positive exponent.
pub open spec fn prime_powers(f: Seq<(i32, i32)>) -> bool {
    &&& forall|k: int| 0 <= k < f.len() ==> is_prime((#[trigger] f[k]).0 as int) && f[k].1 >= 1
    &&& forall|k1: int, k2: int| 0 <= k1 < k2 < f.len() ==> #[trigger] f[k1].0 < #[trigger] f[k2].0
}

/// No `d` in `[2, i)` divides `x`.
pub open spec fn free_below(x: int, i: int) -> bool {
    forall|d: int| 2 <= d < i ==> #[trigger] (x % d) != 0
}

/// The prime factorization of `n` by trial division, primes in increasing
/// order; empty for `n <= 1`.
pub fn factorize(n: i32) -> (f: Vec<(i32, i32)>)
    ensures
        prime_powers(f@),
        n >= 1 ==> product(f@) == n,
        n <= 1 ==> f@.len() == 0,
{
    let mut f: Vec<(i32, i32)> = Vec::new();
    let mut num = n;
    let mut i: i32 = 2;
    if n <= 1 {
        return f;
    }
    loop
        invariant
            n >= 1,
            1 <= num <= n,
            2 <= i <= 46341,
            n == num * product(f@),
            prime_powers(f@),
            forall|k: int| 0 <= k < f@.len() ==> #[trigger] f@[k].0 < i,
            free_below(num as int, i as int),
        ensures
            n >= 1,
            1 <= num <= n,
            2 <= i,
            i * i > num,
            n == num * product(f@),
            prime_powers(f@),
            forall|k: int| 0 <= k < f@.len() ==> #[trigger] f@[k].0 < i,
            free_below(num as int, i as int),
        decreases 46341 - i,
    {
        assert((i as i64) * (i as i64) <= 46341 * 46341) by (nonlinear_arith)
            requires
                2 <= i <= 46341,
        ;
        if (i as i64) * (i as i64) > num as i64 {
            break;
        }
        assert(i < 46341 && i <= num) by (nonlinear_arith)
            requires
                i * i <= num,
                num <= 0x7fff_ffff,
                i >= 2,
        ;
        let ghost num0 = num;
        let mut count: i32 = 0;
        proof {
            vstd::arithmetic::power::lemma_pow0(i as int);
        }
        while num % i == 0
            invariant
                2 <= i <= num0,
                1 <= num <= num0,
                0 <= count <= 31,
                num0 == num * pow(i as int, count as nat),
                free_below(num as int, i as int),
                count > 0 ==> is_prime(i as int),
                free_below(num0 as int, i as int),
                num0 <= 0x7fff_ffff,
            decreases num,
        {
            proof {
                lemma_fundamental_div_mod(num as int, i as int);
                if count == 0 {
                    assert forall|d: int| 2 <= d < i implies #[trigger] ((i as int) % d) != 0 by {
                        if (i as int) % d == 0 {
                            lemma_divides_trans(d, i as int, num as int);
                        }
                    }
                }
                lemma_pow_positive_bound(i as int, count as nat, num0 as int, num as int);
            }
            let q = num / i;
            proof {
                vstd::arithmetic::power::lemma_pow_adds(i as int, count as nat, 1);
                vstd::arithmetic::power::lemma_pow1(i as int);
                assert(num0 == q * pow(i as int, (count + 1) as nat)) by (nonlinear_arith)
                    requires
                        num0 == num * pow(i as int, count as nat),
                        num == i * q,
                        pow(i as int, (count + 1) as nat) == pow(i as int, count as nat) * i,
                ;
                assert(1 <= q < num) by (nonlinear_arith)
                    requires
                        num == i * q,
                        i >= 2,
                        num >= 1,
                ;
                assert forall|d: int| 2 <= d < i implies #[trigger] ((q as int) % d) != 0 by {
                    if (q as int) % d == 0 {
                        lemma_mod_multiples_basic(q as int, i as int);
                        assert((num as int) % (q as int) == 0) by {
                            lemma_mod_multiples_basic(i as int, q as int);
                            assert(num == i * q);
                        }
                        lemma_divides_trans(d, q as int, num as int);
                    }
                }
            }
            num = q;
            count = count + 1;
        }
        if count > 0 {
            let ghost f0 = f@;
            f.push((i, count));
            proof {
                assert(f@.drop_last() =~= f0);
                assert(product(f@) == product(f0) * pow(i as int, count as nat));
                assert(n == num * product(f@)) by (nonlinear_arith)
                    requires
                        n == num0 * product(f0),
                        num0 == num * pow(i as int, count as nat),
                        product(f@) == product(f0) * pow(i as int, count as nat),
                ;
                assert forall|k1: int, k2: int| 0 <= k1 < k2 < f@.len() implies #[trigger] f@[k1].0 < #[trigger] f@[k2].0 by {
                    assert(f@[k1] == f0[k1]);
                    if k2 < f0.len() {
                        assert(f@[k2] == f0[k2]);
                    }
                }
                assert forall|k: int| 0 <= k < f@.len() implies is_prime((#[trigger] f@[k]).0 as int) && f@[k].1 >= 1 by {
                    if k < f0.len() {
                        assert(f@[k] == f0[k]);
                    }
                }
            }
        }
        proof {
            assert forall|d: int| 2 <= d < i + 1 implies #[trigger] ((num as int) % d) != 0 by {}
            assert forall|k: int| 0 <= k < f@.len() implies #[trigger] f@[k].0 < i + 1 by {}
        }
        i = i + 1;
    }
    if num > 1 {
        let ghost f0 = f@;
        proof {
            assert forall|d: int| 2 <= d < num implies #[trigger] ((num as int) % d) != 0 by {
                if (num as int) % d == 0 {
                    let e = lemma_small_divisor(num as int, d);
                    assert(e < i) by (nonlinear_arith)
                        requires
                            e * e <= num,
                            i * i > num,
                            e >= 2,
                            i >= 2,
                    ;
                }
            }
            assert(num >= i) by {
                if num < i {
                    assert((num as int) % (num as int) == 0) by {
                        lemma_mod_multiples_basic(1, num as int);
                    }
                }
            }
        }
        f.push((num, 1));
        proof {
            assert(f@.drop_last() =~= f0);
            vstd::arithmetic::power::lemma_pow1(num as int);
            assert(product(f@) == product(f0) * num);
            assert(n == product(f@)) by (nonlinear_arith)
                requires
                    n == num * product(f0),
                    product(f@) == product(f0) * num,
            ;
            assert forall|k1: int, k2: int| 0 <= k1 < k2 < f@.len() implies #[trigger] f@[k1].0 < #[trigger] f@[k2].0 by {
                assert(f@[k1] == f0[k1]);
                if k2 < f0.len() {
                    assert(f@[k2] == f0[k2]);
                }
            }
            assert forall|k: int| 0 <= k < f@.len() implies is_prime((#[trigger] f@[k]).0 as int) && f@[k].1 >= 1 by {
                if k < f0.len() {
                    assert(f@[k] == f0[k]);
                }
            }
        }
    } else {
        assert(num == 1);
        assert(n == product(f@)) by (nonlinear_arith)
            requires
                num == 1,
                n == num * product(f@),
        ;
    }
    f
}

/// `i^count` divides `num0` with quotient `num`, so `count` stays below 31.
proof fn lemma_pow_positive_bound(i: int, count: nat, num0: int, num: int)
    requires
        i >= 2,
        num >= 1,
        num0 == num * pow(i, count),
        num0 <= 0x7fff_ffff,
    ensures
        count < 31,
        pow(i, count) >= 1,
{
    vstd::arithmetic::power::lemma_pow_positive(i, count);
    if count >= 31 {
        vstd::arithmetic::power::lemma_pow_increases(2, 31, count);
        lemma_pow_base_le(2, i, count);
        assert(pow(2, 31) == 0x8000_0000) by {
            vstd::arithmetic::power2::lemma2_to64();
            vstd::arithmetic::power2::lemma_pow2(31);
        }
        assert(num * pow(i, count) >= pow(i, count)) by (nonlinear_arith)
            requires
                num >= 1,
                pow(i, count) >= 1,
        ;
    }
}

proof fn lemma_pow_base_le(a: int, b: int, e: nat)
    requires
        1 <= a <= b,
    ensures
        pow(a, e) <= pow(b, e),
    decreases e,
{
    reveal(pow);
    if e > 0 {
        lemma_pow_base_le(a, b, (e - 1) as nat);
        vstd::arithmetic::power::lemma_pow_positive(a, (e - 1) as nat);
        assert(pow(a, e) == a * pow(a, (e - 1) as nat));
        assert(pow(b, e) == b * pow(b, (e - 1) as nat));
        assert(a * pow(a, (e - 1) as nat) <= b * pow(b, (e - 1) as nat)) by (nonlinear_arith)
            requires
                1 <= a <= b,
                1 <= pow(a, (e - 1) as nat) <= pow(b, (e - 1) as nat),
        ;
    }
}

/// For every prime `p <= threshold`, in increasing order, the exponent of `p`
/// in `n!`.
pub fn factorize_factorial_small(n: i64, threshold: i64) -> (f: Vec<(i64, i64)>)
    requires
        0 <= n,
        2 <= threshold <= 0x7fff_0000,
        n <= i64::MAX / threshold,
    ensures
        forall|k: int| 0 <= k < f@.len() ==> is_prime(#[trigger] f@[k].0 as int) && f@[k].0 <= threshold
            && f@[k].1 == legendre_spec(n as nat, f@[k].0 as nat),
        forall|k1: int, k2: int| 0 <= k1 < k2 < f@.len() ==> #[trigger] f@[k1].0 < #[trigger] f@[k2].0,
        forall|x: int| #[trigger] is_prime(x) && x <= threshold ==> exists|k: int| 0 <= k < f@.len() && f@[k].0 == x,
{
    let primes = sieve(threshold as i32);
    let mut f: Vec<(i64, i64)> = Vec::new();
    let mut k: usize = 0;
    while k < primes.len()
        invariant
            0 <= n,
            2 <= threshold <= 0x7fff_0000,
            n <= i64::MAX / threshold,
            k <= primes@.len(),
            f@.len() == k,
            forall|j: int| 0 <= j < primes@.len() ==> is_prime(#[trigger] primes@[j] as int) && primes@[j] <= threshold,
            forall|j: int| 0 <= j < k ==> #[trigger] f@[j].0 == primes@[j] as i64 && f@[j].1 == legendre_spec(n as nat, primes@[j] as nat),
        decreases primes@.len() - k,
    {
        let p = primes[k] as i64;
        proof {
            lemma_div_is_ordered_by_denominator(i64::MAX as int, p as int, threshold as int);
        }
        let e = legendre(n, p);
        let ghost f0 = f@;
        f.push((p, e));
        proof {
            assert forall|j: int| 0 <= j < k + 1 implies #[trigger] f@[j].0 == primes@[j] as i64 && f@[j].1
                == legendre_spec(n as nat, primes@[j] as nat) by {
                if j < k {
                    assert(f@[j] == f0[j]);
                }
            }
        }
        k = k + 1;
    }
    proof {
        assert forall|x: int| #[trigger] is_prime(x) && x <= threshold implies exists|j: int| 0 <= j < f@.len() && f@[j].0 == x by {
            let j = choose|j: int| 0 <= j < primes@.len() && primes@[j] == x;
            assert(f@[j].0 == x);
        }
        assert forall|k1: int, k2: int| 0 <= k1 < k2 < f@.len() implies #[trigger] f@[k1].0 < #[trigger] f@[k2].0 by {
            assert(primes@[k1] < primes@[k2]);
        }
    }
    f
}

/// The sum of the exponents.
pub open spec fn total_exp(f: Seq<(i32, i32)>) -> int
    decreases f.len(),
{
    if f.len() == 0 {
        0
    } else {
        total_exp(f.drop_last()) + f.last().1
    }
}

/// The exponent of `p` in `f`, 0 when `p` is not listed.
pub open spec fn exponent_of(f: Seq<(i32, i32)>, p: int) -> int
    decreases f.len(),
{
    if f.len() == 0 {
        0
    } else if f.last().0 == p {
        f.last().1 as int
    } else {
        exponent_of(f.drop_last(), p)
    }
}

proof fn lemma_concat(s: Seq<(i32, i32)>, t: Seq<(i32, i32)>)
    ensures
        product(s + t) == product(s) * product(t),
        total_exp(s + t) == total_exp(s) + total_exp(t),
    decreases t.len(),
{
    if t.len() == 0 {
        assert(s + t =~= s);
    } else {
        lemma_concat(s, t.drop_last());
        assert((s + t).drop_last() =~= s + t.drop_last());
        assert(product(s) * product(t.drop_last()) * pow(t.last().0 as int, t.last().1 as nat) == product(s) * (
        product(t.drop_last()) * pow(t.last().0 as int, t.last().1 as nat))) by (nonlinear_arith);
    }
}

proof fn lemma_single(x: (i32, i32))
    ensures
        product(seq![x]) == pow(x.0 as int, x.1 as nat),
        total_exp(seq![x]) == x.1,
{
    assert(seq![x].drop_last() =~= Seq::<(i32, i32)>::empty());
    assert(product(Seq::<(i32, i32)>::empty()) == 1);
    assert(total_exp(Seq::<(i32, i32)>::empty()) == 0);
    assert(product(seq![x]) == product(seq![x].drop_last()) * pow(x.0 as int, x.1 as nat));
}

/// `exponent_of` on a list split around one entry.
proof fn lemma_exponent_split(a: Seq<(i32, i32)>, x: (i32, i32), b: Seq<(i32, i32)>, q: int)
    requires
        forall|k: int| 0 <= k < a.len() ==> #[trigger] a[k].0 != x.0,
        forall|k: int| 0 <= k < b.len() ==> #[trigger] b[k].0 != x.0,
    ensures
        exponent_of(a + seq![x] + b, q) == if q == x.0 { x.1 as int } else { exponent_of(a + b, q) },
    decreases b.len(),
{
    if b.len() == 0 {
        assert(a + seq![x] + b =~= a.push(x));
        assert(a.push(x).drop_last() =~= a);
        assert(a + b =~= a);
        if q == x.0 {
        } else {
        }
        lemma_exponent_absent(a, x.0 as int);
    } else {
        lemma_exponent_split(a, x, b.drop_last(), q);
        assert((a + seq![x] + b).drop_last() =~= a + seq![x] + b.drop_last());
        assert((a + b).drop_last() =~= a + b.drop_last());
        assert((a + b).last() == b.last());
        assert((a + seq![x] + b).last() == b.last());
    }
}

proof fn lemma_exponent_absent(a: Seq<(i32, i32)>, p: int)
    requires
        forall|k: int| 0 <= k < a.len() ==> #[trigger] a[k].0 != p,
    ensures
        exponent_of(a, p) == 0,
    decreases a.len(),
{
    if a.len() > 0 {
        lemma_exponent_absent(a.drop_last(), p);
    }
}

/// Multiplies the product of the ordered list `f` by `p^e`: adds `e` to the
/// exponent of `p`, or inserts `(p, e)` in order.
fn add_power(f: &mut Vec<(i32, i32)>, p: i32, e: i32)
    requires
        prime_powers(old(f)@),
        is_prime(p as int),
        e >= 1,
        total_exp(old(f)@) + e <= i32::MAX,
        total_exp(old(f)@) >= 0,
    ensures
        prime_powers(final(f)@),
        product(final(f)@) == product(old(f)@) * pow(p as int, e as nat),
        total_exp(final(f)@) == total_exp(old(f)@) + e,
        forall|q: int| #[trigger] exponent_of(final(f)@, q) == exponent_of(old(f)@, q) + if q == p { e as int } else { 0 },
{
    let ghost f0 = f@;
    let mut pos: usize = 0;
    while pos < f.len() && f[pos].0 < p
        invariant
            f@ == f0,
            pos <= f0.len(),
            forall|k: int| 0 <= k < pos ==> #[trigger] f0[k].0 < p,
        decreases f0.len() - pos,
    {
        pos = pos + 1;
    }
    let ghost a = f0.take(pos as int);
    if pos < f.len() && f[pos].0 == p {
        let old_e = f[pos].1;
        let ghost b = f0.skip(pos as int + 1);
        proof {
            assert(f0 =~= a + seq![f0[pos as int]] + b);
            lemma_concat(a + seq![f0[pos as int]], b);
            lemma_concat(a, seq![f0[pos as int]]);
            lemma_single(f0[pos as int]);
            lemma_exp_positive_bound(a, seq![f0[pos as int]], b);
        }
        f.set(pos, (p, old_e + e));
        proof {
            let x = (p, (old_e + e) as i32);
            assert(f@ =~= a + seq![x] + b);
            lemma_concat(a + seq![x], b);
            lemma_concat(a, seq![x]);
            lemma_single(x);
            vstd::arithmetic::power::lemma_pow_adds(p as int, old_e as nat, e as nat);
            assert(product(f@) == product(f0) * pow(p as int, e as nat)) by (nonlinear_arith)
                requires
                    product(f@) == product(a) * pow(p as int, (old_e + e) as nat) * product(b),
                    product(f0) == product(a) * pow(p as int, old_e as nat) * product(b),
                    pow(p as int, (old_e + e) as nat) == pow(p as int, old_e as nat) * pow(p as int, e as nat),
            ;
            assert forall|k: int| 0 <= k < a.len() implies #[trigger] a[k].0 != p by {}
            assert forall|k: int| 0 <= k < b.len() implies #[trigger] b[k].0 != p by {
                assert(b[k] == f0[pos + 1 + k]);
            }
            assert forall|q: int| #[trigger] exponent_of(f@, q) == exponent_of(f0, q) + if q == p { e as int } else { 0 } by {
                lemma_exponent_split(a, x, b, q);
                lemma_exponent_split(a, f0[pos as int], b, q);
            }
            assert forall|k1: int, k2: int| 0 <= k1 < k2 < f@.len() implies #[trigger] f@[k1].0 < #[trigger] f@[k2].0 by {
                assert(f0[k1].0 < f0[k2].0);
            }
        }
    } else {
        let ghost b = f0.skip(pos as int);
        f.insert(pos, (p, e));
        proof {
            let x = (p, e);
            assert(f0 =~= a + b);
            assert(f@ =~= a + seq![x] + b);
            lemma_concat(a + seq![x], b);
            lemma_concat(a, seq![x]);
            lemma_concat(a, b);
            lemma_single(x);
            assert(product(f@) == product(f0) * pow(p as int, e as nat)) by (nonlinear_arith)
                requires
                    product(f@) == product(a) * pow(p as int, e as nat) * product(b),
                    product(f0) == product(a) * product(b),
            ;
            assert forall|k: int| 0 <= k < b.len() implies #[trigger] b[k].0 > p by {
                assert(b[k] == f0[pos + k]);
                if k > 0 {
                    assert(f0[pos as int].0 < f0[pos + k].0);
                }
            }
            assert forall|k: int| 0 <= k < a.len() implies #[trigger] a[k].0 != p by {}
            assert forall|k: int| 0 <= k < b.len() implies #[trigger] b[k].0 != p by {}
            assert forall|q: int| #[trigger] exponent_of(f@, q) == exponent_of(f0, q) + if q == p { e as int } else { 0 } by {
                lemma_exponent_split(a, x, b, q);
                if q == p {
                    lemma_exponent_absent(f0, p as int);
                }
            }
            assert forall|k1: int, k2: int| 0 <= k1 < k2 < f@.len() implies #[trigger] f@[k1].0 < #[trigger] f@[k2].0 by {
                if k2 < pos {
                    assert(f0[k1].0 < f0[k2].0);
                } else if k1 < pos && k2 > pos {
                    assert(f@[k2] == b[k2 - pos - 1]);
                } else if k1 > pos {
                    assert(f0[k1 - 1].0 < f0[k2 - 1].0);
                }
            }
            assert forall|k: int| 0 <= k < f@.len() implies is_prime((#[trigger] f@[k]).0 as int) && f@[k].1 >= 1 by {
                if k < pos {
                    assert(f@[k] == f0[k]);
                } else if k > pos {
                    assert(f@[k] == f0[k - 1]);
                }
            }
        }
    }
}

proof fn lemma_exp_positive_bound(a: Seq<(i32, i32)>, m: Seq<(i32, i32)>, b: Seq<(i32, i32)>)
    requires
        forall|k: int| 0 <= k < (a + m + b).len() ==> #[trigger] (a + m + b)[k].1 >= 1,
    ensures
        total_exp(a) >= 0,
        total_exp(b) >= 0,
{
    lemma_total_nonneg(a);
    lemma_total_nonneg(b);
    assert forall|k: int| 0 <= k < a.len() implies #[trigger] a[k].1 >= 1 by {
        assert((a + m + b)[k] == a[k]);
    }
    assert forall|k: int| 0 <= k < b.len() implies #[trigger] b[k].1 >= 1 by {
        assert((a + m + b)[a.len() + m.len() + k] == b[k]);
    }
}

proof fn lemma_total_nonneg(a: Seq<(i32, i32)>)
    ensures
        (forall|k: int| 0 <= k < a.len() ==> #[trigger] a[k].1 >= 1) ==> total_exp(a) >= 0,
    decreases a.len(),
{
    if a.len() > 0 {
        lemma_total_nonneg(a.drop_last());
        if forall|k: int| 0 <= k < a.len() ==> #[trigger] a[k].1 >= 1 {
            assert forall|k: int| 0 <= k < a.drop_last().len() implies #[trigger] a.drop_last()[k].1 >= 1 by {
                assert(a.drop_last()[k] == a[k]);
            }
        }
    }
}

/// The product of the entries that are at least 1.
pub open spec fn positive_product(a: Seq<i32>) -> int
    decreases a.len(),
{
    if a.len() == 0 {
        1
    } else {
        positive_product(a.drop_last()) * if a.last() >= 1 { a.last() as int } else { 1 }
    }
}

/// A product of prime powers is at least 2 to the sum of the exponents.
proof fn lemma_product_at_least(f: Seq<(i32, i32)>)
    requires
        prime_powers(f),
    ensures
        product(f) >= pow(2, total_exp(f) as nat) >= 1,
        total_exp(f) >= 0,
    decreases f.len(),
{
    if f.len() == 0 {
        vstd::arithmetic::power::lemma_pow0(2);
        assert(product(f) == 1);
        assert(total_exp(f) == 0);
    } else {
        let g = f.drop_last();
        assert(prime_powers(g)) by {
            assert forall|k1: int, k2: int| 0 <= k1 < k2 < g.len() implies #[trigger] g[k1].0 < #[trigger] g[k2].0 by {
                assert(f[k1].0 < f[k2].0);
            }
            assert forall|k: int| 0 <= k < g.len() implies is_prime((#[trigger] g[k]).0 as int) && g[k].1 >= 1 by {
                assert(g[k] == f[k]);
            }
        }
        lemma_product_at_least(g);
        let x = f.last();
        assert(is_prime(f[f.len() - 1].0 as int) && f[f.len() - 1].1 >= 1);
        lemma_pow_base_le(2, x.0 as int, x.1 as nat);
        vstd::arithmetic::power::lemma_pow_adds(2, total_exp(g) as nat, x.1 as nat);
        vstd::arithmetic::power::lemma_pow_positive(2, x.1 as nat);
        assert(total_exp(f) == total_exp(g) + x.1);
        assert((total_exp(f) as nat) == (total_exp(g) as nat) + (x.1 as nat));
        vstd::arithmetic::power::lemma_pow_positive(2, total_exp(f) as nat);
        assert(product(f) >= pow(2, total_exp(f) as nat)) by (nonlinear_arith)
            requires
                product(f) == product(g) * pow(x.0 as int, x.1 as nat),
                product(g) >= pow(2, total_exp(g) as nat) >= 1,
                pow(x.0 as int, x.1 as nat) >= pow(2, x.1 as nat) >= 1,
                pow(2, total_exp(f) as nat) == pow(2, total_exp(g) as nat) * pow(2, x.1 as nat),
        ;
    }
}

/// A factorization of a 32-bit number has fewer than 31 prime factors.
proof fn lemma_few_factors(f: Seq<(i32, i32)>)
    requires
        prime_powers(f),
        product(f) <= i32::MAX,
    ensures
        0 <= total_exp(f) <= 30,
{
    lemma_product_at_least(f);
    if total_exp(f) > 30 {
        vstd::arithmetic::power::lemma_pow_increases(2, 31, total_exp(f) as nat);
        vstd::arithmetic::power2::lemma2_to64();
        vstd::arithmetic::power2::lemma_pow2(31);
    }
}

/// The prime factorization of the product of the entries that are at least
/// 1, primes in increasing order.
pub fn factorize_product(arr: &[i32]) -> (f: Vec<(i32, i32)>)
    requires
        arr@.len() <= 60_000_000,
    ensures
        prime_powers(f@),
        product(f@) == positive_product(arr@),
        0 <= total_exp(f@) <= 31 * arr@.len(),
{
    let mut f: Vec<(i32, i32)> = Vec::new();
    let mut i: usize = 0;
    proof {
        assert(product(f@) == 1);
        assert(total_exp(f@) == 0);
    }
    while i < arr.len()
        invariant
            arr@.len() <= 60_000_000,
            i <= arr@.len(),
            prime_powers(f@),
            product(f@) == positive_product(arr@.take(i as int)),
            0 <= total_exp(f@) <= 31 * i,
        decreases arr@.len() - i,
    {
        let fs = factorize(arr[i]);
        proof {
            if arr@[i as int] >= 1 {
                lemma_few_factors(fs@);
            } else {
                assert(total_exp(fs@) == 0);
            }
        }
        let ghost base = product(f@);
        let ghost t0 = total_exp(f@);
        let mut j: usize = 0;
        while j < fs.len()
            invariant
                arr@.len() <= 60_000_000,
                i < arr@.len(),
                j <= fs@.len(),
                prime_powers(fs@),
                0 <= total_exp(fs@) <= 30,
                prime_powers(f@),
                0 <= t0 <= 31 * i,
                product(f@) == base * product(fs@.take(j as int)),
                total_exp(f@) == t0 + total_exp(fs@.take(j as int)),
                0 <= total_exp(fs@.take(j as int)) <= total_exp(fs@),
            decreases fs@.len() - j,
        {
            let (p, e) = fs[j];
            proof {
                assert(fs@.take(j + 1).drop_last() =~= fs@.take(j as int));
                assert(is_prime(fs@[j as int].0 as int) && fs@[j as int].1 >= 1);
                lemma_take_total(fs@, (j + 1) as int);
            }
            let ghost before = f@;
            add_power(&mut f, p, e);
            proof {
                assert(product(f@) == base * product(fs@.take(j + 1))) by (nonlinear_arith)
                    requires
                        product(f@) == product(before) * pow(p as int, e as nat),
                        product(before) == base * product(fs@.take(j as int)),
                        product(fs@.take(j + 1)) == product(fs@.take(j as int)) * pow(p as int, e as nat),
                ;
            }
            j = j + 1;
        }
        proof {
            assert(fs@.take(fs@.len() as int) =~= fs@);
            assert(arr@.take(i + 1).drop_last() =~= arr@.take(i as int));
            if arr@[i as int] >= 1 {
                assert(product(fs@) == arr@[i as int]);
            } else {
                assert(product(fs@) == 1);
            }
        }
        i = i + 1;
    }
    assert(arr@.take(arr@.len() as int) =~= arr@);
    f
}

proof fn lemma_take_total(f: Seq<(i32, i32)>, j: int)
    requires
        prime_powers(f),
        0 <= j <= f.len(),
    ensures
        0 <= total_exp(f.take(j)) <= total_exp(f),
    decreases f.len() - j,
{
    if j < f.len() {
        lemma_take_total(f, j + 1);
        assert(f.take(j + 1).drop_last() =~= f.take(j));
        assert(f[j].1 >= 1);
    } else {
        assert(f.take(j) =~= f);
    }
    lemma_product_at_least(f);
    if j > 0 {
        lemma_take_total_nonneg(f, j);
    }
}

proof fn lemma_take_total_nonneg(f: Seq<(i32, i32)>, j: int)
    requires
        prime_powers(f),
        0 <= j <= f.len(),
    ensures
        total_exp(f.take(j)) >= 0,
    decreases j,
{
    if j > 0 {
        lemma_take_total_nonneg(f, j - 1);
        assert(f.take(j).drop_last() =~= f.take(j - 1));
        assert(f[j - 1].1 >= 1);
    }
}

/// The prime modulus of the divisor count.
pub const MOD: i64 = 1_000_000_007;

/// The exponent of `p` in the list `f`, found from the end.
fn exponent_in(f: &Vec<(i32, i32)>, p: i64) -> (e: i32)
    ensures
        e == exponent_of(f@, p as int),
{
    let mut j: usize = f.len();
    assert(f@.take(j as int) =~= f@);
    while j > 0
        invariant
            j <= f@.len(),
            exponent_of(f@, p as int) == exponent_of(f@.take(j as int), p as int),
        decreases j,
    {
        proof {
            assert(f@.take(j as int).drop_last() =~= f@.take(j - 1));
        }
        if f[j - 1].0 as i64 == p {
            return f[j - 1].1;
        }
        j = j - 1;
    }
    0
}

/// Divisors counted over the primes of `primes`, up to entry `j`: the product
/// of `max(exponent of p in n! minus exponent of p in fa, 0) + 1`, reduced as
/// it goes.
pub open spec fn divisor_product(primes: Seq<int>, fa: Seq<(i32, i32)>, n: nat, j: nat) -> int
    decreases j,
{
    if j == 0 {
        1
    } else {
        let p = primes[j - 1];
        let e = legendre_spec(n, p as nat) - exponent_of(fa, p);
        let prev = divisor_product(primes, fa, n, (j - 1) as nat);
        if e > 0 {
            (prev * (e + 1)) % (MOD as int)
        } else {
            prev
        }
    }
}

/// `primes` is the increasing list of all primes up to `t`.
pub open spec fn all_primes_upto(primes: Seq<int>, t: int) -> bool {
    &&& forall|k: int| 0 <= k < primes.len() ==> #[trigger] is_prime(primes[k]) && primes[k] <= t
    &&& forall|k1: int, k2: int| 0 <= k1 < k2 < primes.len() ==> #[trigger] primes[k1] < #[trigger] primes[k2]
    &&& forall|x: int| #[trigger] is_prime(x) && x <= t ==> exists|k: int| 0 <= k < primes.len() && primes[k] == x
}

/// The number of divisors, modulo MOD, of `n!` divided by the product of the
/// positive entries of `a`, counted over the primes up to `min(n, 10^6)`
/// (larger primes are left out).
pub fn solve(n: i64, _k: usize, a: &[i32]) -> (r: i64)
    requires
        0 <= n <= 9_000_000_000,
        a@.len() <= 60_000_000,
    ensures
        exists|primes: Seq<int>, fa: Seq<(i32, i32)>|
            {
                let t = if n < 1_000_000 { n as int } else { 1_000_000 };
                &&& all_primes_upto(primes, t)
                &&& prime_powers(fa)
                &&& product(fa) == positive_product(a@)
                &&& r == #[trigger] divisor_product(primes, fa, n as nat, primes.len())
            },
{
    let threshold = if n < 1_000_000 { n } else { 1_000_000 };
    let fa = factorize_product(a);
    if threshold < 2 {
        proof {
            let primes = Seq::<int>::empty();
            assert forall|x: int| #[trigger] is_prime(x) && x <= threshold implies exists|k: int| 0 <= k < primes.len() && primes[k] == x by {}
            assert(all_primes_upto(primes, threshold as int));
            assert(1 == divisor_product(primes, fa@, n as nat, primes.len()));
        }
        return 1;
    }
    proof {
        lemma_div_is_ordered_by_denominator(i64::MAX as int, threshold as int, 1_000_000);
        assert(i64::MAX / 1_000_000 == 9_223_372_036_854);
    }
    let fp = factorize_factorial_small(n, threshold);
    let ghost primes = Seq::new(fp@.len(), |k: int| fp@[k].0 as int);
    let mut result: i64 = 1;
    let mut j: usize = 0;
    while j < fp.len()
        invariant
            0 <= n <= 9_000_000_000,
            j <= fp@.len(),
            primes.len() == fp@.len(),
            forall|k: int| 0 <= k < fp@.len() ==> #[trigger] primes[k] == fp@[k].0 && is_prime(fp@[k].0 as int)
                && fp@[k].1 == legendre_spec(n as nat, fp@[k].0 as nat),
            0 <= result < MOD,
            prime_powers(fa@),
            result == divisor_product(primes, fa@, n as nat, j as nat),
        decreases fp@.len() - j,
    {
        let (p, e) = fp[j];
        let ae = exponent_in(&fa, p);
        assert(primes[j as int] == p);
        proof {
            lemma_legendre_at_most(n as nat, p as nat);
            lemma_exponent_nonneg(fa@, p as int);
        }
        let exp = e - ae as i64;
        if exp > 0 {
            assert(0 <= result * (exp + 1) <= MOD * 9_100_000_000) by (nonlinear_arith)
                requires
                    0 <= result < MOD,
                    0 < exp + 1 <= 9_100_000_000,
            ;
            result = result * (exp + 1) % MOD;
        }
        j = j + 1;
    }
    proof {
        assert(all_primes_upto(primes, threshold as int)) by {
            assert forall|k1: int, k2: int| 0 <= k1 < k2 < primes.len() implies #[trigger] primes[k1] < #[trigger] primes[k2] by {
                assert(fp@[k1].0 < fp@[k2].0);
            }
            assert forall|x: int| #[trigger] is_prime(x) && x <= threshold implies exists|k: int| 0 <= k < primes.len() && primes[k] == x by {
                let k = choose|k: int| 0 <= k < fp@.len() && fp@[k].0 == x;
                assert(primes[k] == x);
            }
            assert forall|k: int| 0 <= k < primes.len() implies #[trigger] is_prime(primes[k]) && primes[k] <= threshold by {
                assert(fp@[k].0 <= threshold);
            }
        }
        assert(result == divisor_product(primes, fa@, n as nat, primes.len()));
    }
    result
}

proof fn lemma_exponent_nonneg(f: Seq<(i32, i32)>, p: int)
    requires
        prime_powers(f),
    ensures
        exponent_of(f, p) >= 0,
    decreases f.len(),
{
    if f.len() > 0 {
        let g = f.drop_last();
        assert(prime_powers(g)) by {
            assert forall|k1: int, k2: int| 0 <= k1 < k2 < g.len() implies #[trigger] g[k1].0 < #[trigger] g[k2].0 by {
                assert(f[k1].0 < f[k2].0);
            }
            assert forall|k: int| 0 <= k < g.len() implies is_prime((#[trigger] g[k]).0 as int) && g[k].1 >= 1 by {
                assert(g[k] == f[k]);
            }
        }
        lemma_exponent_nonneg(g, p);
        assert(f[f.len() - 1].1 >= 1);
    }
}

/// The exponent of `p` in `n!` is at most `n`.
proof fn lemma_legendre_at_most(n: nat, p: nat)
    requires
        p >= 2,
    ensures
        legendre_spec(n, p) <= n,
{
    lemma_legendre_bound(n, p, p);
    lemma_div_is_ordered_by_denominator(n as int, 2, p as int);
    assert(2 * (n / 2) <= n) by (nonlinear_arith);
}

/// The primes in `[low, high]`, in increasing order, found segment by segment
/// with the primes up to `sqrt(high)`.
pub fn process_large_primes(low: i32, high: i32) -> (out: Vec<i32>)
    requires
        high <= 0x7ffe_0000,
    ensures
        forall|k: int| 0 <= k < out@.len() ==> is_prime(#[trigger] out@[k] as int) && low <= out@[k] <= high,
        forall|k1: int, k2: int| 0 <= k1 < k2 < out@.len() ==> #[trigger] out@[k1] < #[trigger] out@[k2],
        forall|x: int| #[trigger] is_prime(x) && low <= x <= high ==> exists|k: int| 0 <= k < out@.len() && out@[k] == x,
{
    let mut out: Vec<i32> = Vec::new();
    if low > high {
        return out;
    }
    let sqrt_high = int_sqrt(high);
    assert(sqrt_high <= high) by (nonlinear_arith)
        requires
            high >= 2 ==> 1 <= sqrt_high && sqrt_high * sqrt_high <= high,
            high < 2 ==> sqrt_high == high,
    ;
    let base_primes = sieve(sqrt_high);
    let segment_size: i32 = 100000;
    let mut segment_low = low;
    while segment_low <= high
        invariant
            low <= high <= 0x7ffe_0000,
            low <= segment_low,
            segment_low <= high + segment_size,
            segment_size == 100000,
            high >= 2 ==> 1 <= sqrt_high && sqrt_high * sqrt_high <= high < (sqrt_high + 1) * (sqrt_high + 1),
            high < 2 ==> sqrt_high == high,
            forall|k: int| 0 <= k < base_primes@.len() ==> is_prime(#[trigger] base_primes@[k] as int) && base_primes@[k] <= sqrt_high,
            forall|x: int| #[trigger] is_prime(x) && x <= sqrt_high ==> exists|k: int| 0 <= k < base_primes@.len() && base_primes@[k] == x,
            forall|k: int| 0 <= k < out@.len() ==> is_prime(#[trigger] out@[k] as int) && low <= out@[k] < segment_low && out@[k] <= high,
            forall|k1: int, k2: int| 0 <= k1 < k2 < out@.len() ==> #[trigger] out@[k1] < #[trigger] out@[k2],
            forall|x: int| #[trigger] is_prime(x) && low <= x < segment_low && x <= high ==> exists|k: int| 0 <= k < out@.len() && out@[k] == x,
        decreases high + segment_size - segment_low,
    {
        let segment_high = if segment_low + segment_size - 1 < high { segment_low + segment_size - 1 } else { high };
        let found = segment_primes(segment_low, segment_high, &base_primes, sqrt_high, high);
        let ghost before = out@;
        let mut k: usize = 0;
        while k < found.len()
            invariant
                k <= found@.len(),
                low <= segment_low <= segment_high,
                forall|j: int| 0 <= j < found@.len() ==> is_prime(#[trigger] found@[j] as int) && segment_low <= found@[j] <= segment_high,
                forall|j1: int, j2: int| 0 <= j1 < j2 < found@.len() ==> #[trigger] found@[j1] < #[trigger] found@[j2],
                out@.len() == before.len() + k,
                forall|j: int| 0 <= j < before.len() ==> #[trigger] out@[j] == before[j],
                forall|j: int| before.len() <= j < before.len() + k ==> #[trigger] out@[j] == found@[j - before.len()],
                forall|j: int| 0 <= j < before.len() ==> is_prime(#[trigger] before[j] as int) && low <= before[j] < segment_low && before[j] <= high,
                segment_high <= high,
                forall|j1: int, j2: int| 0 <= j1 < j2 < before.len() ==> #[trigger] before[j1] < #[trigger] before[j2],
            decreases found@.len() - k,
        {
            out.push(found[k]);
            k = k + 1;
        }
        proof {
            assert forall|j: int| 0 <= j < out@.len() implies is_prime(#[trigger] out@[j] as int) && low <= out@[j] < segment_high + 1 && out@[j] <= high by {
                if j >= before.len() {
                    assert(out@[j] == found@[j - before.len()]);
                }
            }
            assert forall|j1: int, j2: int| 0 <= j1 < j2 < out@.len() implies #[trigger] out@[j1] < #[trigger] out@[j2] by {
                if j2 >= before.len() {
                    assert(out@[j2] == found@[j2 - before.len()]);
                    if j1 >= before.len() {
                        assert(out@[j1] == found@[j1 - before.len()]);
                    }
                }
            }
            assert forall|x: int| #[trigger] is_prime(x) && low <= x < segment_low + segment_size && x <= high implies exists|j: int| 0 <= j < out@.len() && out@[j] == x by {
                if x < segment_low {
                    let j = choose|j: int| 0 <= j < before.len() && before[j] == x;
                    assert(out@[j] == x);
                } else {
                    let j = choose|j: int| 0 <= j < found@.len() && found@[j] == x;
                    assert(out@[before.len() + j] == x);
                }
            }
        }
        segment_low = segment_low + segment_size;
    }
    out
}

/// The primes of one segment `[lo, hi]`: what survives striking, for every
/// base prime `p`, the multiples of `p` from `max(p * p, first multiple >= lo)`.
fn segment_primes(lo: i32, hi: i32, base_primes: &Vec<i32>, sqrt_high: i32, high: i32) -> (found: Vec<i32>)
    requires
        lo <= hi <= high <= 0x7ffe_0000,
        hi - lo < 100000,
        high >= 2 ==> 1 <= sqrt_high && sqrt_high * sqrt_high <= high < (sqrt_high + 1) * (sqrt_high + 1),
        high < 2 ==> sqrt_high == high,
        forall|k: int| 0 <= k < base_primes@.len() ==> is_prime(#[trigger] base_primes@[k] as int) && base_primes@[k] <= sqrt_high,
        forall|x: int| #[trigger] is_prime(x) && x <= sqrt_high ==> exists|k: int| 0 <= k < base_primes@.len() && base_primes@[k] == x,
    ensures
        forall|j: int| 0 <= j < found@.len() ==> is_prime(#[trigger] found@[j] as int) && lo <= found@[j] <= hi,
        forall|j1: int, j2: int| 0 <= j1 < j2 < found@.len() ==> #[trigger] found@[j1] < #[trigger] found@[j2],
        forall|x: int| #[trigger] is_prime(x) && lo <= x <= hi ==> exists|j: int| 0 <= j < found@.len() && found@[j] == x,
{
    let len = (hi - lo + 1) as usize;
    let mut segment: Vec<bool> = Vec::new();
    let mut t: usize = 0;
    while t < len
        invariant
            t <= len,
            segment@.len() == t,
            forall|k: int| 0 <= k < t ==> #[trigger] segment@[k],
        decreases len - t,
    {
        segment.push(true);
        t = t + 1;
    }
    // segment[x - lo] is false exactly when some base prime before index b struck x.
    let mut b: usize = 0;
    while b < base_primes.len()
        invariant
            lo <= hi <= high <= 0x7ffe_0000,
            hi - lo < 100000,
            len == hi - lo + 1,
            segment@.len() == len,
            b <= base_primes@.len(),
            forall|k: int| 0 <= k < base_primes@.len() ==> is_prime(#[trigger] base_primes@[k] as int) && base_primes@[k] <= sqrt_high,
            high >= 2 ==> sqrt_high * sqrt_high <= high,
            high < 2 ==> sqrt_high == high,
            forall|x: int| lo <= x <= hi ==> (!#[trigger] segment@[x - lo] <==> exists|k: int|
                0 <= k < b && struck_by(x, base_primes@[k] as int)),
        decreases base_primes@.len() - b,
    {
        let p = base_primes[b];
        proof {
            assert(is_prime(p as int) && p <= sqrt_high);
            if high < 2 {
                assert(false);
            }
            assert(sqrt_high <= 0x1_0000) by (nonlinear_arith)
                requires
                    1 <= sqrt_high,
                    sqrt_high * sqrt_high <= high,
                    high <= 0x7ffe_0000,
            ;
            assert(p * p <= high) by (nonlinear_arith)
                requires
                    2 <= p <= sqrt_high,
                    sqrt_high * sqrt_high <= high,
            ;
        }
        let from: i64 = if lo > 0 { lo as i64 } else { 0 };
        let q = (from + p as i64 - 1) / p as i64;
        assert(0 <= q <= from) by (nonlinear_arith)
            requires
                q == (from + p - 1) / (p as int),
                from >= 0,
                p >= 2,
        ;
        assert(q * p <= 0x8000_0000 * 0x1_0000) by (nonlinear_arith)
            requires
                0 <= q <= 0x8000_0000,
                2 <= p <= 0x1_0000,
        ;
        let first = q * p as i64;
        let sq = p as i64 * p as i64;
        let start = if first > sq { first } else { sq };
        proof {
            lemma_first_multiple(from as int, p as int, first as int);
            lemma_mod_multiples_basic(p as int, p as int);
        }
        let mut j: i64 = start;
        let ghost seg0 = segment@;
        while j <= hi as i64
            invariant
                lo <= hi <= 0x7ffe_0000,
                len == hi - lo + 1,
                segment@.len() == len,
                2 <= p,
                j >= start,
                start >= lo,
                start >= p * p,
                (j as int) % (p as int) == 0,
                j <= hi + p || j == start,
                forall|x: int| lo <= x <= hi ==> (!#[trigger] segment@[x - lo] <==> !seg0[x - lo] || (start <= x < j
                    && x % (p as int) == 0)),
            decreases hi + p - j,
        {
            let ghost s0 = segment@;
            segment.set((j - lo as i64) as usize, false);
            proof {
                assert forall|x: int| j < x < j + p implies #[trigger] (x % (p as int)) != 0 by {
                    lemma_add_mod_noop(j as int, x - j, p as int);
                    lemma_small_mod((x - j) as nat, p as nat);
                }
                assert forall|x: int| lo <= x <= hi implies (!#[trigger] segment@[x - lo] <==> !seg0[x - lo] || (start
                    <= x < j + p && x % (p as int) == 0)) by {
                    if x != j {
                        assert(segment@[x - lo] == s0[x - lo]);
                    }
                }
                lemma_fundamental_div_mod(j as int, p as int);
                let q = j / (p as i64);
                assert(j + p == (q + 1) * p) by (nonlinear_arith)
                    requires
                        j == p * q,
                ;
                lemma_mod_multiples_basic(q + 1, p as int);
            }
            j = j + p as i64;
        }
        proof {
            assert forall|x: int| lo <= x <= hi implies (!#[trigger] segment@[x - lo] <==> exists|k: int|
                0 <= k < b + 1 && struck_by(x, base_primes@[k] as int)) by {
                if struck_by(x, p as int) {
                    assert(x >= start) by {
                        lemma_struck_start(x, from as int, p as int, first as int);
                    }
                }
                if exists|k: int| 0 <= k < b + 1 && struck_by(x, base_primes@[k] as int) {
                    let k = choose|k: int| 0 <= k < b + 1 && struck_by(x, base_primes@[k] as int);
                    if k == b {
                        assert(x >= start) by {
                            lemma_struck_start(x, from as int, p as int, first as int);
                        }
                    }
                }
            }
        }
        b = b + 1;
    }
    let mut found: Vec<i32> = Vec::new();
    let mut t: usize = 0;
    while t < len
        invariant
            lo <= hi <= high <= 0x7ffe_0000,
            len == hi - lo + 1,
            segment@.len() == len,
            t <= len,
            hi - lo < 100000,
            high >= 2 ==> 1 <= sqrt_high && sqrt_high * sqrt_high <= high < (sqrt_high + 1) * (sqrt_high + 1),
            high < 2 ==> sqrt_high == high,
            forall|x: int| #[trigger] is_prime(x) && x <= sqrt_high ==> exists|k: int| 0 <= k < base_primes@.len() && base_primes@[k] == x,
            forall|k: int| 0 <= k < base_primes@.len() ==> is_prime(#[trigger] base_primes@[k] as int) && base_primes@[k] <= sqrt_high,
            forall|x: int| lo <= x <= hi ==> (!#[trigger] segment@[x - lo] <==> exists|k: int|
                0 <= k < base_primes@.len() && struck_by(x, base_primes@[k] as int)),
            forall|j: int| 0 <= j < found@.len() ==> is_prime(#[trigger] found@[j] as int) && lo <= found@[j] < lo + t,
            forall|j1: int, j2: int| 0 <= j1 < j2 < found@.len() ==> #[trigger] found@[j1] < #[trigger] found@[j2],
            forall|x: int| #[trigger] is_prime(x) && lo <= x < lo + t ==> exists|j: int| 0 <= j < found@.len() && found@[j] == x,
        decreases len - t,
    {
        assert(lo + t <= hi);
        let num = lo + t as i32;
        let ghost f0 = found@;
        proof {
            lemma_unstruck_is_prime(num as int, lo as int, hi as int, base_primes@, sqrt_high as int, high as int, segment@);
        }
        if segment[t] && num >= 2 {
            found.push(num);
            proof {
                assert forall|j: int| 0 <= j < found@.len() implies is_prime(#[trigger] found@[j] as int) && lo <= found@[j] < lo + t + 1 by {
                    if j < f0.len() {
                        assert(found@[j] == f0[j]);
                    }
                }
                assert forall|j1: int, j2: int| 0 <= j1 < j2 < found@.len() implies #[trigger] found@[j1] < #[trigger] found@[j2] by {
                    assert(found@[j1] == f0[j1]);
                    if j2 < f0.len() {
                        assert(found@[j2] == f0[j2]);
                    }
                }
                assert forall|x: int| #[trigger] is_prime(x) && lo <= x < lo + t + 1 implies exists|j: int| 0 <= j < found@.len() && found@[j] == x by {
                    if x < lo + t {
                        let j = choose|j: int| 0 <= j < f0.len() && f0[j] == x;
                        assert(found@[j] == x);
                    } else {
                        assert(found@[f0.len() as int] == x);
                    }
                }
            }
        }
        t = t + 1;
    }
    found
}

/// `x` is struck by `p`: a multiple of `p` that is at least `p * p`.
pub open spec fn struck_by(x: int, p: int) -> bool {
    x >= p * p && x % p == 0
}

/// `first` is the least multiple of `p` that is at least `lo`.
proof fn lemma_first_multiple(lo: int, p: int, first: int)
    requires
        p >= 2,
        lo >= 0,
        first == ((lo + p - 1) / p) * p,
    ensures
        first >= lo,
        first % p == 0,
        forall|x: int| x >= lo && #[trigger] (x % p) == 0 ==> x >= first,
{
    lemma_fundamental_div_mod(lo + p - 1, p);
    let q = (lo + p - 1) / p;
    lemma_mod_multiples_basic(q, p);
    assert(first >= lo) by (nonlinear_arith)
        requires
            lo + p - 1 == p * q + (lo + p - 1) % p,
            0 <= (lo + p - 1) % p < p,
            first == q * p,
    ;
    assert forall|x: int| x >= lo && #[trigger] (x % p) == 0 implies x >= first by {
        lemma_fundamental_div_mod(x, p);
        let r = x / p;
        assert(x >= first) by (nonlinear_arith)
            requires
                x == p * r,
                x >= lo,
                lo + p - 1 == p * q + (lo + p - 1) % p,
                0 <= (lo + p - 1) % p < p,
                first == q * p,
                p >= 2,
        ;
    }
}

proof fn lemma_struck_start(x: int, lo: int, p: int, first: int)
    requires
        p >= 2,
        x >= lo,
        lo >= 0,
        struck_by(x, p),
        first == ((lo + p - 1) / p) * p,
    ensures
        x >= first,
        x >= p * p,
{
    lemma_first_multiple(lo, p, first);
}

/// A number of the segment that no base prime struck, and that is at least 2,
/// is prime; a prime is struck by no base prime.
proof fn lemma_unstruck_is_prime(x: int, lo: int, hi: int, base: Seq<i32>, sqrt_high: int, high: int, segment: Seq<bool>)
    requires
        lo <= x <= hi <= high,
        segment.len() == hi - lo + 1,
        high >= 2 ==> 1 <= sqrt_high && sqrt_high * sqrt_high <= high < (sqrt_high + 1) * (sqrt_high + 1),
        high < 2 ==> sqrt_high == high,
        forall|y: int| #[trigger] is_prime(y) && y <= sqrt_high ==> exists|k: int| 0 <= k < base.len() && base[k] == y,
        forall|k: int| 0 <= k < base.len() ==> is_prime(#[trigger] base[k] as int) && base[k] <= sqrt_high,
        forall|y: int| lo <= y <= hi ==> (!#[trigger] segment[y - lo] <==> exists|k: int|
            0 <= k < base.len() && struck_by(y, base[k] as int)),
    ensures
        (segment[x - lo] && x >= 2) <==> is_prime(x),
{
    if is_prime(x) && !segment[x - lo] {
        let k = choose|k: int| 0 <= k < base.len() && struck_by(x, base[k] as int);
        let p = base[k] as int;
        assert(is_prime(p));
        assert(x > p) by (nonlinear_arith)
            requires
                x >= p * p,
                p >= 2,
        ;
        assert(x % p == 0);
    }
    if segment[x - lo] && x >= 2 && !is_prime(x) {
        let d = choose|d: int| 2 <= d < x && #[trigger] (x % d) == 0;
        let e0 = lemma_small_divisor(x, d);
        let e = lemma_smallest_prime_factor(x, e0);
        assert(e <= sqrt_high) by (nonlinear_arith)
            requires
                e * e <= x,
                x <= high,
                high < (sqrt_high + 1) * (sqrt_high + 1),
                e >= 2,
                sqrt_high >= 1,
        ;
        let k = choose|k: int| 0 <= k < base.len() && base[k] == e;
        assert(struck_by(x, base[k] as int));
    }
}

/// Below any divisor `e` of `x` with `e * e <= x` there is a prime divisor `q`
/// with `q * q <= x`.
proof fn lemma_smallest_prime_factor(x: int, e: int) -> (q: int)
    requires
        2 <= e,
        e * e <= x,
        x % e == 0,
    ensures
        is_prime(q),
        q * q <= x,
        x % q == 0,
    decreases e,
{
    if is_prime(e) {
        e
    } else {
        let d = choose|d: int| 2 <= d < e && #[trigger] (e % d) == 0;
        assert(d * d <= x) by (nonlinear_arith)
            requires
                2 <= d < e,
                e * e <= x,
        ;
        lemma_divides_trans(d, e, x);
        lemma_smallest_prime_factor(x, d)
    }
}

} // verus!
