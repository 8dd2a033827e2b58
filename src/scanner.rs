//! Reading unsigned decimal numbers out of a byte buffer, skipping anything
//! that is not a digit.
use vstd::prelude::*;

verus! {

pub open spec fn is_digit(b: u8) -> bool {
    48 <= b <= 57
}

/// The decimal value of a run of digits.
pub open spec fn decimal(s: Seq<u8>) -> int
    decreases s.len(),
{
    if s.len() == 0 {
        0
    } else {
        decimal(s.drop_last()) * 10 + (s.last() - 48)
    }
}

/// No run of digits in `buf` is longer than 18, so every value fits in an `i64`.
pub open spec fn short_runs(buf: Seq<u8>) -> bool {
    forall|s: int| 0 <= s && s + 19 <= buf.len() ==> #[trigger] breaks_within(buf, s)
}

/// Some byte among the 19 from `s` on is not a digit.
pub open spec fn breaks_within(buf: Seq<u8>, s: int) -> bool {
    exists|k: int| s <= k < s + 19 && !is_digit(#[trigger] buf[k])
}

/// A cursor over an input held in memory.
pub struct Scanner {
    pub buffer: Vec<u8>,
    pub pos: usize,
}

proof fn lemma_decimal_bound(s: Seq<u8>)
    requires
        forall|k: int| 0 <= k < s.len() ==> is_digit(#[trigger] s[k]),
    ensures
        0 <= decimal(s) < pow10(s.len()),
    decreases s.len(),
{
    if s.len() > 0 {
        lemma_decimal_bound(s.drop_last());
    }
}

pub open spec fn pow10(k: nat) -> int
    decreases k,
{
    if k == 0 {
        1
    } else {
        10 * pow10((k - 1) as nat)
    }
}

impl Scanner {
    /// A scanner at the start of `input`.
    pub fn new(input: Vec<u8>) -> (s: Scanner)
        ensures
            s.buffer@ == input@,
            s.pos == 0,
    {
        Scanner { buffer: input, pos: 0 }
    }

    /// The value of the next run of digits, leaving the cursor just after it;
    /// 0, with the cursor at the end, when no digit is left.
    pub fn next_i64(&mut self) -> (n: i64)
        requires
            old(self).pos <= old(self).buffer@.len(),
            short_runs(old(self).buffer@),
        ensures
            final(self).buffer@ == old(self).buffer@,
            ({
                let buf = old(self).buffer@;
                let p = old(self).pos as int;
                let e = final(self).pos as int;
                &&& (forall|k: int| p <= k < buf.len() ==> !is_digit(#[trigger] buf[k])) ==> n == 0 && e == buf.len()
                &&& (exists|k: int| p <= k < buf.len() && is_digit(#[trigger] buf[k])) ==> exists|s: int| {
                    &&& p <= s < e <= buf.len()
                    &&& forall|k: int| p <= k < s ==> !is_digit(#[trigger] buf[k])
                    &&& forall|k: int| s <= k < e ==> is_digit(#[trigger] buf[k])
                    &&& (e == buf.len() || !is_digit(buf[e]))
                    &&& n == decimal(buf.subrange(s, e))
                }
            }),
    {
        let ghost buf = self.buffer@;
        let ghost p = self.pos as int;
        let len = self.buffer.len();
        while self.pos < len && !(self.buffer[self.pos] >= 48 && self.buffer[self.pos] <= 57)
            invariant
                self.buffer@ == buf,
                len == buf.len(),
                p <= self.pos <= len,
                forall|k: int| p <= k < self.pos ==> !is_digit(#[trigger] buf[k]),
            decreases len - self.pos,
        {
            self.pos = self.pos + 1;
        }
        if self.pos >= len {
            return 0;
        }
        let s = self.pos;
        let mut n: i64 = 0;
        while self.pos < len && self.buffer[self.pos] >= 48 && self.buffer[self.pos] <= 57
            invariant
                self.buffer@ == buf,
                len == buf.len(),
                short_runs(buf),
                s <= self.pos <= len,
                s < len,
                forall|k: int| s <= k < self.pos ==> is_digit(#[trigger] buf[k]),
                n == decimal(buf.subrange(s as int, self.pos as int)),
                self.pos - s <= 18,
            decreases len - self.pos,
        {
            let ghost run = buf.subrange(s as int, self.pos as int);
            proof {
                lemma_decimal_bound(run);
                if self.pos + 1 - s > 18 {
                    assert(breaks_within(buf, s as int));
                    let k = choose|k: int| s <= k < s + 19 && !is_digit(#[trigger] buf[k]);
                }
                lemma_pow10_le(run.len(), 17);
                reveal_with_fuel(pow10, 18);
                assert(pow10(17) == 100_000_000_000_000_000);
            }
            let digit = (self.buffer[self.pos] - 48) as i64;
            n = n * 10 + digit;
            self.pos = self.pos + 1;
            proof {
                let run2 = buf.subrange(s as int, self.pos as int);
                assert(run2.drop_last() =~= run);
            }
        }
        n
    }
}

proof fn lemma_pow10_le(k: nat, m: nat)
    requires
        k <= m,
    ensures
        1 <= pow10(k) <= pow10(m),
    decreases m,
{
    if k < m {
        lemma_pow10_le(k, (m - 1) as nat);
    } else if k > 0 {
        lemma_pow10_le((k - 1) as nat, (k - 1) as nat);
    }
}

} // verus!
