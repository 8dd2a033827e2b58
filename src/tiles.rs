//! Dimensions of a panel from its counts of red border tiles and blue inner
//! tiles: `R = 2W + 2H - 4` and `B = (W - 2)(H - 2)`.
use vstd::prelude::*;

verus! {

/// `(w, h)` is a panel with `w >= h >= 3`, `w + h` equal to `(r + 4) / 2`, and
/// `b` inner tiles.
pub open spec fn panel(r: int, b: int, w: int, h: int) -> bool {
    &&& w >= h >= 3
    &&& w + h == (r + 4) / 2
    &&& (w - 2) * (h - 2) == b
}

/// The panel `(W, H)` with `W >= H` for `r` red and `b` blue tiles, or `(0, 0)`
/// when there is none.
pub fn solve(r: i32, b: i32) -> (res: (i32, i32))
    requires
        0 <= r <= i32::MAX - 4,
    ensures
        res != (0i32, 0i32) ==> panel(r as int, b as int, res.0 as int, res.1 as int),
        res == (0i32, 0i32) ==> forall|w: int, h: int| !#[trigger] panel(r as int, b as int, w, h),
{
    let sum = (r + 4) / 2;
    let mut d: i64 = 1;
    loop
        invariant
            1 <= d <= 46341,
            0 <= sum <= 0x4000_0001,
            sum == (r + 4) / 2,
            forall|w: int, h: int| #[trigger] panel(r as int, b as int, w, h) ==> h - 2 >= d,
        ensures
            1 <= d,
            d * d > b,
            forall|w: int, h: int| #[trigger] panel(r as int, b as int, w, h) ==> h - 2 >= d,
        decreases 46342 - d,
    {
        assert(d * d <= 46341 * 46341) by (nonlinear_arith)
            requires
                1 <= d <= 46341,
        ;
        if d * d > b as i64 {
            break;
        }
        assert(b >= 1 && d <= 46340) by (nonlinear_arith)
            requires
                d * d <= b,
                1 <= d,
                b <= 0x7fff_ffff,
        ;
        if b as i64 % d == 0 {
            let q = b as i64 / d;
            assert(1 <= q <= b) by (nonlinear_arith)
                requires
                    q == (b as int) / (d as int),
                    d * d <= b,
                    1 <= d,
            ;
            let w1 = q + 2;
            let h1 = sum as i64 - w1;
            assert(-0x8000_0010 * 0x8000_0010 <= (w1 - 2) * (h1 - 2) <= 0x8000_0010 * 0x8000_0010) by (nonlinear_arith)
                requires
                    0 <= w1 - 2 <= 0x7fff_ffff,
                    -0x8000_0010 <= h1 - 2 <= 0x4000_0000,
            ;
            if (w1 - 2) * (h1 - 2) == b as i64 && w1 >= h1 {
                assert(h1 >= 3) by (nonlinear_arith)
                    requires
                        (w1 - 2) * (h1 - 2) == b,
                        w1 >= h1,
                        b >= 1,
                        w1 >= 3,
                ;
                return (w1 as i32, h1 as i32);
            }
            let w2 = d + 2;
            let h2 = sum as i64 - w2;
            assert(-0x8000_0000 * 46340 <= (w2 - 2) * (h2 - 2) <= 0x8000_0000 * 46340) by (nonlinear_arith)
                requires
                    0 <= w2 - 2 <= 46340,
                    -0x8000_0000 <= h2 - 2 <= 0x4000_0000,
            ;
            if (w2 - 2) * (h2 - 2) == b as i64 && w2 >= h2 {
                assert(h2 >= 3) by (nonlinear_arith)
                    requires
                        (w2 - 2) * (h2 - 2) == b,
                        w2 >= h2,
                        b >= 1,
                        w2 >= 3,
                ;
                return (w2 as i32, h2 as i32);
            }
            proof {
                assert forall|w: int, h: int| #[trigger] panel(r as int, b as int, w, h) implies h - 2 >= d + 1 by {
                    if h - 2 == d {
                        assert(w - 2 == q) by (nonlinear_arith)
                            requires
                                (w - 2) * (h - 2) == b,
                                h - 2 == d,
                                q == (b as int) / (d as int),
                                d >= 1,
                        ;
                    }
                }
            }
        } else {
            proof {
                assert forall|w: int, h: int| #[trigger] panel(r as int, b as int, w, h) implies h - 2 >= d + 1 by {
                    if h - 2 == d {
                        assert((b as int) % (d as int) == 0) by (nonlinear_arith)
                            requires
                                (w - 2) * (h - 2) == b,
                                h - 2 == d,
                                d >= 1,
                        ;
                    }
                }
            }
        }
        d = d + 1;
    }
    proof {
        assert forall|w: int, h: int| !#[trigger] panel(r as int, b as int, w, h) by {
            if panel(r as int, b as int, w, h) {
                assert((h - 2) * (h - 2) <= b) by (nonlinear_arith)
                    requires
                        (w - 2) * (h - 2) == b,
                        w >= h >= 3,
                ;
                assert(d * d <= (h - 2) * (h - 2)) by (nonlinear_arith)
                    requires
                        h - 2 >= d >= 1,
                ;
            }
        }
    }
    (0, 0)
}

} // verus!
