//! How a decoder shares out the bits of a mono CELT frame, after RFC 6716, section
//! 4.3.3. All amounts are in eighths of a bit.
use crate::celt_alloc::Allocation;
use crate::int_math;
use crate::opus_celt_tables::{BAND_ALLOCATION, CACHE_CAPS_50, EBAND_5MS, LOG_N_400};
use crate::range_laws::Decoder;
use vstd::prelude::*;

verus! {

/// The frame size as a factor: 1, 2, 4 or 8 times 2.5 ms.
pub open spec fn factor(lm: int) -> int {
    if lm == 0 {
        1
    } else if lm == 1 {
        2
    } else if lm == 2 {
        4
    } else {
        8
    }
}

/// The number of coefficients of bands `a` to `b - 1` in the shortest frame.
pub open spec fn lines(a: int, b: int) -> int {
    EBAND_5MS[b] - EBAND_5MS[a]
}

/// The number of coefficients of band `j`.
pub open spec fn size(j: int, lm: int) -> int {
    lines(j, j + 1) * factor(lm)
}

/// The most that band `j` can use.
pub open spec fn most(j: int, lm: int) -> int {
    (CACHE_CAPS_50[42 * lm + j] + 64) * size(j, lm) / 4
}

/// Less than this is not worth coding: a bit, or three sixteenths of a bit for each
/// coefficient.
pub open spec fn least(j: int, lm: int) -> int {
    int_math::max_of(8, 3 * size(j, lm) * 8 / 16)
}

/// What the trim gives to band `j` or takes from it.
pub open spec fn tilt(j: int, trim: int, lm: int) -> int {
    size(j, lm) * (trim - 5 - lm) * (20 - j) * 8 / 64 - (if size(j, lm) == 1 {
        8int
    } else {
        0
    })
}

/// What band `j` has in row `row` of the table, with the trim.
pub open spec fn in_row(row: int, j: int, trim: int, lm: int) -> int {
    let b = size(j, lm) * BAND_ALLOCATION[21 * row + j] / 4;
    if b > 0 {
        int_math::max_of(b + tilt(j, trim, lm), 0)
    } else {
        b
    }
}

/// What bands `j` and up cost, and whether one of them is worth coding: below such a
/// band all have what they ask for up to their cap, above it a bit or nothing.
pub open spec fn costs(v: Seq<int>, cap: Seq<int>, lm: int, j: int) -> (int, bool)
    decreases 21 - j,
{
    if j >= 21 {
        (0, false)
    } else {
        let (sum, done) = costs(v, cap, lm, j + 1);
        if v[j] >= least(j, lm) || done {
            (sum + int_math::min_of(v[j], cap[j]), true)
        } else if v[j] >= 8 {
            (sum + 8, false)
        } else {
            (sum, false)
        }
    }
}

/// What the decoder goes by.
pub struct Terms {
    /// The boosts.
    pub boosts: Seq<int>,
    /// The most that each band can use.
    pub cap: Seq<int>,
    /// The trim.
    pub trim: int,
    /// The frame size.
    pub lm: int,
    /// The first band.
    pub start: int,
    /// What there is to share out, less what is set aside.
    pub total: int,
    /// What is set aside for the bit that ends the dropping of bands.
    pub aside: int,
}

/// The terms for `bits` eighths.
pub open spec fn terms(
    boosts: Seq<int>,
    cap: Seq<int>,
    trim: int,
    lm: int,
    start: int,
    bits: int,
) -> Terms {
    let aside = if bits >= 8 {
        8int
    } else {
        0
    };
    Terms { boosts, cap, trim, lm, start, total: int_math::max_of(bits, 0) - aside, aside }
}

impl Terms {
    /// What the bands ask for in row `row`.
    pub open spec fn asked(self, row: int) -> Seq<int> {
        Seq::new(21, |j: int| in_row(row, j, self.trim, self.lm) + self.boosts[j])
    }

    /// The last row between `lo` and `hi` that is found to fit, by halving.
    pub open spec fn row(self, lo: int, hi: int) -> int
        decreases hi - lo + 1,
    {
        if lo > hi {
            lo - 1
        } else {
            let mid = (lo + hi) / 2;
            if costs(self.asked(mid), self.cap, self.lm, self.start).0 > self.total {
                self.row(lo, mid - 1)
            } else {
                self.row(mid + 1, hi)
            }
        }
    }

    /// What band `j` has at the lower end: nothing below the first row.
    pub open spec fn lower(self, row: int, j: int) -> int {
        if row > 0 {
            in_row(row, j, self.trim, self.lm) + self.boosts[j]
        } else {
            0
        }
    }

    /// What band `j` has more at the upper end; above the last row that is its cap.
    pub open spec fn more(self, row: int, j: int) -> int {
        let upper = if row + 1 <= 10 {
            in_row(row + 1, j, self.trim, self.lm)
        } else if self.cap[j] > 0 {
            int_math::max_of(self.cap[j] + tilt(j, self.trim, self.lm), 0)
        } else {
            self.cap[j]
        };
        int_math::max_of(upper + self.boosts[j] - self.lower(row, j), 0)
    }

    /// What the bands ask for `f` 64ths of the way between.
    pub open spec fn between(self, row: int, f: int) -> Seq<int> {
        Seq::new(21, |j: int| self.lower(row, j) + f * self.more(row, j) / 64)
    }

    /// The largest fraction found to fit by `steps` halvings of `lo` to `hi`.
    pub open spec fn part(self, row: int, lo: int, hi: int, steps: nat) -> int
        decreases steps,
    {
        if steps == 0 {
            lo
        } else {
            let mid = (lo + hi) / 2;
            if costs(self.between(row, mid), self.cap, self.lm, self.start).0 > self.total {
                self.part(row, lo, mid, (steps - 1) as nat)
            } else {
                self.part(row, mid, hi, (steps - 1) as nat)
            }
        }
    }

    /// What the bands have at fraction `f`.
    pub open spec fn first_shares(self, row: int, f: int) -> Seq<int> {
        let v = self.between(row, f);
        Seq::new(
            21,
            |j: int|
                if j < self.start {
                    0
                } else {
                    int_math::min_of(
                        if costs(v, self.cap, self.lm, j).1 {
                            v[j]
                        } else if v[j] >= 8 {
                            8
                        } else {
                            0
                        },
                        self.cap[j],
                    )
                },
        )
    }

    /// The last boosted band below `j`, or the first band: no band up to it is dropped.
    pub open spec fn stays(self, j: int) -> int
        decreases j - self.start,
    {
        if j <= self.start {
            self.start
        } else if self.boosts[j - 1] > 0 {
            j - 1
        } else {
            self.stays(j - 1)
        }
    }

    /// What band `coded - 1` would have if the rest were spread over the bands.
    pub open spec fn would_have(self, coded: int, sum: int, shares: Seq<int>) -> int {
        let j = coded - 1;
        let left = self.total - sum;
        let each = int_math::trunc_quotient(left, lines(self.start, coded));
        let rest = left - lines(self.start, coded) * each;
        shares[j] + each * lines(j, coded) + int_math::max_of(rest - lines(self.start, j), 0)
    }

    /// Drop bands from the top. Where a band is worth coding a bit says whether to
    /// stop; a band that is dropped keeps a bit or nothing.
    pub open spec fn drop_bands(
        self,
        d: Decoder,
        coded: int,
        sum: int,
        shares: Seq<int>,
        data: Seq<u8>,
    ) -> (int, int, Seq<int>, bool, Decoder)
        decreases coded,
    {
        let j = coded - 1;
        if coded <= 0 || j <= self.stays(21) {
            (coded, sum, shares, false, d)
        } else {
            let has = self.would_have(coded, sum, shares);
            let asked = has >= int_math::max_of(least(j, self.lm), 16);
            if asked && d.reads_bit(1) {
                (coded, sum, shares, true, d.accept_bit(1, data))
            } else {
                let (has2, sum2, d2) = if asked {
                    (has - 8, sum + 8, d.accept_bit(1, data))
                } else {
                    (has, sum, d)
                };
                let keeps = if has2 >= 8 {
                    8int
                } else {
                    0
                };
                self.drop_bands(
                    d2,
                    coded - 1,
                    sum2 - shares[j] + keeps,
                    shares.update(j, keeps),
                    data,
                )
            }
        }
    }

    /// What is left of `rest` single eighths when band `j` is reached: each band takes
    /// one for each of its lines.
    pub open spec fn rest_at(self, rest: int, j: int) -> int
        decreases j - self.start,
    {
        if j <= self.start {
            rest
        } else {
            let before = self.rest_at(rest, j - 1);
            before - int_math::min_of(before, lines(j - 1, j))
        }
    }

    /// The shares with `left` spread over the bands below `coded`.
    pub open spec fn topped_up(self, coded: int, left: int, shares: Seq<int>) -> Seq<int> {
        let each = int_math::trunc_quotient(left, lines(self.start, coded));
        let rest = left - lines(self.start, coded) * each;
        Seq::new(
            21,
            |j: int|
                if self.start <= j < coded {
                    shares[j] + each * lines(j, j + 1) + int_math::min_of(
                        self.rest_at(rest, j),
                        lines(j, j + 1),
                    )
                } else {
                    shares[j]
                },
        )
    }
}

/// How much a band of `n` coefficients that keeps `kept` is off an even split between
/// fine energy and shape.
pub open spec fn split_offset(n: int, log_n: int, kept: int) -> int {
    let even = n * log_n / 2 - 21 * n + (if n == 2 {
        4int
    } else {
        0
    });
    if kept + even < 16 * n {
        even + n * log_n / 4
    } else if kept + even < 24 * n {
        even + n * log_n / 8
    } else {
        even
    }
}

/// A band's part: shape bits, fine bits, whether it comes late, and what is carried on.
pub open spec fn split(j: int, has: int, carried: int, cap: int, lm: int) -> (int, int, int, int) {
    let n = size(j, lm);
    let limit = if n > 1 {
        cap
    } else {
        8
    };
    let over = int_math::max_of(has - limit, 0);
    let kept = has - over;
    let offset = split_offset(n, LOG_N_400[j] + 8 * lm, kept);
    let fine = if n > 1 {
        int_math::min_of(
            int_math::min_of(int_math::max_of(kept + offset + 4 * n, 0) / n / 8, 8),
            kept / 8,
        )
    } else {
        0
    };
    let late = if n <= 1 || fine * (8 * n) >= kept + offset {
        1int
    } else {
        0
    };
    if over > 0 {
        let extra = int_math::min_of(over / 8, 8 - fine);
        (
            kept - 8 * fine,
            fine + extra,
            if 8 * extra >= over - carried {
                1
            } else {
                0
            },
            over - 8 * extra,
        )
    } else {
        (kept - 8 * fine, fine, late, 0)
    }
}

/// What is carried to band `j` from the bands below.
pub open spec fn carried_to(v: Seq<int>, cap: Seq<int>, lm: int, start: int, j: int) -> int
    decreases j - start,
{
    if j <= start {
        0
    } else {
        let c = carried_to(v, cap, lm, start, j - 1);
        split(j - 1, v[j - 1] + c, c, cap[j - 1], lm).3
    }
}

/// The part of band `j`.
pub open spec fn part_of(v: Seq<int>, cap: Seq<int>, lm: int, start: int, j: int) -> (
    int,
    int,
    int,
    int,
) {
    let c = carried_to(v, cap, lm, start, j);
    split(j, v[j] + c, c, cap[j], lm)
}

/// The shares once the bands from `coded` up are dropped and `told` says whether a bit
/// was read for that.
pub open spec fn finished(t: Terms, coded: int, sum: int, kept: Seq<int>, told: bool) -> Allocation {
    let left = t.total + (if told {
        0
    } else {
        t.aside
    }) - sum;
    let v = t.topped_up(coded, left, kept);
    Allocation {
        coded,
        bits: Seq::new(
            21,
            |j: int|
                if t.start <= j < coded {
                    part_of(v, t.cap, t.lm, t.start, j).0
                } else {
                    0
                },
        ),
        fine: Seq::new(
            21,
            |j: int|
                if j < t.start {
                    0
                } else if j < coded {
                    part_of(v, t.cap, t.lm, t.start, j).1
                } else {
                    v[j] / 8
                },
        ),
        late: Seq::new(
            21,
            |j: int|
                if j < t.start {
                    0
                } else if j < coded {
                    part_of(v, t.cap, t.lm, t.start, j).2
                } else if v[j] / 8 < 1 {
                    1
                } else {
                    0
                },
        ),
        balance: carried_to(v, t.cap, t.lm, t.start, coded),
        flagged: told,
    }
}

/// What the bands have before any is dropped.
pub open spec fn undropped(t: Terms) -> Seq<int> {
    let row = t.row(1, 10);
    t.first_shares(row, t.part(row, 0, 64, 6))
}

/// The shares of a frame, and the decoder behind the bit that ends the dropping.
pub open spec fn shares(d: Decoder, t: Terms, data: Seq<u8>) -> (Allocation, Decoder) {
    let first = undropped(t);
    let (coded, sum, kept, told, d1) = t.drop_bands(
        d,
        21,
        crate::celt_alloc_laws::sum_between(first, t.start, 21),
        first,
        data,
    );
    (finished(t, coded, sum, kept, told), d1)
}

} // verus!
