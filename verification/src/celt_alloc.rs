//! How the bits of a CELT frame are shared out among its bands.
//!
//! All amounts are in eighths of a bit. A band's share is interpolated between
//! two rows of a static table so that the sum fits the budget; bands from the
//! top that are not worth coding are dropped, what is left is spread evenly,
//! and each share is split into fine energy bits and shape bits.
use crate::int_math::{div_floor, div_trunc, max_i32, min_i32};
use crate::opus_celt_tables::{
    BAND_ALLOCATION, CACHE_CAPS_50, EBAND_5MS, LOG_N_400, NUM_BANDS_CELT,
};
use crate::opus_range::RangeEncoder;
use vstd::prelude::*;

verus! {

/// Most fine energy bits of a band.
pub const MAX_FINE_BITS: i32 = 8;

/// Offset of the fine energy allocation, in eighths of a bit per coefficient.
pub const FINE_OFFSET: i32 = 21;

/// Number of rows of the allocation table.
pub const NB_ALLOC_VECTORS: i32 = 11;

/// Largest cap of a band: 64 times the cap and the tilt fit 32 bits.
pub const CAP_LIMIT: i32 = 0x1FF_0000;

/// Largest boost of a band: 64 times the boost and a row of the table fit 32
/// bits.
pub const BOOST_LIMIT: i32 = 0x1FF_0000;

/// What the intensity stereo parameter costs with that many bands below the last.
pub const LOG2_FRAC_TABLE: [u8; 24] = [
    0, 8, 13, 16, 19, 21, 23, 24, 26, 27, 28, 29, 30, 31, 32, 32, 33, 34, 34, 35, 36, 36, 37, 37,
];

/// `2^lm` for the four frame sizes.
pub open spec fn frame_scale(lm: int) -> int {
    if lm <= 0 {
        1
    } else if lm == 1 {
        2
    } else if lm == 2 {
        4
    } else {
        8
    }
}

/// The lower edge of band `j`.
pub open spec fn edge(j: int) -> int {
    EBAND_5MS[j] as int
}

/// The width of band `j`, before scaling to the frame size.
pub open spec fn width(j: int) -> int {
    EBAND_5MS[j + 1] - EBAND_5MS[j]
}

/// The most bits that band `j` can use.
pub open spec fn band_cap(j: int, lm: int) -> int {
    (CACHE_CAPS_50[42 * lm + j] + 64) * (width(j) * frame_scale(lm)) / 4
}

/// A band that gets less than this is not worth coding on its own.
pub open spec fn threshold(j: int, lm: int) -> int {
    crate::int_math::max_of(8, 3 * width(j) * frame_scale(lm) * 8 / 16)
}

/// How the trim tilts the allocation of band `j`.
pub open spec fn trim_offset(j: int, trim: int, lm: int) -> int {
    (width(j) * (trim - 5 - lm) * (20 - j) * (8 * frame_scale(lm))) / 64 - (if width(j)
        * frame_scale(lm) == 1 {
        8int
    } else {
        0
    })
}

/// The static allocation of band `j` in row `row`.
pub open spec fn row_bits(row: int, j: int, lm: int) -> int {
    width(j) * (BAND_ALLOCATION[21 * row + j] * frame_scale(lm)) / 4
}

/// Tilt an allocation that is not zero.
pub open spec fn tilted(bits: int, offset: int) -> int {
    if bits > 0 {
        crate::int_math::max_of(bits + offset, 0)
    } else {
        bits
    }
}

/// Band `j` or one above it reaches its threshold.
pub open spec fn active(v: Seq<int>, thresh: Seq<int>, j: int) -> bool
    decreases v.len() - j,
{
    j < v.len() && (v[j] >= thresh[j] || active(v, thresh, j + 1))
}

/// What bands `j` and up cost when they ask for `v`: bands that are not active
/// get `floor` or nothing.
pub open spec fn cost_from(
    v: Seq<int>,
    thresh: Seq<int>,
    cap: Seq<int>,
    floor: int,
    j: int,
) -> int
    decreases v.len() - j,
{
    if j >= v.len() {
        0
    } else {
        cost_from(v, thresh, cap, floor, j + 1) + (if active(v, thresh, j) {
            crate::int_math::min_of(v[j], cap[j])
        } else if v[j] >= floor {
            floor
        } else {
            0
        })
    }
}

/// The sum of the entries `j` and up.
pub open spec fn sum_from(v: Seq<int>, j: int) -> int
    decreases v.len() - j,
{
    if j >= v.len() {
        0
    } else {
        v[j] + sum_from(v, j + 1)
    }
}

/// The share of one band, split up.
pub struct Share {
    /// Bits for the band's shape.
    pub bits: int,
    /// Fine energy bits.
    pub fine: int,
    /// Whether the band comes late when spare bits refine energies.
    pub late: int,
    /// What the band could not use.
    pub carry: int,
}

/// How much more a band wants for its energies than an even split gives, when it
/// has `kept` for `den` coefficients of which `n` are in one channel.
pub open spec fn fine_offset(n: int, den: int, log_n: int, kept: int) -> int {
    let base = log_n / 2 - den * FINE_OFFSET + (if n == 2 {
        2 * den
    } else {
        0
    });
    base + (if kept + base < 16 * den {
        log_n / 4
    } else if kept + base < 24 * den {
        log_n / 8
    } else {
        0
    })
}

/// The fine energy bits of a band that keeps `kept`.
pub open spec fn fine_bits(den: int, kept: int, offset: int) -> int {
    crate::int_math::min_of(
        crate::int_math::min_of(
            crate::int_math::max_of(kept + offset + 4 * den, 0) / den / 8,
            MAX_FINE_BITS as int,
        ),
        kept / 8,
    )
}

/// Split what band `j` of `channels` channels has, `bit`, of which `carried` came
/// from the band below.
pub open spec fn share(j: int, bit: int, carried: int, cap: int, lm: int, channels: int) -> Share {
    let n = width(j) * frame_scale(lm);
    let den = channels * n;
    let limit = if n > 1 {
        cap
    } else {
        8 * channels
    };
    let excess = crate::int_math::max_of(bit - limit, 0);
    let kept = bit - excess;
    let offset = fine_offset(n, den, den * (LOG_N_400[j] + 8 * lm), kept);
    let fine = if n > 1 {
        fine_bits(den, kept, offset)
    } else {
        0
    };
    let late = n <= 1 || fine * (8 * den) >= kept + offset;
    let extra = crate::int_math::min_of(excess / 8, MAX_FINE_BITS - fine);
    if excess > 0 {
        Share {
            bits: kept - 8 * (channels * fine),
            fine: fine + extra,
            late: if 8 * (channels * extra) >= excess - carried {
                1
            } else {
                0
            },
            carry: excess - 8 * (channels * extra),
        }
    } else {
        Share {
            bits: kept - 8 * (channels * fine),
            fine,
            late: if late {
                1
            } else {
                0
            },
            carry: 0,
        }
    }
}

/// Which bands stay, and what they have so far.
pub struct Kept {
    /// Bands from here on up are dropped.
    pub coded: int,
    /// The sum of all shares, with what the intensity parameter costs more than
    /// was set aside.
    pub sum: int,
    /// The shares.
    pub bits: Seq<int>,
    /// A bit was written to say that no more bands are dropped.
    pub flagged: bool,
}

/// The finished allocation.
#[verifier::ext_equal]
pub struct Allocation {
    /// Bands from here on up get no shape.
    pub coded: int,
    /// Shape bits of each band.
    pub bits: Seq<int>,
    /// Fine energy bits of each band.
    pub fine: Seq<int>,
    /// 1 for the bands that come late when spare bits refine energies.
    pub late: Seq<int>,
    /// What the last band could not use.
    pub balance: int,
    /// A bit was written to say that no more bands are dropped.
    pub flagged: bool,
}

/// Two allocations to interpolate between, and the budget.
pub struct Interp {
    /// Allocation at fraction 0.
    pub bits1: Seq<int>,
    /// What fraction 1 adds.
    pub bits2: Seq<int>,
    /// Thresholds of the bands.
    pub thresh: Seq<int>,
    /// Most that each band can use.
    pub cap: Seq<int>,
    /// The budget.
    pub total: int,
    /// What was set aside for the bit that ends the search for dropped bands.
    pub reserved: int,
    /// What was set aside for the intensity stereo parameter.
    pub intensity: int,
    /// Number of channels.
    pub channels: int,
    /// Frame size.
    pub lm: int,
    /// First band.
    pub start: int,
    /// Behind the last band.
    pub end: int,
    /// Bands up to this one are never dropped.
    pub fixed: int,
}

impl Interp {
    /// What the bands ask for at fraction `f` of 64.
    pub open spec fn levels(self, f: int) -> Seq<int> {
        Seq::new(self.end as nat, |j: int| self.bits1[j] + f * self.bits2[j] / 64)
    }

    /// What a band that is not worth coding gets at most: a bit for each channel.
    pub open spec fn floor(self) -> int {
        8 * self.channels
    }

    /// The allocation at fraction `f` fits the budget.
    pub open spec fn fits(self, f: int) -> bool {
        cost_from(self.levels(f), self.thresh, self.cap, self.floor(), self.start) <= self.total
    }

    /// The fraction that `steps` halvings of `[lo, hi)` arrive at.
    pub open spec fn fraction(self, lo: int, hi: int, steps: nat) -> int
        decreases steps,
    {
        if steps == 0 {
            lo
        } else {
            let mid = (lo + hi) / 2;
            if self.fits(mid) {
                self.fraction(mid, hi, (steps - 1) as nat)
            } else {
                self.fraction(lo, mid, (steps - 1) as nat)
            }
        }
    }

    /// The shares at fraction `f`: inactive bands get the floor or nothing.
    pub open spec fn settled(self, f: int) -> Seq<int> {
        Seq::new(
            self.end as nat,
            |j: int|
                if j < self.start {
                    0
                } else {
                    crate::int_math::min_of(
                        if active(self.levels(f), self.thresh, j) {
                            self.levels(f)[j]
                        } else if self.levels(f)[j] >= self.floor() {
                            self.floor()
                        } else {
                            0
                        },
                        self.cap[j],
                    )
                },
        )
    }

    /// What the last of `coded` bands would have if all that is left of the
    /// budget were spread over the bands.
    pub open spec fn band_bits(self, coded: int, sum: int, bits: Seq<int>) -> int {
        let left = self.total - sum;
        let span = edge(coded) - edge(self.start);
        let per = crate::int_math::trunc_quotient(left, span);
        bits[coded - 1] + per * (edge(coded) - edge(coded - 1)) + crate::int_math::max_of(
            left - span * per - (edge(coded - 1) - edge(self.start)),
            0,
        )
    }

    /// What the intensity parameter costs once band `j` is dropped, if it cost
    /// `now` before.
    pub open spec fn intensity_below(self, now: int, j: int) -> int {
        if now > 0 {
            LOG2_FRAC_TABLE[crate::int_math::min_of(j - self.start, 23)] as int
        } else {
            now
        }
    }

    /// Drop bands from the top until one is worth coding; `now` is what the
    /// intensity parameter costs.
    pub open spec fn kept(self, coded: int, sum: int, bits: Seq<int>, now: int) -> Kept
        decreases coded,
    {
        let j = coded - 1;
        if coded <= 0 || j <= self.fixed {
            Kept { coded, sum, bits, flagged: false }
        } else {
            let band = self.band_bits(coded, sum, bits);
            if band >= crate::int_math::max_of(self.thresh[j], self.floor() + 8) {
                Kept { coded, sum, bits, flagged: true }
            } else {
                let less = if band >= self.floor() {
                    self.floor()
                } else {
                    0
                };
                let next = self.intensity_below(now, j);
                self.kept(
                    coded - 1,
                    sum - (bits[j] + now) + next + less,
                    bits.update(j, less),
                    next,
                )
            }
        }
    }

    /// What is left of `rem` spare eighths when band `j` is reached.
    pub open spec fn spare_at(self, rem: int, j: int) -> int
        decreases j - self.start,
    {
        if j <= self.start {
            rem
        } else {
            let before = self.spare_at(rem, j - 1);
            before - crate::int_math::min_of(before, width(j - 1))
        }
    }

    /// The shares of the kept bands once the rest of the budget is spread over
    /// them.
    pub open spec fn spread(self, k: Kept) -> Seq<int> {
        let left = self.total + (if k.flagged {
            0
        } else {
            self.reserved
        }) - k.sum;
        let span = edge(k.coded) - edge(self.start);
        let per = crate::int_math::trunc_quotient(left, span);
        let rem = left - span * per;
        Seq::new(
            self.end as nat,
            |j: int|
                if self.start <= j < k.coded {
                    k.bits[j] + per * width(j) + crate::int_math::min_of(
                        self.spare_at(rem, j),
                        width(j),
                    )
                } else {
                    k.bits[j]
                },
        )
    }

    /// What the bands below `j` could not use.
    pub open spec fn carried(self, bits: Seq<int>, j: int) -> int
        decreases j - self.start,
    {
        if j <= self.start {
            0
        } else {
            let before = self.carried(bits, j - 1);
            share(j - 1, bits[j - 1] + before, before, self.cap[j - 1], self.lm, self.channels).carry
        }
    }

    /// The split share of band `j`.
    pub open spec fn share_at(self, bits: Seq<int>, j: int) -> Share {
        let before = self.carried(bits, j);
        share(j, bits[j] + before, before, self.cap[j], self.lm, self.channels)
    }

    /// The finished allocation for the kept bands.
    pub open spec fn finished(self, k: Kept) -> Allocation {
        let bits = self.spread(k);
        Allocation {
            coded: k.coded,
            bits: Seq::new(
                self.end as nat,
                |j: int|
                    if self.start <= j < k.coded {
                        self.share_at(bits, j).bits
                    } else {
                        0
                    },
            ),
            fine: Seq::new(
                self.end as nat,
                |j: int|
                    if j < self.start {
                        0
                    } else if j < k.coded {
                        self.share_at(bits, j).fine
                    } else {
                        bits[j] / 8
                    },
            ),
            late: Seq::new(
                self.end as nat,
                |j: int|
                    if j < self.start {
                        0
                    } else if j < k.coded {
                        self.share_at(bits, j).late
                    } else if bits[j] / 8 < 1 {
                        1
                    } else {
                        0
                    },
            ),
            balance: self.carried(bits, k.coded),
            flagged: k.flagged,
        }
    }

    /// The whole allocation.
    pub open spec fn allocation(self) -> Allocation {
        let shares = self.settled(self.fraction(0, 64, 6));
        self.finished(
            self.kept(self.end, sum_from(shares, self.start), shares, self.intensity),
        )
    }

    /// How far a share can fall below nothing: by what the intensity parameter
    /// costs at most, if there is one.
    pub open spec fn dip(self) -> int {
        if self.intensity > 0 {
            37
        } else {
            0
        }
    }

    /// All that there is to share out, with what was set aside.
    pub open spec fn all(self) -> int {
        self.total + self.reserved + crate::int_math::max_of(self.intensity, 0)
    }

    /// Fraction 0 fits the budget, what the bands ask for is not negative, and no
    /// sum leaves 32 bits.
    pub open spec fn valid(self) -> bool {
        &&& 0 <= self.start < self.end <= 21
        &&& self.start <= self.fixed
        &&& self.bits1.len() >= self.end
        &&& self.bits2.len() >= self.end
        &&& self.thresh.len() >= self.end
        &&& self.cap.len() >= self.end
        &&& 0 <= self.lm <= 3
        &&& 1 <= self.channels <= 2
        &&& 0 <= self.total
        &&& 0 <= self.reserved
        &&& self.all() + 21 * self.dip() <= i32::MAX
        &&& forall|j: int| self.start <= j < self.end ==> 0 <= #[trigger] self.bits1[j]
        &&& forall|j: int|
            self.start <= j < self.end ==> 0 <= #[trigger] self.bits2[j] && 64 * self.bits2[j]
                <= i32::MAX && self.bits1[j] + self.bits2[j] <= i32::MAX
        &&& forall|j: int| self.start <= j < self.end ==> 0 <= #[trigger] self.cap[j] <= CAP_LIMIT
        &&& self.fits(0)
    }
}

/// What the shares of a frame depend on.
pub struct Demand {
    /// Boosts of the bands.
    pub offsets: Seq<int>,
    /// Most that each band can use.
    pub cap: Seq<int>,
    /// Allocation trim, 5 for neutral.
    pub trim: int,
    /// Frame size.
    pub lm: int,
    /// First band.
    pub start: int,
    /// The budget.
    pub total: int,
}

impl Demand {
    /// The sizes for which no sum leaves 32 bits.
    pub open spec fn valid(self) -> bool {
        &&& self.offsets.len() >= 21
        &&& self.cap.len() >= 21
        &&& 0 <= self.start < 21
        &&& 0 <= self.lm <= 3
        &&& 0 <= self.trim <= 10
        &&& self.total <= i32::MAX
        &&& forall|j: int| 0 <= j < 21 ==> 0 <= #[trigger] self.offsets[j] <= BOOST_LIMIT
        &&& forall|j: int| 0 <= j < 21 ==> 0 <= #[trigger] self.cap[j] <= CAP_LIMIT
    }

    /// Set aside for the bit that ends the search for dropped bands.
    pub open spec fn reserved(self) -> int {
        if self.total >= 8 {
            8
        } else {
            0
        }
    }

    /// The budget of the bands.
    pub open spec fn budget(self) -> int {
        crate::int_math::max_of(self.total, 0) - self.reserved()
    }

    /// Thresholds of the bands.
    pub open spec fn thresholds(self) -> Seq<int> {
        Seq::new(21, |j: int| threshold(j, self.lm))
    }

    /// What the bands ask for in row `row` of the table.
    pub open spec fn row(self, row: int) -> Seq<int> {
        Seq::new(
            21,
            |j: int|
                tilted(row_bits(row, j, self.lm), trim_offset(j, self.trim, self.lm))
                    + self.offsets[j],
        )
    }

    /// Row `row` fits the budget.
    pub open spec fn row_fits(self, row: int) -> bool {
        cost_from(self.row(row), self.thresholds(), self.cap, 8, self.start) <= self.budget()
    }

    /// The row that halving `[lo, hi]` arrives at: the last that was found to
    /// fit, or the one below `lo`.
    pub open spec fn row_search(self, lo: int, hi: int) -> int
        decreases hi - lo + 1,
    {
        if lo > hi {
            lo - 1
        } else {
            let mid = (lo + hi) / 2;
            if self.row_fits(mid) {
                self.row_search(mid + 1, hi)
            } else {
                self.row_search(lo, mid - 1)
            }
        }
    }

    /// The allocation of the chosen row; row 0 asks for nothing.
    pub open spec fn low(self, row: int) -> Seq<int> {
        Seq::new(
            21,
            |j: int|
                if row > 0 {
                    self.row(row)[j]
                } else {
                    0
                },
        )
    }

    /// What the next row up adds; above the last row the caps take its place.
    pub open spec fn gap(self, row: int) -> Seq<int> {
        Seq::new(
            21,
            |j: int|
                crate::int_math::max_of(
                    (if row + 1 < NB_ALLOC_VECTORS {
                        self.row(row + 1)[j]
                    } else {
                        tilted(self.cap[j], trim_offset(j, self.trim, self.lm)) + self.offsets[j]
                    }) - self.low(row)[j],
                    0,
                ),
        )
    }

    /// The last boosted band below `j`, or the first band.
    pub open spec fn last_boosted(self, j: int) -> int
        decreases j - self.start,
    {
        if j <= self.start {
            self.start
        } else if self.offsets[j - 1] > 0 {
            j - 1
        } else {
            self.last_boosted(j - 1)
        }
    }

    /// The two allocations to interpolate between.
    pub open spec fn interp(self) -> Interp {
        let row = self.row_search(1, NB_ALLOC_VECTORS - 1);
        Interp {
            bits1: self.low(row),
            bits2: self.gap(row),
            thresh: self.thresholds(),
            cap: self.cap,
            total: self.budget(),
            reserved: self.reserved(),
            intensity: 0,
            channels: 1,
            lm: self.lm,
            start: self.start,
            end: 21,
            fixed: self.last_boosted(21),
        }
    }

    /// The whole allocation.
    #[verifier::opaque]
    pub open spec fn allocation(self) -> Allocation {
        self.interp().allocation()
    }
}

/// The allocation of one frame.
pub struct CeltAllocResult {
    /// Bands from here on up get no shape.
    pub coded_bands: usize,
    /// Shape bits of each band, in eighths.
    pub pulses: Vec<i32>,
    /// Fine energy bits of each band.
    pub fine_quant: Vec<i32>,
    /// 1 for the bands that come late when spare bits refine energies.
    pub fine_priority: Vec<i32>,
    /// What the last band could not use.
    pub balance: i32,
}

impl CeltAllocResult {
    /// The result holds the allocation `a`.
    pub open spec fn holds(&self, a: Allocation) -> bool {
        &&& self.coded_bands == a.coded
        &&& crate::int_math::ints(self.pulses@) == a.bits
        &&& crate::int_math::ints(self.fine_quant@) == a.fine
        &&& crate::int_math::ints(self.fine_priority@) == a.late
        &&& self.balance == a.balance
    }
}

/// Everything about two allocations that the interpolation between them needs.
pub struct InterpBitsCtx<'a> {
    /// Allocation at fraction 0.
    pub bits1: &'a [i32],
    /// What fraction 1 adds.
    pub bits2: &'a [i32],
    /// Thresholds of the bands.
    pub thresh: &'a [i32],
    /// Most that each band can use.
    pub cap: &'a [i32],
    /// The budget.
    pub total: i32,
    /// Set aside for the bit that ends the search for dropped bands.
    pub skip_rsv: i32,
    /// Set aside for the intensity stereo parameter.
    pub intensity_rsv: i32,
    /// Set aside for the dual stereo flag, which is not written.
    pub dual_stereo_rsv: i32,
    /// Number of channels.
    pub channels: usize,
    /// Frame size.
    pub lm: usize,
}

impl<'a> InterpBitsCtx<'a> {
    /// The context as numbers, for the bands from `start` to below `end`, of which
    /// those up to `fixed` are never dropped.
    pub open spec fn model(&self, start: int, end: int, fixed: int) -> Interp {
        Interp {
            bits1: crate::int_math::ints(self.bits1@),
            bits2: crate::int_math::ints(self.bits2@),
            thresh: crate::int_math::ints(self.thresh@),
            cap: crate::int_math::ints(self.cap@),
            total: self.total as int,
            reserved: self.skip_rsv as int,
            intensity: self.intensity_rsv as int,
            channels: self.channels as int,
            lm: self.lm as int,
            start,
            end,
            fixed,
        }
    }
}

/// The width of band `j`, before scaling to the frame size.
fn width_of(j: usize) -> (r: i32)
    requires
        j < 21,
    ensures
        r == width(j as int),
        1 <= r <= 22,
{
    EBAND_5MS[j + 1] as i32 - EBAND_5MS[j] as i32
}

/// The distance from the lower edge of band `a` to that of band `b`.
fn span_of(a: usize, b: usize) -> (r: i32)
    requires
        a <= b <= 21,
    ensures
        r == edge(b as int) - edge(a as int),
        b - a <= r <= 100,
{
    EBAND_5MS[b] as i32 - EBAND_5MS[a] as i32
}

/// `2^lm` for the four frame sizes.
fn scale_of(lm: usize) -> (r: i32)
    requires
        lm <= 3,
    ensures
        r == frame_scale(lm as int),
        1 <= r <= 8,
{
    if lm == 0 {
        1
    } else if lm == 1 {
        2
    } else if lm == 2 {
        4
    } else {
        8
    }
}

/// Bounds of what a band asks for at fraction `f`.
pub proof fn lemma_level_bound(x: Interp, f: int, j: int)
    requires
        x.valid(),
        0 <= f <= 64,
        x.start <= j < x.end,
    ensures
        0 <= f * x.bits2[j] <= i32::MAX,
        0 <= x.levels(f)[j] <= i32::MAX,
{
    let b = x.bits2[j];
    assert(0 <= x.bits1[j]);
    assert(0 <= f * b <= 64 * b) by (nonlinear_arith)
        requires
            0 <= f <= 64,
            0 <= b,
    ;
}

/// What the bands cost at fraction `f`.
fn cost_at(
    ctx: &InterpBitsCtx<'_>,
    start: usize,
    end: usize,
    f: i32,
    Ghost(fixed): Ghost<int>,
) -> (r: i32)
    requires
        ctx.model(start as int, end as int, fixed).valid(),
        0 <= f <= 64,
    ensures
        ({
            let x = ctx.model(start as int, end as int, fixed);
            r == cost_from(x.levels(f as int), x.thresh, x.cap, x.floor(), start as int)
        }),
{
    let ghost x = ctx.model(start as int, end as int, fixed);
    let ghost v = x.levels(f as int);
    let floor: i32 = 8 * ctx.channels as i32;
    let mut psum: i32 = 0;
    let mut done: bool = false;
    let mut j: usize = end;
    while j > start
        invariant
            x == ctx.model(start as int, end as int, fixed),
            v == x.levels(f as int),
            x.valid(),
            0 <= f <= 64,
            floor == x.floor(),
            0 <= floor <= 16,
            start <= j <= end <= 21,
            done == active(v, x.thresh, j as int),
            psum == cost_from(v, x.thresh, x.cap, x.floor(), j as int),
            0 <= psum <= (end - j) * 0x1FF_0010,
        decreases j,
    {
        j = j - 1;
        proof {
            lemma_level_bound(x, f as int, j as int);
            assert(x.bits1[j as int] == ctx.bits1@[j as int]);
            assert(x.bits2[j as int] == ctx.bits2@[j as int]);
            assert(x.thresh[j as int] == ctx.thresh@[j as int]);
            assert(x.cap[j as int] == ctx.cap@[j as int]);
        }
        let tmp: i32 = ctx.bits1[j] + (f * ctx.bits2[j]) / 64;
        if tmp >= ctx.thresh[j] || done {
            done = true;
            psum = psum + min_i32(tmp, ctx.cap[j]);
        } else if tmp >= floor {
            psum = psum + floor;
        }
    }
    psum
}

/// The search for a fraction that starts from one that fits ends with one that
/// fits.
pub proof fn lemma_fraction_fits(x: Interp, lo: int, hi: int, steps: nat)
    requires
        x.fits(lo),
        0 <= lo <= hi <= 64,
    ensures
        x.fits(x.fraction(lo, hi, steps)),
        0 <= x.fraction(lo, hi, steps) <= 64,
    decreases steps,
{
    if steps > 0 {
        let mid = (lo + hi) / 2;
        if x.fits(mid) {
            lemma_fraction_fits(x, mid, hi, (steps - 1) as nat);
        } else {
            lemma_fraction_fits(x, lo, mid, (steps - 1) as nat);
        }
    }
}

/// The settled shares cost no more than the fraction they come from.
pub proof fn lemma_settled_sum(x: Interp, f: int, j: int)
    requires
        x.valid(),
        0 <= f <= 64,
        x.start <= j <= x.end,
    ensures
        0 <= sum_from(x.settled(f), j) <= cost_from(
            x.levels(f),
            x.thresh,
            x.cap,
            x.floor(),
            j,
        ),
    decreases x.end - j,
{
    if j < x.end {
        lemma_settled_sum(x, f, j + 1);
        lemma_level_bound(x, f, j);
    }
}

/// Replacing one entry changes the sum by the difference.
pub proof fn lemma_sum_update(v: Seq<int>, i: int, value: int, j: int)
    requires
        0 <= j <= v.len(),
        0 <= i < v.len(),
    ensures
        sum_from(v.update(i, value), j) == sum_from(v, j) + (if i >= j {
            value - v[i]
        } else {
            0
        }),
    decreases v.len() - j,
{
    if j < v.len() {
        lemma_sum_update(v, i, value, j + 1);
    }
}

/// The sum of entries that are not negative is not negative.
pub proof fn lemma_sum_nonnegative(v: Seq<int>, j: int)
    requires
        0 <= j <= v.len(),
        forall|i: int| j <= i < v.len() ==> 0 <= #[trigger] v[i],
    ensures
        0 <= sum_from(v, j),
    decreases v.len() - j,
{
    if j < v.len() {
        lemma_sum_nonnegative(v, j + 1);
    }
}

/// No entry is greater than the sum of entries that are not negative.
pub proof fn lemma_part_of_sum(v: Seq<int>, j: int, i: int)
    requires
        0 <= j <= i < v.len(),
        forall|n: int| j <= n < v.len() ==> 0 <= #[trigger] v[n],
    ensures
        v[i] <= sum_from(v, j),
{
    lemma_sum_update(v, i, 0, j);
    lemma_sum_nonnegative(v.update(i, 0), j);
}

/// A band's part of an even spread is at most all that is spread.
pub proof fn lemma_per_bound(left: int, span: int, w: int)
    requires
        0 < span <= 100,
        0 <= w <= span,
    ensures
        left >= 0 ==> {
            let per = crate::int_math::trunc_quotient(left, span);
            0 <= per && 0 <= per * w <= per * span <= left < per * span + span && per * span == span
                * per
        },
        left < 0 ==> {
            let per = crate::int_math::trunc_quotient(left, span);
            per <= 0 && 0 >= per * w >= per * span >= left > per * span - span && per * span == span
                * per
        },
{
    let a = if left >= 0 {
        left
    } else {
        -left
    };
    vstd::arithmetic::div_mod::lemma_fundamental_div_mod(a, span);
    vstd::arithmetic::div_mod::lemma_mod_bound(a, span);
    vstd::arithmetic::div_mod::lemma_div_pos_is_pos(a, span);
    let q = a / span;
    let r = a % span;
    assert(0 <= q * w <= q * span && q * span == span * q && (-q) * w == -(q * w) && (-q) * span
        == -(q * span) && span * (-q) == -(q * span)) by (nonlinear_arith)
        requires
            0 <= q,
            0 <= w <= span,
    ;
}

/// A band would have its share and at most all that is left; where more than
/// everything is spent, it would give up at most what is missing.
pub proof fn lemma_band_bits_bound(x: Interp, coded: int, sum: int, bits: Seq<int>)
    requires
        0 <= x.start < coded - 1,
        coded <= 21,
    ensures
        sum <= x.total ==> bits[coded - 1] <= x.band_bits(coded, sum, bits) <= bits[coded - 1]
            + x.total - sum,
        sum > x.total ==> bits[coded - 1] + x.total - sum <= x.band_bits(coded, sum, bits)
            <= bits[coded - 1],
{
    let span = edge(coded) - edge(x.start);
    let w = edge(coded) - edge(coded - 1);
    lemma_per_bound(x.total - sum, span, w);
}

/// The fraction at which the bands fit the budget.
fn find_fraction(
    ctx: &InterpBitsCtx<'_>,
    start: usize,
    end: usize,
    Ghost(fixed): Ghost<int>,
) -> (r: i32)
    requires
        ctx.model(start as int, end as int, fixed).valid(),
    ensures
        r == ctx.model(start as int, end as int, fixed).fraction(0, 64, 6),
        0 <= r <= 64,
{
    let ghost x = ctx.model(start as int, end as int, fixed);
    let mut lo: i32 = 0;
    let mut hi: i32 = 64;
    let mut step: u32 = 0;
    while step < 6
        invariant
            x == ctx.model(start as int, end as int, fixed),
            x.valid(),
            step <= 6,
            0 <= lo <= hi <= 64,
            x.fraction(0, 64, 6) == x.fraction(lo as int, hi as int, (6 - step) as nat),
        decreases 6 - step,
    {
        let mid: i32 = (lo + hi) / 2;
        let cost: i32 = cost_at(ctx, start, end, mid, Ghost(fixed));
        if cost > ctx.total {
            hi = mid;
        } else {
            lo = mid;
        }
        step = step + 1;
    }
    lo
}

/// The shares at fraction `f`, and their sum.
fn settle(
    ctx: &InterpBitsCtx<'_>,
    start: usize,
    end: usize,
    f: i32,
    Ghost(fixed): Ghost<int>,
) -> (r: (Vec<i32>, i32))
    requires
        ctx.model(start as int, end as int, fixed).valid(),
        0 <= f <= 64,
    ensures
        crate::int_math::ints(r.0@) == ctx.model(start as int, end as int, fixed).settled(
            f as int,
        ),
        r.1 == sum_from(
            ctx.model(start as int, end as int, fixed).settled(f as int),
            start as int,
        ),
        r.0@.len() == end,
        forall|j: int| 0 <= j < end ==> 0 <= #[trigger] r.0@[j] <= CAP_LIMIT,
{
    let ghost x = ctx.model(start as int, end as int, fixed);
    let ghost v = x.levels(f as int);
    let ghost target = x.settled(f as int);
    let floor: i32 = 8 * ctx.channels as i32;
    let mut bits: Vec<i32> = vec![0i32; end];
    let mut psum: i32 = 0;
    let mut done: bool = false;
    let mut j: usize = end;
    while j > start
        invariant
            x == ctx.model(start as int, end as int, fixed),
            v == x.levels(f as int),
            target == x.settled(f as int),
            x.valid(),
            0 <= f <= 64,
            floor == x.floor(),
            0 <= floor <= 16,
            start <= j <= end <= 21,
            bits@.len() == end,
            done == active(v, x.thresh, j as int),
            psum == sum_from(target, j as int),
            0 <= psum <= (end - j) * 0x1FF_0010,
            forall|i: int| j <= i < end ==> #[trigger] bits@[i] == target[i],
            forall|i: int| 0 <= i < end ==> 0 <= #[trigger] bits@[i] <= CAP_LIMIT,
            forall|i: int| 0 <= i < j ==> #[trigger] bits@[i] == 0,
        decreases j,
    {
        j = j - 1;
        proof {
            lemma_level_bound(x, f as int, j as int);
            assert(x.bits1[j as int] == ctx.bits1@[j as int]);
            assert(x.bits2[j as int] == ctx.bits2@[j as int]);
            assert(x.thresh[j as int] == ctx.thresh@[j as int]);
            assert(x.cap[j as int] == ctx.cap@[j as int]);
        }
        let mut tmp: i32 = ctx.bits1[j] + (f * ctx.bits2[j]) / 64;
        if tmp < ctx.thresh[j] && !done {
            tmp = if tmp >= floor {
                floor
            } else {
                0
            };
        } else {
            done = true;
        }
        tmp = min_i32(tmp, ctx.cap[j]);
        bits.set(j, tmp);
        psum = psum + tmp;
    }
    proof {
        assert(crate::int_math::ints(bits@) =~= target);
    }
    (bits, psum)
}

/// The intensity parameter costs less with fewer bands.
proof fn lemma_intensity_costs(x: Interp, j: int)
    requires
        x.start < j,
    ensures
        0 < LOG2_FRAC_TABLE[crate::int_math::min_of(j - x.start, 23)] <= 37,
        LOG2_FRAC_TABLE[crate::int_math::min_of(j - x.start, 23)]
            <= LOG2_FRAC_TABLE[crate::int_math::min_of(j + 1 - x.start, 23)],
{
}

/// Drop bands from the top until one is worth coding. Returns the number of
/// bands kept, the sum, and whether a bit says so.
fn keep_bands(
    ctx: &InterpBitsCtx<'_>,
    start: usize,
    end: usize,
    fixed: usize,
    bits: &mut Vec<i32>,
    psum: i32,
) -> (r: (usize, i32, bool))
    requires
        ctx.model(start as int, end as int, fixed as int).valid(),
        old(bits)@.len() == end,
        forall|j: int| 0 <= j < end ==> 0 <= #[trigger] old(bits)@[j] <= CAP_LIMIT,
        psum == sum_from(crate::int_math::ints(old(bits)@), start as int),
        psum <= ctx.total,
    ensures
        final(bits)@.len() == end,
        ({
            let x = ctx.model(start as int, end as int, fixed as int);
            let k = x.kept(
                end as int,
                psum as int,
                crate::int_math::ints(old(bits)@),
                ctx.intensity_rsv as int,
            );
            let s = sum_from(crate::int_math::ints(final(bits)@), start as int);
            &&& r.0 == k.coded
            &&& r.1 == k.sum
            &&& r.2 == k.flagged
            &&& crate::int_math::ints(final(bits)@) == k.bits
            &&& 0 <= s <= ctx.total + crate::int_math::max_of(ctx.intensity_rsv as int, 0)
            &&& s - crate::int_math::max_of(ctx.intensity_rsv as int, 0) <= r.1 <= ctx.total
                + x.dip()
        }),
        start < r.0 <= end,
        forall|j: int| 0 <= j < end ==> 0 <= #[trigger] final(bits)@[j] <= CAP_LIMIT,
        forall|j: int| r.0 <= j < end ==> #[trigger] final(bits)@[j] <= 16,
{
    let ghost x = ctx.model(start as int, end as int, fixed as int);
    let ghost goal = x.kept(
        end as int,
        psum as int,
        crate::int_math::ints(bits@),
        ctx.intensity_rsv as int,
    );
    let ghost most = crate::int_math::max_of(ctx.intensity_rsv as int, 0);
    let floor: i32 = 8 * ctx.channels as i32;
    proof {
        lemma_sum_nonnegative(crate::int_math::ints(bits@), start as int);
    }
    let mut sum: i32 = psum;
    let mut now: i32 = ctx.intensity_rsv;
    let mut coded: usize = end;
    while coded - 1 > fixed
        invariant
            x == ctx.model(start as int, end as int, fixed as int),
            x.valid(),
            start < coded <= end <= 21,
            fixed < coded || coded == end,
            most == crate::int_math::max_of(ctx.intensity_rsv as int, 0),
            floor == x.floor(),
            8 <= floor <= 16,
            bits@.len() == end,
            now <= 0 ==> now == ctx.intensity_rsv,
            now > 0 ==> ctx.intensity_rsv > 0,
            coded == end ==> now == ctx.intensity_rsv && sum <= ctx.total,
            coded < end && now > 0 ==> now == LOG2_FRAC_TABLE[crate::int_math::min_of(
                coded - start,
                23,
            )],
            0 <= sum_from(crate::int_math::ints(bits@), start as int) <= ctx.total + most,
            sum == sum_from(crate::int_math::ints(bits@), start as int) - ctx.intensity_rsv + now,
            sum <= ctx.total + x.dip(),
            goal == x.kept(
                end as int,
                psum as int,
                crate::int_math::ints(old(bits)@),
                ctx.intensity_rsv as int,
            ),
            goal == x.kept(
                coded as int,
                sum as int,
                crate::int_math::ints(bits@),
                now as int,
            ),
            forall|j: int| 0 <= j < end ==> 0 <= #[trigger] bits@[j] <= CAP_LIMIT,
            forall|j: int| coded <= j < end ==> #[trigger] bits@[j] <= 16,
        decreases coded,
    {
        let j: usize = coded - 1;
        let ghost b = crate::int_math::ints(bits@);
        let ghost whole = sum_from(b, start as int);
        let left: i32 = ctx.total - sum;
        let span: i32 = span_of(start, coded);
        let per: i32 = div_trunc(left, span);
        let w: i32 = span_of(j, coded);
        let below: i32 = span_of(start, j);
        proof {
            lemma_per_bound(left as int, span as int, w as int);
            lemma_band_bits_bound(x, coded as int, sum as int, b);
            lemma_part_of_sum(b, start as int, j as int);
            lemma_intensity_costs(x, j as int);
            assert(x.thresh[j as int] == ctx.thresh@[j as int]);
        }
        let rem: i32 = max_i32(left - span * per - below, 0);
        let band: i32 = bits[j] + per * w + rem;
        assert(band == x.band_bits(coded as int, sum as int, b));
        if band >= max_i32(ctx.thresh[j], floor + 8) {
            return (coded, sum, true);
        }
        let less: i32 = if band >= floor {
            floor
        } else {
            0
        };
        proof {
            lemma_sum_update(b, j as int, less as int, start as int);
            assert(crate::int_math::ints(bits@.update(j as int, less)) =~= b.update(
                j as int,
                less as int,
            ));
        }
        sum = sum - bits[j] + less;
        if now > 0 {
            let away: usize = j - start;
            let next: i32 = LOG2_FRAC_TABLE[if away < 23 {
                away
            } else {
                23
            }] as i32;
            sum = sum - now + next;
            now = next;
        }
        bits.set(j, less);
        proof {
            lemma_sum_nonnegative(crate::int_math::ints(bits@), start as int);
        }
        coded = coded - 1;
    }
    (coded, sum, false)
}

/// What is spare stays between nothing and what there was.
pub proof fn lemma_spare_bound(x: Interp, rem: int, j: int)
    requires
        0 <= x.start <= j <= 21,
    ensures
        rem >= 0 ==> 0 <= x.spare_at(rem, j) <= rem,
        rem <= 0 ==> rem <= x.spare_at(rem, j) <= 0,
        rem <= 0 && j > x.start ==> x.spare_at(rem, j) == 0,
    decreases j - x.start,
{
    if j > x.start {
        lemma_spare_bound(x, rem, j - 1);
    }
}

/// Spread the rest of the budget over the kept bands.
#[verifier::rlimit(30)]
fn spread_rest(
    ctx: &InterpBitsCtx<'_>,
    start: usize,
    end: usize,
    coded: usize,
    left: i32,
    bits: &mut Vec<i32>,
    Ghost(k): Ghost<Kept>,
    Ghost(fixed): Ghost<int>,
)
    requires
        ctx.model(start as int, end as int, fixed).valid(),
        start < coded <= end,
        coded == k.coded,
        left == ctx.total + (if k.flagged {
            0
        } else {
            ctx.skip_rsv as int
        }) - k.sum,
        -ctx.model(start as int, end as int, fixed).dip() <= left,
        left + sum_from(k.bits, start as int) <= i32::MAX,
        old(bits)@.len() == end,
        crate::int_math::ints(old(bits)@) == k.bits,
        forall|j: int| 0 <= j < end ==> 0 <= #[trigger] old(bits)@[j] <= CAP_LIMIT,
    ensures
        final(bits)@.len() == end,
        crate::int_math::ints(final(bits)@) == ctx.model(start as int, end as int, fixed).spread(
            k,
        ),
        forall|j: int|
            0 <= j < end ==> #[trigger] final(bits)@[j] >= -ctx.model(
                start as int,
                end as int,
                fixed,
            ).dip(),
        forall|j: int| coded <= j < end ==> #[trigger] final(bits)@[j] == old(bits)@[j],
{
    let ghost x = ctx.model(start as int, end as int, fixed);
    let ghost goal = x.spread(k);
    let ghost dip = x.dip();
    let span: i32 = span_of(start, coded);
    let per: i32 = div_trunc(left, span);
    proof {
        lemma_per_bound(left as int, span as int, span as int);
    }
    let rem: i32 = left - span * per;
    let mut spare: i32 = rem;
    let mut j: usize = start;
    while j < coded
        invariant
            x == ctx.model(start as int, end as int, fixed),
            goal == x.spread(k),
            x.valid(),
            start <= j <= coded <= end <= 21,
            start < coded,
            coded == k.coded,
            left == ctx.total + (if k.flagged {
                0
            } else {
                ctx.skip_rsv as int
            }) - k.sum,
            dip == x.dip(),
            -dip <= left,
            left + sum_from(k.bits, start as int) <= i32::MAX,
            span == edge(coded as int) - edge(start as int),
            0 < span <= 100,
            per == crate::int_math::trunc_quotient(left as int, span as int),
            rem == left - span * per,
            -100 <= rem <= 100,
            spare == x.spare_at(rem as int, j as int),
            crate::int_math::ints(old(bits)@) == k.bits,
            forall|i: int| 0 <= i < end ==> 0 <= #[trigger] old(bits)@[i] <= CAP_LIMIT,
            bits@.len() == end,
            old(bits)@.len() == end,
            forall|i: int| start <= i < j ==> #[trigger] bits@[i] == goal[i] && bits@[i] >= -dip,
            forall|i: int|
                0 <= i < end && !(start <= i < j) ==> #[trigger] bits@[i] == old(bits)@[i],
        decreases coded - j,
    {
        let w: i32 = width_of(j);
        proof {
            assert(w <= span);
            lemma_per_bound(left as int, span as int, w as int);
            lemma_spare_bound(x, rem as int, j as int);
            assert(k.bits[j as int] == old(bits)@[j as int]);
            assert(bits@[j as int] == old(bits)@[j as int]);
            assert forall|i: int| 0 <= i < end implies 0 <= #[trigger] k.bits[i] by {
                assert(0 <= old(bits)@[i]);
            }
            lemma_part_of_sum(k.bits, start as int, j as int);
        }
        let give: i32 = min_i32(spare, w);
        let b: i32 = bits[j] + per * w + give;
        bits.set(j, b);
        spare = spare - give;
        proof {
            assert(b == goal[j as int]);
        }
        j = j + 1;
    }
    proof {
        assert forall|i: int| 0 <= i < end implies #[trigger] crate::int_math::ints(bits@)[i]
            == goal[i] by {
            if !(start <= i < coded) {
                assert(k.bits[i] == old(bits)@[i]);
                assert(bits@[i] == old(bits)@[i]);
            }
        }
        assert(crate::int_math::ints(bits@) =~= goal);
    }
}

/// The fine energy bits of a band, and whether it comes late.
fn fine_of(n: i32, den: i32, log_n: i32, kept: i32) -> (r: (i32, i32))
    requires
        1 <= den <= 352,
        0 <= log_n <= 21120,
        -0x100 <= kept <= CAP_LIMIT,
    ensures
        ({
            let offset = fine_offset(n as int, den as int, log_n as int, kept as int);
            &&& r.0 == fine_bits(den as int, kept as int, offset)
            &&& r.1 == (if r.0 * (8 * den) >= kept + offset {
                1int
            } else {
                0
            })
        }),
        -32 <= r.0 <= MAX_FINE_BITS,
        0 <= kept ==> 0 <= r.0,
{
    let mut offset: i32 = log_n / 2 - den * FINE_OFFSET;
    if n == 2 {
        offset = offset + 2 * den;
    }
    if kept + offset < 16 * den {
        offset = offset + log_n / 4;
    } else if kept + offset < 24 * den {
        offset = offset + log_n / 8;
    }
    let want: i32 = max_i32(kept + offset + 4 * den, 0);
    proof {
        vstd::arithmetic::div_mod::lemma_div_pos_is_pos(want as int, den as int);
    }
    let fine: i32 = min_i32(min_i32((want / den) / 8, MAX_FINE_BITS), div_floor(kept, 8));
    proof {
        assert(-32 <= fine <= 8);
        assert(-90112 <= fine * (8 * den) <= 22528) by (nonlinear_arith)
            requires
                -32 <= fine <= 8,
                1 <= den <= 352,
        ;
    }
    let late: i32 = if fine * (8 * den) >= kept + offset {
        1
    } else {
        0
    };
    (fine, late)
}

/// A band's share in machine integers.
fn share_of(j: usize, bit: i32, carried: i32, cap: i32, lm: usize, channels: usize) -> (r: (
    i32,
    i32,
    i32,
    i32,
))
    requires
        j < 21,
        lm <= 3,
        1 <= channels <= 2,
        -0x100 <= bit,
        bit - carried <= i32::MAX,
        0 <= cap <= CAP_LIMIT,
    ensures
        ({
            let s = share(
                j as int,
                bit as int,
                carried as int,
                cap as int,
                lm as int,
                channels as int,
            );
            r.0 == s.bits && r.1 == s.fine && r.2 == s.late && r.3 == s.carry
        }),
        -64 <= r.3,
        r.3 <= bit || r.3 == 0,
{
    let w: i32 = width_of(j);
    let scale: i32 = scale_of(lm);
    let c: i32 = channels as i32;
    proof {
        assert(1 <= w * scale <= 176) by (nonlinear_arith)
            requires
                1 <= w <= 22,
                1 <= scale <= 8,
        ;
        let m = w * scale;
        assert(1 <= c * m <= 352) by (nonlinear_arith)
            requires
                1 <= c <= 2,
                1 <= m <= 176,
        ;
    }
    let n: i32 = w * scale;
    let den: i32 = c * n;
    let mut fine: i32 = 0;
    let mut late: i32 = 1;
    let limit: i32 = if n > 1 {
        cap
    } else {
        8 * c
    };
    let excess: i32 = max_i32(bit - limit, 0);
    let kept: i32 = bit - excess;
    if n > 1 {
        let g: i32 = LOG_N_400[j] as i32 + 8 * lm as i32;
        proof {
            assert(0 <= g <= 60);
            assert(0 <= den * g <= 21120) by (nonlinear_arith)
                requires
                    1 <= den <= 352,
                    0 <= g <= 60,
            ;
        }
        let (f, l) = fine_of(n, den, den * g, kept);
        fine = f;
        late = l;
    }
    proof {
        assert(-64 <= c * fine <= 16) by (nonlinear_arith)
            requires
                1 <= c <= 2,
                -32 <= fine <= 8,
        ;
    }
    let rest: i32 = kept - 8 * (c * fine);
    if excess > 0 {
        let extra: i32 = min_i32(excess / 8, MAX_FINE_BITS - fine);
        proof {
            assert(0 <= extra <= 8);
            assert(c == 1 ==> c * extra == extra);
            assert(c == 2 ==> c * extra == 2 * extra);
        }
        let late2: i32 = if 8 * (c * extra) >= excess - carried {
            1
        } else {
            0
        };
        (rest, fine + extra, late2, excess - 8 * (c * extra))
    } else {
        (rest, fine, late, 0)
    }
}

/// Split the shares of all bands.
#[verifier::rlimit(30)]
fn split_shares(
    ctx: &InterpBitsCtx<'_>,
    start: usize,
    end: usize,
    coded: usize,
    bits: Vec<i32>,
    Ghost(k): Ghost<Kept>,
    Ghost(fixed): Ghost<int>,
) -> (r: CeltAllocResult)
    requires
        ctx.model(start as int, end as int, fixed).valid(),
        start < coded <= end,
        coded == k.coded,
        bits@.len() == end,
        crate::int_math::ints(bits@) == ctx.model(start as int, end as int, fixed).spread(k),
        forall|j: int|
            0 <= j < end ==> #[trigger] bits@[j] >= -ctx.model(
                start as int,
                end as int,
                fixed,
            ).dip(),
        crate::celt_alloc_laws::sum_between(
            ctx.model(start as int, end as int, fixed).spread(k),
            start as int,
            coded as int,
        ) <= ctx.model(start as int, end as int, fixed).all(),
        forall|j: int| coded <= j < end ==> 0 <= #[trigger] bits@[j] <= 16,
    ensures
        r.holds(ctx.model(start as int, end as int, fixed).finished(k)),
{
    let ghost x = ctx.model(start as int, end as int, fixed);
    let ghost spread = x.spread(k);
    let ghost goal = x.finished(k);
    let ghost dip = x.dip();
    let mut pulses: Vec<i32> = vec![0i32; end];
    let mut fine: Vec<i32> = vec![0i32; end];
    let mut late: Vec<i32> = vec![0i32; end];
    let mut balance: i32 = 0;
    let mut j: usize = start;
    proof {
        assert forall|i: int| 0 <= i < end implies #[trigger] spread[i] >= -dip by {
            assert(bits@[i] >= -dip);
        }
    }
    while j < coded
        invariant
            forall|i: int| 0 <= i < end ==> #[trigger] spread[i] >= -dip,
            x == ctx.model(start as int, end as int, fixed),
            spread == x.spread(k),
            goal == x.finished(k),
            x.valid(),
            dip == x.dip(),
            start <= j <= coded <= end <= 21,
            coded == k.coded,
            bits@.len() == end,
            crate::int_math::ints(bits@) == spread,
            crate::celt_alloc_laws::sum_between(spread, start as int, coded as int) <= x.all(),
            balance == x.carried(spread, j as int),
            -64 <= balance,
            balance <= crate::celt_alloc_laws::sum_between(spread, start as int, j as int) + dip
                * (j - start),
            0 <= crate::celt_alloc_laws::sum_between(spread, start as int, j as int) + dip * (j
                - start),
            pulses@.len() == end && fine@.len() == end && late@.len() == end,
            forall|i: int| 0 <= i < j ==> #[trigger] pulses@[i] == goal.bits[i],
            forall|i: int| 0 <= i < j ==> #[trigger] fine@[i] == goal.fine[i],
            forall|i: int| 0 <= i < j ==> #[trigger] late@[i] == goal.late[i],
            forall|i: int| j <= i < end ==> #[trigger] pulses@[i] == 0,
        decreases coded - j,
    {
        proof {
            assert(x.cap[j as int] == ctx.cap@[j as int]);
            assert(spread[j as int] == bits@[j as int]);
            crate::celt_alloc_laws::lemma_sum_between_dips(
                spread,
                start as int,
                j + 1,
                coded as int,
                dip,
            );
        }
        let (b, f, l, carry) = share_of(
            j,
            bits[j] + balance,
            balance,
            ctx.cap[j],
            ctx.lm,
            ctx.channels,
        );
        pulses.set(j, b);
        fine.set(j, f);
        late.set(j, l);
        balance = carry;
        j = j + 1;
    }
    while j < end
        invariant
            x == ctx.model(start as int, end as int, fixed),
            spread == x.spread(k),
            goal == x.finished(k),
            start < coded <= j <= end <= 21,
            coded == k.coded,
            bits@.len() == end,
            end == x.end,
            crate::int_math::ints(bits@) == spread,
            forall|i: int| coded <= i < end ==> 0 <= #[trigger] bits@[i] <= 16,
            pulses@.len() == end && fine@.len() == end && late@.len() == end,
            forall|i: int| 0 <= i < j ==> #[trigger] pulses@[i] == goal.bits[i],
            forall|i: int| 0 <= i < j ==> #[trigger] fine@[i] == goal.fine[i],
            forall|i: int| 0 <= i < j ==> #[trigger] late@[i] == goal.late[i],
            forall|i: int| j <= i < end ==> #[trigger] pulses@[i] == 0,
        decreases end - j,
    {
        proof {
            assert(spread[j as int] == bits@[j as int]);
        }
        let f: i32 = bits[j] / 8;
        fine.set(j, f);
        late.set(
            j,
            if f < 1 {
                1
            } else {
                0
            },
        );
        j = j + 1;
    }
    proof {
        assert(crate::int_math::ints(pulses@) =~= goal.bits);
        assert(crate::int_math::ints(fine@) =~= goal.fine);
        assert(crate::int_math::ints(late@) =~= goal.late);
    }
    CeltAllocResult {
        coded_bands: coded,
        pulses,
        fine_quant: fine,
        fine_priority: late,
        balance,
    }
}

/// Interpolate between two allocations and finish the shares of the bands from
/// `start` to below `end`. Where the search for bands to drop stops at one worth
/// coding, a bit says so: all bands left are kept.
pub fn interp_bits2pulses_enc(
    enc: &mut RangeEncoder,
    start: usize,
    end: usize,
    skip_start: usize,
    ctx: &InterpBitsCtx<'_>,
) -> (r: CeltAllocResult)
    requires
        old(enc).wf(),
        old(enc).room(1),
        ctx.model(start as int, end as int, skip_start as int).valid(),
    ensures
        r.holds(ctx.model(start as int, end as int, skip_start as int).allocation()),
        final(enc).wf(),
        final(enc)@ == (if ctx.model(
            start as int,
            end as int,
            skip_start as int,
        ).allocation().flagged {
            old(enc)@.bit(true, 1)
        } else {
            old(enc)@
        }),
        final(enc)@.digits <= old(enc)@.digits + 3,
        final(enc)@.raw == old(enc)@.raw,
        start < r.coded_bands <= end,
{
    let ghost fixed = skip_start as int;
    let ghost x = ctx.model(start as int, end as int, fixed);
    let f: i32 = find_fraction(ctx, start, end, Ghost(fixed));
    proof {
        lemma_fraction_fits(x, 0, 64, 6);
        lemma_settled_sum(x, f as int, start as int);
    }
    let (mut bits, psum) = settle(ctx, start, end, f, Ghost(fixed));
    let (coded, sum, flagged) = keep_bands(ctx, start, end, skip_start, &mut bits, psum);
    let ghost k = x.kept(end as int, psum as int, x.settled(f as int), ctx.intensity_rsv as int);
    if flagged {
        proof {
            enc.lemma_wf_valid();
            crate::range_model::lemma_bit_codes(enc@, true, 1);
        }
        enc.enc_bit_logp(true, 1);
    }
    let left: i32 = if flagged {
        ctx.total - sum
    } else {
        ctx.total + ctx.skip_rsv - sum
    };
    let ghost dropped = bits@;
    spread_rest(ctx, start, end, coded, left, &mut bits, Ghost(k), Ghost(fixed));
    proof {
        assert forall|j: int| coded <= j < end implies 0 <= #[trigger] bits@[j] <= 16 by {
            assert(bits@[j] == dropped[j]);
        }
        assert forall|j: int| 0 <= j < end implies 0 <= #[trigger] k.bits[j] by {
            assert(0 <= dropped[j]);
        }
        crate::celt_alloc_laws::lemma_spread_within(x, k);
    }
    split_shares(ctx, start, end, coded, bits, Ghost(k), Ghost(fixed))
}

/// Per-band caps of a frame of size `lm`, all 0 for sizes that do not exist.
pub fn celt_init_caps(lm: usize) -> (r: Vec<i32>)
    ensures
        r@.len() == 21,
        forall|j: int|
            0 <= j < 21 ==> #[trigger] r@[j] == (if lm <= 3 {
                band_cap(j, lm as int)
            } else {
                0
            }),
        forall|j: int| 0 <= j < 21 ==> 0 <= #[trigger] r@[j] <= CAP_LIMIT,
{
    let mut caps: Vec<i32> = vec![0i32; NUM_BANDS_CELT];
    if lm > 3 {
        return caps;
    }
    let scale: i32 = scale_of(lm);
    let mut j: usize = 0;
    while j < NUM_BANDS_CELT
        invariant
            lm <= 3,
            scale == frame_scale(lm as int),
            1 <= scale <= 8,
            j <= 21,
            caps@.len() == 21,
            forall|i: int| 0 <= i < j ==> #[trigger] caps@[i] == band_cap(i, lm as int),
            forall|i: int| 0 <= i < 21 ==> 0 <= #[trigger] caps@[i] <= CAP_LIMIT,
        decreases 21 - j,
    {
        let w: i32 = width_of(j);
        let c: i32 = CACHE_CAPS_50[42 * lm + j] as i32 + 64;
        proof {
            assert(0 <= w * scale <= 176) by (nonlinear_arith)
                requires
                    1 <= w <= 22,
                    1 <= scale <= 8,
            ;
            let n = w * scale;
            assert(0 <= c * n <= 319 * 176) by (nonlinear_arith)
                requires
                    0 <= n <= 176,
                    0 <= c <= 319,
            ;
        }
        caps.set(j, c * (w * scale) / 4);
        j = j + 1;
    }
    caps
}

/// Bounds of the table's allocations and of the tilt.
pub proof fn lemma_row_bounds(row: int, j: int, trim: int, lm: int)
    requires
        0 <= row < 11,
        0 <= j < 21,
        0 <= trim <= 10,
        0 <= lm <= 3,
    ensures
        0 <= row_bits(row, j, lm) <= 8800,
        -3600 <= trim_offset(j, trim, lm) <= 2200,
        0 <= BAND_ALLOCATION[21 * row + j] * frame_scale(lm) <= 1600,
        0 <= width(j) * (BAND_ALLOCATION[21 * row + j] * frame_scale(lm)) <= 35200,
        -225280 <= width(j) * (trim - 5 - lm) * (20 - j) * (8 * frame_scale(lm)) <= 140800,
        -3520 <= width(j) * (trim - 5 - lm) * (20 - j) <= 2200,
        -176 <= width(j) * (trim - 5 - lm) <= 110,
{
    let a = BAND_ALLOCATION[21 * row + j] as int;
    let s = frame_scale(lm);
    let w = width(j);
    assert(0 <= a <= 200);
    assert(1 <= w <= 22);
    let t = trim - 5 - lm;
    let h = 20 - j;
    assert(0 <= a * s <= 1600) by (nonlinear_arith)
        requires
            0 <= a <= 200,
            1 <= s <= 8,
    ;
    let p = a * s;
    assert(0 <= w * p <= 35200) by (nonlinear_arith)
        requires
            1 <= w <= 22,
            0 <= p <= 1600,
    ;
    assert(-176 <= w * t <= 110) by (nonlinear_arith)
        requires
            1 <= w <= 22,
            -8 <= t <= 5,
    ;
    let q = w * t;
    assert(-3520 <= q * h <= 2200) by (nonlinear_arith)
        requires
            -176 <= q <= 110,
            0 <= h <= 20,
    ;
    let u = q * h;
    assert(-225280 <= u * (8 * s) <= 140800) by (nonlinear_arith)
        requires
            -3520 <= u <= 2200,
            1 <= s <= 8,
    ;
}

/// What row `row` of the table gives band `j`, tilted and boosted.
fn row_level(row: usize, j: usize, tilt: i32, boost: i32, lm: usize, Ghost(trim): Ghost<int>) -> (r:
    i32)
    requires
        row < 11,
        j < 21,
        lm <= 3,
        0 <= trim <= 10,
        tilt == trim_offset(j as int, trim, lm as int),
        0 <= boost <= BOOST_LIMIT,
    ensures
        r == tilted(row_bits(row as int, j as int, lm as int), tilt as int) + boost,
        0 <= r <= 11000 + BOOST_LIMIT,
{
    let w: i32 = width_of(j);
    let scale: i32 = scale_of(lm);
    proof {
        lemma_row_bounds(row as int, j as int, trim, lm as int);
    }
    let a: i32 = BAND_ALLOCATION[NUM_BANDS_CELT * row + j] as i32 * scale;
    let mut bits: i32 = w * a / 4;
    if bits > 0 {
        bits = max_i32(bits + tilt, 0);
    }
    bits + boost
}

/// The threshold of band `j`.
fn threshold_of(j: usize, lm: usize) -> (r: i32)
    requires
        j < 21,
        lm <= 3,
    ensures
        r == threshold(j as int, lm as int),
        8 <= r <= 264,
{
    let w: i32 = width_of(j);
    let scale: i32 = scale_of(lm);
    proof {
        let a = 3 * w;
        assert(0 <= a * scale <= 528) by (nonlinear_arith)
            requires
                3 <= a <= 66,
                1 <= scale <= 8,
        ;
    }
    max_i32(8, 3 * w * scale * 8 / 16)
}

/// The tilt of band `j`.
fn trim_offset_of(j: usize, trim: i32, lm: usize) -> (r: i32)
    requires
        j < 21,
        0 <= trim <= 10,
        lm <= 3,
    ensures
        r == trim_offset(j as int, trim as int, lm as int),
        -3600 <= r <= 2200,
{
    let w: i32 = width_of(j);
    let scale: i32 = scale_of(lm);
    proof {
        lemma_row_bounds(0, j as int, trim as int, lm as int);
        assert(1 <= w * scale <= 176) by (nonlinear_arith)
            requires
                1 <= w <= 22,
                1 <= scale <= 8,
        ;
    }
    let tilt: i32 = div_floor(
        w * (trim - 5 - lm as i32) * (20 - j as i32) * (8 * scale),
        64,
    );
    if w * scale == 1 {
        tilt - 8
    } else {
        tilt
    }
}

/// Row 0 asks for nothing, so its cost is nothing.
proof fn lemma_nothing_costs_nothing(v: Seq<int>, thresh: Seq<int>, cap: Seq<int>, j: int)
    requires
        0 <= j <= v.len(),
        forall|i: int| j <= i < v.len() ==> #[trigger] v[i] == 0,
        forall|i: int| j <= i < v.len() ==> #[trigger] thresh[i] > 0,
    ensures
        cost_from(v, thresh, cap, 8, j) == 0,
        !active(v, thresh, j),
    decreases v.len() - j,
{
    if j < v.len() {
        lemma_nothing_costs_nothing(v, thresh, cap, j + 1);
    }
}

/// The search ends at a row that fits, or at row 0.
pub proof fn lemma_row_search_fits(d: Demand, lo: int, hi: int)
    requires
        1 <= lo <= hi + 1,
        hi <= 10,
        lo > 1 ==> d.row_fits(lo - 1),
    ensures
        0 <= d.row_search(lo, hi) <= 10,
        d.row_search(lo, hi) > 0 ==> d.row_fits(d.row_search(lo, hi)),
    decreases hi - lo + 1,
{
    if lo <= hi {
        let mid = (lo + hi) / 2;
        if d.row_fits(mid) {
            lemma_row_search_fits(d, mid + 1, hi);
        } else {
            lemma_row_search_fits(d, lo, mid - 1);
        }
    }
}

/// The interpolation of a valid demand is valid.
pub proof fn lemma_interp_valid(d: Demand)
    requires
        d.valid(),
    ensures
        d.interp().valid(),
{
    let row = d.row_search(1, 10);
    lemma_row_search_fits(d, 1, 10);
    let x = d.interp();
    assert forall|j: int| 0 <= j < 21 implies 0 <= #[trigger] x.bits1[j] && 0 <= x.bits2[j] && 64
        * x.bits2[j] <= i32::MAX && x.bits1[j] + x.bits2[j] <= i32::MAX by {
        lemma_row_bounds(row, j, d.trim, d.lm);
        if row + 1 < 11 {
            lemma_row_bounds(row + 1, j, d.trim, d.lm);
        }
        assert(0 <= d.offsets[j] <= BOOST_LIMIT);
        assert(0 <= d.cap[j] <= CAP_LIMIT);
    }
    assert forall|j: int| 0 <= j < 21 implies 0 <= #[trigger] x.bits2[j] && 64 * x.bits2[j]
        <= i32::MAX && x.bits1[j] + x.bits2[j] <= i32::MAX by {
        assert(0 <= x.bits1[j]);
    }
    assert forall|j: int| 0 <= j < 21 implies 8 <= #[trigger] x.thresh[j] by {
        lemma_threshold_bound(j, d.lm);
    }
    lemma_last_boosted(d, 21);
    assert(x.fits(0)) by {
        if row > 0 {
            assert(x.levels(0) =~= d.row(row));
        } else {
            lemma_nothing_costs_nothing(x.levels(0), x.thresh, x.cap, d.start);
        }
    }
}

/// Bounds of a threshold.
proof fn lemma_threshold_bound(j: int, lm: int)
    requires
        0 <= j < 21,
        0 <= lm <= 3,
    ensures
        8 <= threshold(j, lm) <= 264,
{
    let w = width(j);
    let a = 3 * w;
    let s = frame_scale(lm);
    assert(1 <= w <= 22);
    assert(0 <= a * s <= 528) by (nonlinear_arith)
        requires
            3 <= a <= 66,
            1 <= s <= 8,
    ;
}

/// The last boosted band is one of the bands.
proof fn lemma_last_boosted(d: Demand, j: int)
    requires
        0 <= d.start < 21,
        d.start <= j <= 21,
    ensures
        d.start <= d.last_boosted(j) < 21,
        d.last_boosted(j) < j || j == d.start,
    decreases j - d.start,
{
    if j > d.start && d.offsets[j - 1] <= 0 {
        lemma_last_boosted(d, j - 1);
    }
}

/// What the bands cost in row `row`.
fn row_cost(
    row: usize,
    start: usize,
    offsets: &[i32],
    cap: &[i32],
    lm: usize,
    thresh: &Vec<i32>,
    tilt: &Vec<i32>,
    Ghost(d): Ghost<Demand>,
) -> (r: i32)
    requires
        d.valid(),
        1 <= row < 11,
        d.start == start,
        d.lm == lm,
        d.offsets == crate::int_math::ints(offsets@),
        d.cap == crate::int_math::ints(cap@),
        thresh@.len() == 21 && tilt@.len() == 21,
        forall|j: int| start <= j < 21 ==> #[trigger] thresh@[j] == threshold(j, d.lm),
        forall|j: int| start <= j < 21 ==> #[trigger] tilt@[j] == trim_offset(j, d.trim, d.lm),
    ensures
        r == cost_from(d.row(row as int), d.thresholds(), d.cap, 8, start as int),
{
    let ghost v = d.row(row as int);
    let mut psum: i32 = 0;
    let mut done: bool = false;
    let mut j: usize = NUM_BANDS_CELT;
    while j > start
        invariant
            d.valid(),
            v == d.row(row as int),
            1 <= row < 11,
            d.start == start,
            d.lm == lm,
            d.offsets == crate::int_math::ints(offsets@),
            d.cap == crate::int_math::ints(cap@),
            thresh@.len() == 21 && tilt@.len() == 21,
            forall|i: int| start <= i < 21 ==> #[trigger] thresh@[i] == threshold(i, d.lm),
            forall|i: int|
                start <= i < 21 ==> #[trigger] tilt@[i] == trim_offset(i, d.trim, d.lm),
            start <= j <= 21,
            done == active(v, d.thresholds(), j as int),
            psum == cost_from(v, d.thresholds(), d.cap, 8, j as int),
            0 <= psum <= (21 - j) * 0x1FF_0008,
        decreases j,
    {
        j = j - 1;
        proof {
            assert(d.offsets[j as int] == offsets@[j as int]);
            assert(d.cap[j as int] == cap@[j as int]);
            assert(thresh@[j as int] == d.thresholds()[j as int]);
        }
        let bits: i32 = row_level(row, j, tilt[j], offsets[j], lm, Ghost(d.trim));
        if bits >= thresh[j] || done {
            done = true;
            psum = psum + min_i32(bits, cap[j]);
        } else if bits >= 8 {
            psum = psum + 8;
        }
    }
    psum
}

/// Share out `total` eighths of a bit among the bands from `start` up. Writes
/// the bit that says that no more bands are dropped, where there is one.
pub fn celt_compute_allocation_enc(
    enc: &mut RangeEncoder,
    total: i32,
    offsets: &[i32],
    cap: &[i32],
    alloc_trim: i32,
    lm: usize,
    start: usize,
) -> (r: CeltAllocResult)
    requires
        old(enc).wf(),
        old(enc).room(1),
        (Demand {
            offsets: crate::int_math::ints(offsets@),
            cap: crate::int_math::ints(cap@),
            trim: alloc_trim as int,
            lm: lm as int,
            start: start as int,
            total: total as int,
        }).valid(),
    ensures
        ({
            let a = (Demand {
                offsets: crate::int_math::ints(offsets@),
                cap: crate::int_math::ints(cap@),
                trim: alloc_trim as int,
                lm: lm as int,
                start: start as int,
                total: total as int,
            }).allocation();
            &&& r.holds(a)
            &&& final(enc)@ == (if a.flagged {
                old(enc)@.bit(true, 1)
            } else {
                old(enc)@
            })
        }),
        final(enc).wf(),
        final(enc)@.digits <= old(enc)@.digits + 3,
        final(enc)@.raw == old(enc)@.raw,
        start < r.coded_bands <= 21,
        r.pulses@.len() == 21 && r.fine_quant@.len() == 21 && r.fine_priority@.len() == 21,
        forall|j: int| 0 <= j < 21 ==> 0 <= #[trigger] r.fine_quant@[j] <= MAX_FINE_BITS,
        forall|j: int| 0 <= j < 21 ==> 0 <= #[trigger] r.pulses@[j] <= CAP_LIMIT,
        0 <= r.balance,
        r.balance <= total || r.balance == 0,
{
    let ghost d = Demand {
        offsets: crate::int_math::ints(offsets@),
        cap: crate::int_math::ints(cap@),
        trim: alloc_trim as int,
        lm: lm as int,
        start: start as int,
        total: total as int,
    };
    proof {
        lemma_interp_valid(d);
        reveal(Demand::allocation);
    }
    let skip_rsv: i32 = if total >= 8 {
        8
    } else {
        0
    };
    let budget: i32 = max_i32(total, 0) - skip_rsv;

    // Thresholds and tilts.
    let mut thresh: Vec<i32> = vec![0i32; NUM_BANDS_CELT];
    let mut tilt: Vec<i32> = vec![0i32; NUM_BANDS_CELT];
    let mut j: usize = 0;
    while j < NUM_BANDS_CELT
        invariant
            d.valid(),
            d.lm == lm,
            d.trim == alloc_trim,
            j <= 21,
            thresh@.len() == 21 && tilt@.len() == 21,
            forall|i: int| 0 <= i < j ==> #[trigger] thresh@[i] == threshold(i, d.lm),
            forall|i: int| 0 <= i < j ==> #[trigger] tilt@[i] == trim_offset(i, d.trim, d.lm),
        decreases 21 - j,
    {
        let t: i32 = threshold_of(j, lm);
        let o: i32 = trim_offset_of(j, alloc_trim, lm);
        thresh.set(j, t);
        tilt.set(j, o);
        j = j + 1;
    }

    // The two rows around the budget.
    let mut lo: usize = 1;
    let mut hi: usize = 10;
    while lo <= hi
        invariant
            d.valid(),
            d.start == start,
            d.lm == lm,
            d.trim == alloc_trim,
            d.offsets == crate::int_math::ints(offsets@),
            d.cap == crate::int_math::ints(cap@),
            d.budget() == budget,
            thresh@.len() == 21 && tilt@.len() == 21,
            forall|i: int| 0 <= i < 21 ==> #[trigger] thresh@[i] == threshold(i, d.lm),
            forall|i: int| 0 <= i < 21 ==> #[trigger] tilt@[i] == trim_offset(i, d.trim, d.lm),
            1 <= lo <= hi + 1,
            hi <= 10,
            d.row_search(1, 10) == d.row_search(lo as int, hi as int),
        decreases hi - lo + 1,
    {
        let mid: usize = (lo + hi) / 2;
        let psum: i32 = row_cost(mid, start, offsets, cap, lm, &thresh, &tilt, Ghost(d));
        if psum > budget {
            hi = mid - 1;
        } else {
            lo = mid + 1;
        }
    }
    let row: usize = lo - 1;
    let ghost x = d.interp();

    // What the lower row gives, and what the upper one adds.
    let mut bits1: Vec<i32> = vec![0i32; NUM_BANDS_CELT];
    let mut bits2: Vec<i32> = vec![0i32; NUM_BANDS_CELT];
    let mut skip_start: usize = start;
    let mut j: usize = 0;
    while j < NUM_BANDS_CELT
        invariant
            d.valid(),
            d.start == start,
            d.lm == lm,
            d.trim == alloc_trim,
            d.offsets == crate::int_math::ints(offsets@),
            d.cap == crate::int_math::ints(cap@),
            x == d.interp(),
            row == d.row_search(1, 10),
            row <= 10,
            tilt@.len() == 21,
            forall|i: int| 0 <= i < 21 ==> #[trigger] tilt@[i] == trim_offset(i, d.trim, d.lm),
            j <= 21,
            bits1@.len() == 21 && bits2@.len() == 21,
            forall|i: int| 0 <= i < j ==> #[trigger] bits1@[i] == x.bits1[i],
            forall|i: int| 0 <= i < j ==> #[trigger] bits2@[i] == x.bits2[i],
            j <= start ==> skip_start == start,
            start <= j ==> skip_start == d.last_boosted(j as int),
        decreases 21 - j,
    {
        proof {
            assert(d.offsets[j as int] == offsets@[j as int]);
            assert(d.cap[j as int] == cap@[j as int]);
            lemma_row_bounds(0, j as int, d.trim, d.lm);
        }
        let low: i32 = if row > 0 {
            row_level(row, j, tilt[j], offsets[j], lm, Ghost(d.trim))
        } else {
            0
        };
        let high: i32 = if row + 1 < 11 {
            row_level(row + 1, j, tilt[j], offsets[j], lm, Ghost(d.trim))
        } else if cap[j] > 0 {
            max_i32(cap[j] + tilt[j], 0) + offsets[j]
        } else {
            cap[j] + offsets[j]
        };
        bits1.set(j, low);
        bits2.set(j, max_i32(high - low, 0));
        if j >= start && offsets[j] > 0 {
            skip_start = j;
        }
        j = j + 1;
    }
    let ctx = InterpBitsCtx {
        bits1: bits1.as_slice(),
        bits2: bits2.as_slice(),
        thresh: thresh.as_slice(),
        cap,
        total: budget,
        skip_rsv,
        intensity_rsv: 0,
        dual_stereo_rsv: 0,
        channels: 1,
        lm,
    };
    proof {
        let m = ctx.model(start as int, 21, skip_start as int);
        assert(m.bits1 =~= x.bits1);
        assert(m.bits2 =~= x.bits2);
        assert(m.thresh =~= x.thresh);
        assert(m == x);
        crate::celt_alloc_laws::law_shares_are_not_negative(d);
        crate::celt_alloc_laws::lemma_balance_bound(d);
    }
    let r: CeltAllocResult = interp_bits2pulses_enc(enc, start, NUM_BANDS_CELT, skip_start, &ctx);
    proof {
        let a = d.allocation();
        assert(r.pulses@.len() == a.bits.len());
        assert(r.fine_quant@.len() == a.fine.len());
        assert(r.fine_priority@.len() == a.late.len());
        assert forall|j: int| 0 <= j < 21 implies 0 <= #[trigger] r.fine_quant@[j]
            <= MAX_FINE_BITS by {
            assert(r.fine_quant@[j] == a.fine[j]);
            assert(0 <= a.bits[j]);
        }
        assert forall|j: int| 0 <= j < 21 implies 0 <= #[trigger] r.pulses@[j] <= CAP_LIMIT by {
            assert(r.pulses@[j] == a.bits[j]);
        }
    }
    r
}

} // verus!
