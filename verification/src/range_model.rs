//! The range coder as arithmetic: an interval of numbers that every coded
//! symbol narrows, and the packet that names a point inside it.
//!
//! After `digits` output bytes the encoder's interval is
//! `[low, low + rng)`, counted in units of `2^-31` of one output digit. Coding
//! a symbol keeps a part of the interval; once the part is `2^23` wide or less,
//! everything is scaled by 256 and one more digit is settled. Raw bits do not
//! touch the interval: they pile up in `raw` and end up at the back of the
//! packet, first bit last.
use crate::bits;
use crate::radix;
use vstd::arithmetic::power2::*;
use vstd::prelude::*;

verus! {

/// The width of a fresh interval, `2^31`.
pub const EC_CODE_TOP: u32 = 0x8000_0000;

/// Intervals this wide or narrower are scaled up, `2^23`.
pub const EC_CODE_BOT: u32 = 0x0080_0000;

/// How many bits of an integer are range coded; the rest go out raw.
pub const EC_UINT_BITS: u32 = 8;

/// What an encoder has written so far.
#[verifier::ext_equal]
pub struct Coder {
    /// The low end of the interval.
    pub low: nat,
    /// The number of output digits that have been scaled out.
    pub digits: nat,
    /// The width of the interval.
    pub rng: nat,
    /// The raw bits, in the order they were written.
    pub raw: Seq<bool>,
}

impl Coder {
    /// Nothing written yet.
    pub open spec fn start() -> Coder {
        Coder { low: 0, digits: 0, rng: EC_CODE_TOP as nat, raw: Seq::empty() }
    }

    /// The interval is wide enough to code the next symbol and lies inside the
    /// space of `digits` digits.
    pub open spec fn valid(self) -> bool {
        &&& EC_CODE_BOT < self.rng <= EC_CODE_TOP
        &&& self.low + self.rng <= EC_CODE_TOP * radix::pow256(self.digits)
    }

    /// Scale up until the interval is wider than `2^23`.
    pub open spec fn renormalized(self) -> Coder
        decreases
            (if self.rng <= EC_CODE_BOT {
                EC_CODE_BOT + 1 - self.rng
            } else {
                0
            }),
    {
        if 0 < self.rng <= EC_CODE_BOT {
            (Coder {
                low: self.low * 256,
                digits: self.digits + 1,
                rng: self.rng * 256,
                raw: self.raw,
            }).renormalized()
        } else {
            self
        }
    }

    /// Keep the `width` numbers that start `skip` above the low end.
    pub open spec fn narrowed(self, skip: nat, width: nat) -> Coder {
        Coder { low: self.low + skip, digits: self.digits, rng: width, raw: self.raw }
    }

    /// Where the part for frequencies `[fl, fh)` out of `ft` starts.
    pub open spec fn symbol_skip(self, fl: nat, ft: nat) -> nat {
        if fl > 0 {
            (self.rng - (self.rng / ft) * (ft - fl)) as nat
        } else {
            0
        }
    }

    /// How wide the part for frequencies `[fl, fh)` out of `ft` is. The lowest
    /// symbol also gets what is left over when `rng` is no multiple of `ft`.
    pub open spec fn symbol_width(self, fl: nat, fh: nat, ft: nat) -> nat {
        if fl > 0 {
            (self.rng / ft) * ((fh - fl) as nat)
        } else {
            (self.rng - (self.rng / ft) * (ft - fh)) as nat
        }
    }

    /// `[fl, fh)` out of `ft` is a range of frequencies that keeps part of the
    /// interval.
    pub open spec fn codes(self, fl: nat, fh: nat, ft: nat) -> bool {
        &&& 0 < ft
        &&& fl <= fh <= ft
        &&& self.symbol_width(fl, fh, ft) > 0
    }

    /// After coding frequencies `[fl, fh)` out of `ft`.
    pub open spec fn symbol(self, fl: nat, fh: nat, ft: nat) -> Coder {
        self.narrowed(self.symbol_skip(fl, ft), self.symbol_width(fl, fh, ft)).renormalized()
    }

    /// Where the part for a bit of probability `2^-logp` starts: `true` is at
    /// the top.
    pub open spec fn bit_skip(self, value: bool, logp: nat) -> nat {
        if value {
            (self.rng - self.rng / pow2(logp)) as nat
        } else {
            0
        }
    }

    /// How wide the part for a bit of probability `2^-logp` is.
    pub open spec fn bit_width(self, value: bool, logp: nat) -> nat {
        if value {
            self.rng / pow2(logp)
        } else {
            (self.rng - self.rng / pow2(logp)) as nat
        }
    }

    /// After coding a bit that is `true` with probability `2^-logp`.
    pub open spec fn bit(self, value: bool, logp: nat) -> Coder {
        self.narrowed(self.bit_skip(value, logp), self.bit_width(value, logp)).renormalized()
    }

    /// Where the part of symbol `s` of an inverse cumulative table starts.
    pub open spec fn icdf_skip(self, s: int, icdf: Seq<u8>, ftb: nat) -> nat {
        if s > 0 {
            (self.rng - (self.rng / pow2(ftb)) * icdf[s - 1] as nat) as nat
        } else {
            0
        }
    }

    /// How wide the part of symbol `s` of an inverse cumulative table is.
    pub open spec fn icdf_width(self, s: int, icdf: Seq<u8>, ftb: nat) -> nat {
        if s > 0 {
            (self.rng / pow2(ftb)) * ((icdf[s - 1] - icdf[s]) as nat)
        } else {
            (self.rng - (self.rng / pow2(ftb)) * icdf[s] as nat) as nat
        }
    }

    /// Symbol `s` is in the table and its part is not empty.
    pub open spec fn codes_icdf(self, s: int, icdf: Seq<u8>, ftb: nat) -> bool {
        &&& 0 <= s < icdf.len()
        &&& icdf[s] <= pow2(ftb)
        &&& s > 0 ==> icdf[s] <= icdf[s - 1] <= pow2(ftb)
        &&& self.icdf_width(s, icdf, ftb) > 0
    }

    /// After coding symbol `s` of the inverse cumulative table `icdf`, whose
    /// entries count what lies above a symbol in units of `2^-ftb`.
    pub open spec fn icdf(self, s: int, icdf: Seq<u8>, ftb: nat) -> Coder {
        self.narrowed(self.icdf_skip(s, icdf, ftb), self.icdf_width(s, icdf, ftb)).renormalized()
    }

    /// After appending the `n` low bits of `v` to the raw bits.
    pub open spec fn raw_bits(self, v: nat, n: nat) -> Coder {
        Coder { raw: self.raw + bits::value_bits(v, n), ..self }
    }

    /// After coding `fl` as one of `ft` equally likely integers: the top eight
    /// bits are range coded, the rest is raw.
    pub open spec fn uint(self, fl: nat, ft: nat) -> Coder {
        let n = radix::bit_len((ft - 1) as nat);
        if n > EC_UINT_BITS {
            let low_bits = (n - EC_UINT_BITS) as nat;
            let hi = fl / pow2(low_bits);
            self.symbol(hi, hi + 1, ((ft - 1) as nat) / pow2(low_bits) + 1).raw_bits(fl, low_bits)
        } else {
            self.symbol(fl, fl + 1, ft)
        }
    }

    /// All bits settled so far, plus the 33 that a fresh interval stands for.
    pub open spec fn used(self) -> nat {
        33 + 8 * self.digits + self.raw.len()
    }

    /// The number of bits used so far, rounded up to include what the interval
    /// still leaves open.
    pub open spec fn tell(self) -> int {
        self.used() - radix::bit_len(self.rng)
    }

    /// The number of bits used so far in eighths of a bit.
    pub open spec fn tell_frac(self) -> int {
        8 * self.used() - log2_eighths(self.rng)
    }

    /// The step of the grid from which the final point is taken: a power of two
    /// such that a whole step, rounded up from `low`, still fits the interval.
    pub open spec fn tail_step(self) -> nat {
        let m = pow2((radix::bit_len(self.rng) - 1) as nat);
        if radix::round_up(self.low, m) + m <= self.low + self.rng {
            m
        } else {
            m / 2
        }
    }

    /// The point that stands for the whole message.
    pub open spec fn tail_point(self) -> nat {
        radix::round_up(self.low, self.tail_step())
    }

    /// How many more digits it takes to write the point down.
    pub open spec fn tail_digits(self) -> nat {
        ((32 - radix::bit_len(self.tail_step()) + 7) / 8) as nat
    }

    /// The range-coded bytes at the front of the packet.
    pub open spec fn range_bytes(self) -> Seq<u8> {
        radix::be_digits(
            self.tail_point() / pow2((31 - 8 * self.tail_digits()) as nat),
            self.digits + self.tail_digits(),
        )
    }

    /// The raw bits at the back of the packet: the first ones in the last byte.
    pub open spec fn raw_bytes(self) -> Seq<u8> {
        bits::pack_bits(self.raw).reverse()
    }

    /// The finished packet.
    pub open spec fn packet(self) -> Seq<u8> {
        self.range_bytes() + self.raw_bytes()
    }

    /// How many bits of the last range byte the point leaves open.
    pub open spec fn spare_bits(self) -> nat {
        (8 * self.tail_digits() - (32 - radix::bit_len(self.tail_step()))) as nat
    }

    /// The packet is one byte longer than `size`, and the raw bits that do not
    /// fill a byte fit into the bits that the last range byte leaves open.
    pub open spec fn overlaps(self, size: nat) -> bool {
        &&& self.range_bytes().len() + self.raw_bytes().len() == size + 1
        &&& 0 < self.raw.len() % 8 <= self.spare_bits()
    }

    /// The finished packet for a frame of `size` bytes. There are zero bytes
    /// between its two parts where it is shorter; where it is longer by a byte,
    /// the two parts share one if they can.
    pub open spec fn packet_of_size(self, size: nat) -> Seq<u8> {
        let (front, back) = (self.range_bytes(), self.raw_bytes());
        if self.overlaps(size) {
            front.drop_last().push((front.last() + back[0]) as u8) + back.skip(1)
        } else {
            let used = front.len() + back.len();
            let gap = if used < size {
                (size - used) as nat
            } else {
                0
            };
            front + Seq::new(gap, |i: int| 0u8) + back
        }
    }
}

/// The thresholds between eighths of a bit for a range whose top bits are `8`
/// to `15` in sixteenths.
pub const LOG2_CORRECTION: [u32; 8] = [
    35733,
    38967,
    42495,
    46340,
    50535,
    55109,
    60097,
    65535,
];

/// The base-two logarithm of a range in eighths, rounded as the decoder does.
pub open spec fn log2_eighths(rng: nat) -> int {
    let n = radix::bit_len(rng);
    let r = rng / pow2((n - 16) as nat);
    let b = r / 4096 - 8;
    8 * n + b + (if r > LOG2_CORRECTION[b] {
        1int
    } else {
        0
    })
}

/// Scaling up leaves the raw bits alone and ends with a wide interval.
pub proof fn lemma_renormalized(c: Coder)
    requires
        0 < c.rng <= EC_CODE_TOP,
        c.low + c.rng <= EC_CODE_TOP * radix::pow256(c.digits),
    ensures
        c.renormalized().valid(),
        c.renormalized().raw == c.raw,
        c.digits <= c.renormalized().digits <= c.digits + 3,
        c.renormalized().low == c.low * radix::pow256(
            (c.renormalized().digits - c.digits) as nat,
        ),
        c.renormalized().rng == c.rng * radix::pow256(
            (c.renormalized().digits - c.digits) as nat,
        ),
{
    reveal_with_fuel(Coder::renormalized, 4);
    reveal_with_fuel(radix::pow256, 4);
    assert(radix::pow256(c.digits + 1) == 256 * radix::pow256(c.digits));
    assert(radix::pow256(c.digits + 2) == 256 * radix::pow256(c.digits + 1));
    assert(radix::pow256(c.digits + 3) == 256 * radix::pow256(c.digits + 2));
    let d = (c.renormalized().digits - c.digits) as nat;
    let p = radix::pow256(d);
    assert(p == 1 || p == 256 || p == 65536 || p == 16777216);
    let (low, rng) = (c.low as int, c.rng as int);
    assert((p == 1 ==> low * p == low && rng * p == rng) && (p == 256 ==> low * p == low * 256 && rng
        * p == rng * 256) && (p == 65536 ==> low * p == low * 65536 && rng * p == rng * 65536) && (p
        == 16777216 ==> low * p == low * 16777216 && rng * p == rng * 16777216))
        by (nonlinear_arith);
}

/// The part kept for a symbol lies inside the interval.
pub proof fn lemma_symbol_fits(c: Coder, fl: nat, fh: nat, ft: nat)
    requires
        0 < ft,
        fl <= fh <= ft,
    ensures
        c.symbol_skip(fl, ft) + c.symbol_width(fl, fh, ft) <= c.rng,
        (c.rng / ft) * ((ft - fl) as nat) <= c.rng,
        (c.rng / ft) * ((ft - fh) as nat) <= c.rng,
        fl > 0 ==> c.symbol_skip(fl, ft) == c.rng - (c.rng / ft) * ((ft - fl) as nat),
        fl == 0 ==> c.symbol_width(fl, fh, ft) == c.rng - (c.rng / ft) * ((ft - fh) as nat),
{
    let r = c.rng / ft;
    vstd::arithmetic::div_mod::lemma_fundamental_div_mod(c.rng as int, ft as int);
    let (rng, l, h, t) = (c.rng as int, fl as int, fh as int, ft as int);
    assert(r * (t - l) <= rng && r * (t - h) <= rng && r * (h - l) + r * (t - h) == r * (t - l) && 0
        <= r * (t - l) && 0 <= r * (t - h)) by (nonlinear_arith)
        requires
            rng == t * r + rng % t,
            0 <= rng % t,
            0 <= l <= h <= t,
            0 <= r,
    ;
}

/// The interval is wide enough that a single frequency out of at most
/// `2^23` always keeps part of it.
pub proof fn lemma_small_total_codes(c: Coder, fl: nat, fh: nat, ft: nat)
    requires
        c.valid(),
        fl < fh <= ft <= EC_CODE_BOT,
    ensures
        c.codes(fl, fh, ft),
{
    lemma_symbol_fits(c, fl, fh, ft);
    let r = c.rng / ft;
    vstd::arithmetic::div_mod::lemma_div_is_ordered(ft as int, c.rng as int, ft as int);
    vstd::arithmetic::div_mod::lemma_div_by_self(ft as int);
    vstd::arithmetic::div_mod::lemma_fundamental_div_mod(c.rng as int, ft as int);
    let (rng, l, h, t) = (c.rng as int, fl as int, fh as int, ft as int);
    assert(r * (h - l) > 0 && r * (t - h) < rng) by (nonlinear_arith)
        requires
            r >= 1,
            0 <= l < h <= t,
            rng == t * r + rng % t,
            0 <= rng % t,
    ;
}

/// Coding a symbol keeps the coder valid and the raw bits as they were.
pub proof fn lemma_symbol_valid(c: Coder, fl: nat, fh: nat, ft: nat)
    requires
        c.valid(),
        c.codes(fl, fh, ft),
    ensures
        c.symbol(fl, fh, ft).valid(),
        c.symbol(fl, fh, ft).raw == c.raw,
        c.symbol(fl, fh, ft).digits <= c.digits + 3,
{
    lemma_symbol_fits(c, fl, fh, ft);
    lemma_renormalized(c.narrowed(c.symbol_skip(fl, ft), c.symbol_width(fl, fh, ft)));
}

/// A bit of probability `2^-1` down to `2^-15` always keeps part of a valid
/// interval.
pub proof fn lemma_bit_codes(c: Coder, value: bool, logp: nat)
    requires
        c.valid(),
        1 <= logp <= 15,
    ensures
        c.bit_width(value, logp) > 0,
{
    lemma2_to64();
    let p = pow2(logp);
    if logp < 15 {
        lemma_pow2_strictly_increases(logp, 15);
    }
    if 1 < logp {
        lemma_pow2_strictly_increases(1, logp);
    }
    let rng = c.rng as int;
    vstd::arithmetic::div_mod::lemma_fundamental_div_mod(rng, p as int);
    vstd::arithmetic::div_mod::lemma_mod_bound(rng, p as int);
    let (q, m) = (rng / (p as int), rng % (p as int));
    assert(0 < q < rng) by (nonlinear_arith)
        requires
            rng == p * q + m,
            0 <= m < p,
            2 <= p <= 0x8000,
            rng > 0x80_0000,
    ;
}

/// A symbol with a share of the table's mass keeps part of a valid interval.
pub proof fn lemma_icdf_codes(c: Coder, s: int, icdf: Seq<u8>, ftb: nat)
    requires
        c.valid(),
        ftb <= 8,
        0 <= s < icdf.len(),
        s > 0 ==> icdf[s] < icdf[s - 1] <= pow2(ftb),
        s == 0 ==> icdf[s] < pow2(ftb),
    ensures
        c.codes_icdf(s, icdf, ftb),
{
    lemma2_to64();
    lemma_pow2_pos(ftb);
    if ftb < 8 {
        lemma_pow2_strictly_increases(ftb, 8);
    }
    let ft = pow2(ftb) as int;
    let rng = c.rng as int;
    vstd::arithmetic::div_mod::lemma_fundamental_div_mod(rng, ft);
    vstd::arithmetic::div_mod::lemma_mod_bound(rng, ft);
    let (q, m) = (rng / ft, rng % ft);
    assert(q > 0) by (nonlinear_arith)
        requires
            rng == ft * q + m,
            0 <= m < ft,
            0 < ft <= 256,
            rng > 0x80_0000,
    ;
    if s > 0 {
        let d = icdf[s - 1] - icdf[s];
        assert(q * d > 0) by (nonlinear_arith)
            requires
                q > 0,
                d > 0,
        ;
    } else {
        let a = icdf[s] as int;
        assert(q * a < rng) by (nonlinear_arith)
            requires
                rng == ft * q + m,
                0 <= m,
                q > 0,
                0 <= a < ft,
        ;
    }
}

/// The step of the final grid is a power of two, `2^22` at least.
pub proof fn lemma_tail_step(c: Coder) -> (k: nat)
    requires
        c.valid(),
    ensures
        22 <= k <= 31,
        c.tail_step() == pow2(k),
        radix::bit_len(c.tail_step()) == k + 1,
        radix::bit_len(c.rng) - 2 <= k,
        c.tail_point() + c.tail_step() <= c.low + c.rng,
        c.low <= c.tail_point(),
        c.tail_point() % c.tail_step() == 0,
        c.tail_digits() == (31 - k + 7) / 8,
        c.spare_bits() == 8 * c.tail_digits() - (31 - k),
        c.spare_bits() < 8,
{
    lemma2_to64();
    let n = radix::bit_len(c.rng);
    radix::lemma_bit_len_bounds(c.rng);
    radix::lemma_bit_len_at_most(c.rng, 32);
    if n < 24 {
        if n < 23 {
            lemma_pow2_strictly_increases(n, 23);
        }
    }
    let m0 = pow2((n - 1) as nat);
    lemma_pow2_pos((n - 1) as nat);
    lemma_pow2_unfold((n - 1) as nat);
    lemma_pow2_pos((n - 2) as nat);
    let k: nat = if radix::round_up(c.low, m0) + m0 <= c.low + c.rng {
        (n - 1) as nat
    } else {
        (n - 2) as nat
    };
    let m = c.tail_step();
    assert(m == pow2(k));
    radix::lemma_round_up(c.low, m);
    lemma_pow2_strictly_increases(k, k + 1);
    radix::lemma_bit_len_unique(m, k + 1);
    k
}

/// The last range byte has zeros where it is open, so that a number of that
/// many bits goes in.
pub proof fn lemma_last_range_byte(c: Coder) -> (f: nat)
    requires
        c.valid(),
        c.spare_bits() > 0,
    ensures
        c.range_bytes().len() == c.digits + c.tail_digits() > 0,
        c.range_bytes().last() == f * pow2(c.spare_bits()),
        f * pow2(c.spare_bits()) + pow2(c.spare_bits()) <= 256,
{
    let k = lemma_tail_step(c);
    lemma2_to64();
    let t = c.tail_digits();
    let s = (31 - 8 * t) as nat;
    let u = c.spare_bits();
    lemma_pow2_pos(s);
    lemma_pow2_pos(u);
    lemma_pow2_adds(u, s);
    lemma_pow2_adds(u, (8 - u) as nat);
    let (e, p, g, h) = (c.tail_point(), pow2(s), pow2(u), pow2((8 - u) as nat));
    let m = c.tail_step();
    vstd::arithmetic::div_mod::lemma_fundamental_div_mod(e as int, m as int);
    let q = e / m;
    let b = e / p;
    assert(e == (q * g) * p) by (nonlinear_arith)
        requires
            e == m * q,
            m == g * p,
    ;
    vstd::arithmetic::div_mod::lemma_div_by_multiple((q * g) as int, p as int);
    assert(b == q * g);
    radix::lemma_be_digits_len(b, c.digits + t);
    assert(c.range_bytes().last() == (b % 256) as u8);
    vstd::arithmetic::div_mod::lemma_fundamental_div_mod(b as int, 256);
    let w = b / 256;
    let f = q - h * w;
    assert(b % 256 == f * g) by (nonlinear_arith)
        requires
            b == 256 * w + b % 256,
            b == q * g,
            256 == g * h,
            f == q - h * w,
    ;
    assert(0 <= f && f * g + g <= 256) by (nonlinear_arith)
        requires
            f * g < g * h,
            f * g >= 0,
            g > 0,
            256 == g * h,
    ;
    f as nat
}

} // verus!
