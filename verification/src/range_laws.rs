//! A decoder gets back what the range encoder wrote.
//!
//! The decoder here is that of Opus, written as arithmetic: it knows how far the top
//! of its interval lies above the number that the packet spells, and narrows the
//! interval exactly as the encoder did.
use crate::bits;
use crate::radix;
use crate::range_model::{Coder, EC_CODE_BOT, EC_CODE_TOP, EC_UINT_BITS};
use vstd::arithmetic::div_mod::*;
use vstd::arithmetic::mul::*;
use vstd::arithmetic::power2::*;
use vstd::prelude::*;

verus! {

/// The first `n` bytes of `data`, with zeros where it is too short.
pub open spec fn prefix(data: Seq<u8>, n: nat) -> Seq<u8> {
    Seq::new(
        n,
        |i: int|
            if i < data.len() {
                data[i]
            } else {
                0u8
            },
    )
}

/// The number spelled by the first `31 + 8 * k` bits of `data`.
pub open spec fn code(data: Seq<u8>, k: nat) -> nat {
    radix::be_value(prefix(data, k + 4)) / 2
}

/// All raw bits of a packet in reading order: from its last byte backwards.
pub open spec fn raw_tail(data: Seq<u8>) -> Seq<bool> {
    bits::bytes_bits(data.reverse())
}

/// The state of a range decoder.
pub struct Decoder {
    /// How far the top of the interval lies above the coded number.
    pub val: nat,
    /// The width of the interval.
    pub rng: nat,
    /// The number of digits taken in.
    pub digits: nat,
    /// The number of raw bits read.
    pub raw: nat,
}

impl Decoder {
    /// A decoder that has read nothing of `data` but its first 31 bits.
    pub open spec fn start(data: Seq<u8>) -> Decoder {
        Decoder {
            val: (EC_CODE_TOP - 1 - code(data, 0)) as nat,
            rng: EC_CODE_TOP as nat,
            digits: 0,
            raw: 0,
        }
    }

    /// Take in digits of `data` until the interval is wider than `2^23`.
    pub open spec fn renormalized(self, data: Seq<u8>) -> Decoder
        decreases
            (if self.rng <= EC_CODE_BOT {
                EC_CODE_BOT + 1 - self.rng
            } else {
                0
            }),
    {
        if 0 < self.rng <= EC_CODE_BOT {
            (Decoder {
                val: (self.val * 256 + 255 - code(data, self.digits + 1) % 256) as nat,
                rng: self.rng * 256,
                digits: self.digits + 1,
                raw: self.raw,
            }).renormalized(data)
        } else {
            self
        }
    }

    /// The frequency, out of `ft`, at which the coded number lies.
    pub open spec fn frequency(self, ft: nat) -> int {
        let s = self.val / (self.rng / ft) + 1;
        if s < ft {
            ft - s
        } else {
            0
        }
    }

    /// After accepting the symbol with frequencies `[fl, fh)` out of `ft`.
    pub open spec fn accept(self, fl: nat, fh: nat, ft: nat, data: Seq<u8>) -> Decoder {
        let s = (self.rng / ft) * ((ft - fh) as nat);
        (Decoder {
            val: (self.val - s) as nat,
            rng: if fl > 0 {
                (self.rng / ft) * ((fh - fl) as nat)
            } else {
                (self.rng - s) as nat
            },
            ..self
        }).renormalized(data)
    }

    /// The bit that the coded number stands for: `true` in the topmost
    /// `2^-logp` of the interval.
    pub open spec fn reads_bit(self, logp: nat) -> bool {
        self.val < self.rng / pow2(logp)
    }

    /// After reading that bit.
    pub open spec fn accept_bit(self, logp: nat, data: Seq<u8>) -> Decoder {
        let s = self.rng / pow2(logp);
        (if self.reads_bit(logp) {
            Decoder { rng: s, ..self }
        } else {
            Decoder { val: (self.val - s) as nat, rng: (self.rng - s) as nat, ..self }
        }).renormalized(data)
    }

    /// `s` is the symbol of the inverse cumulative table `icdf` that the coded
    /// number stands for: the first whose share reaches up to it.
    pub open spec fn reads_icdf(self, s: int, icdf: Seq<u8>, ftb: nat) -> bool {
        let r = self.rng / pow2(ftb);
        &&& r * icdf[s] as nat <= self.val
        &&& forall|j: int| 0 <= j < s ==> self.val < r * #[trigger] icdf[j] as nat
    }

    /// After reading symbol `s` of `icdf`.
    pub open spec fn accept_icdf(
        self,
        s: int,
        icdf: Seq<u8>,
        ftb: nat,
        data: Seq<u8>,
    ) -> Decoder {
        let r = self.rng / pow2(ftb);
        let top = if s > 0 {
            r * icdf[s - 1] as nat
        } else {
            self.rng
        };
        (Decoder {
            val: (self.val - r * icdf[s] as nat) as nat,
            rng: (top - r * icdf[s] as nat) as nat,
            ..self
        }).renormalized(data)
    }

    /// The next `n` raw bits as a number.
    pub open spec fn reads_raw(self, n: nat, data: Seq<u8>) -> nat {
        bits::bits_value(raw_tail(data).subrange(self.raw as int, (self.raw + n) as int))
    }

    /// After reading `n` raw bits.
    pub open spec fn accept_raw(self, n: nat) -> Decoder {
        Decoder { raw: self.raw + n, ..self }
    }
}

/// One thing that an encoder can write.
pub enum Item {
    /// Frequencies `[fl, fh)` out of `ft`.
    Frequencies { fl: nat, fh: nat, ft: nat },
    /// A bit that is `true` with probability `2^-logp`.
    Bit { value: bool, logp: nat },
    /// Symbol `s` of an inverse cumulative table with total `2^ftb`.
    Symbol { s: int, icdf: Seq<u8>, ftb: nat },
    /// One of `ft` equally likely integers.
    Uint { fl: nat, ft: nat },
    /// The `n` low bits of `v`, raw.
    Raw { v: nat, n: nat },
}

impl Item {
    /// The item can be coded and is not a symbol of frequency zero.
    pub open spec fn legal(self, c: Coder) -> bool {
        match self {
            Item::Frequencies { fl, fh, ft } => fl < fh && ft <= c.rng && c.codes(fl, fh, ft),
            Item::Bit { value, logp } => c.bit_width(value, logp) > 0,
            Item::Symbol { s, icdf, ftb } => {
                &&& c.codes_icdf(s, icdf, ftb)
                &&& forall|i: int, j: int|
                    0 <= i <= j < icdf.len() ==> #[trigger] icdf[j] <= #[trigger] icdf[i]
            },
            Item::Uint { fl, ft } => fl < ft && 1 < ft,
            Item::Raw { v, n } => v < pow2(n),
        }
    }

    /// What writing the item does.
    pub open spec fn written(self, c: Coder) -> Coder {
        match self {
            Item::Frequencies { fl, fh, ft } => c.symbol(fl, fh, ft),
            Item::Bit { value, logp } => c.bit(value, logp),
            Item::Symbol { s, icdf, ftb } => c.icdf(s, icdf, ftb),
            Item::Uint { fl, ft } => c.uint(fl, ft),
            Item::Raw { v, n } => c.raw_bits(v, n),
        }
    }

    /// A decoder in state `d` finds this item in `data`.
    pub open spec fn found(self, d: Decoder, data: Seq<u8>) -> bool {
        match self {
            Item::Frequencies { fl, fh, ft } => fl <= d.frequency(ft) < fh,
            Item::Bit { value, logp } => value == d.reads_bit(logp),
            Item::Symbol { s, icdf, ftb } => d.reads_icdf(s, icdf, ftb),
            Item::Uint { fl, ft } => {
                let n = radix::bit_len((ft - 1) as nat);
                if n > EC_UINT_BITS {
                    let low = (n - EC_UINT_BITS) as nat;
                    let hi = d.frequency(((ft - 1) as nat) / pow2(low) + 1);
                    hi * pow2(low) + d.reads_raw(low, data) == fl
                } else {
                    d.frequency(ft) == fl
                }
            },
            Item::Raw { v, n } => d.reads_raw(n, data) == v,
        }
    }

    /// The decoder after it has read this item.
    pub open spec fn read(self, d: Decoder, data: Seq<u8>) -> Decoder {
        match self {
            Item::Frequencies { fl, fh, ft } => d.accept(fl, fh, ft, data),
            Item::Bit { value, logp } => d.accept_bit(logp, data),
            Item::Symbol { s, icdf, ftb } => d.accept_icdf(s, icdf, ftb, data),
            Item::Uint { fl, ft } => {
                let n = radix::bit_len((ft - 1) as nat);
                if n > EC_UINT_BITS {
                    let low = (n - EC_UINT_BITS) as nat;
                    let total = ((ft - 1) as nat) / pow2(low) + 1;
                    let hi = d.frequency(total) as nat;
                    d.accept(hi, hi + 1, total, data).accept_raw(low)
                } else {
                    d.accept(fl, fl + 1, ft, data)
                }
            },
            Item::Raw { v, n } => d.accept_raw(n),
        }
    }
}

/// Every item of the message can be coded when its turn comes.
pub open spec fn all_legal(c: Coder, message: Seq<Item>) -> bool
    decreases message.len(),
{
    message.len() == 0 || (message[0].legal(c) && all_legal(
        message[0].written(c),
        message.skip(1),
    ))
}

/// What writing the whole message does.
pub open spec fn all_written(c: Coder, message: Seq<Item>) -> Coder
    decreases message.len(),
{
    if message.len() == 0 {
        c
    } else {
        all_written(message[0].written(c), message.skip(1))
    }
}

/// A decoder finds each item of the message in turn.
pub open spec fn all_found(d: Decoder, message: Seq<Item>, data: Seq<u8>) -> bool
    decreases message.len(),
{
    message.len() == 0 || (message[0].found(d, data) && all_found(
        message[0].read(d, data),
        message.skip(1),
        data,
    ))
}

/// The decoder after it has read the whole message.
pub open spec fn all_read(d: Decoder, message: Seq<Item>, data: Seq<u8>) -> Decoder
    decreases message.len(),
{
    if message.len() == 0 {
        d
    } else {
        all_read(message[0].read(d, data), message.skip(1), data)
    }
}

/// The number that `data` spells lies in the coder's interval.
pub open spec fn inside(c: Coder, data: Seq<u8>) -> bool {
    c.low <= code(data, c.digits) < c.low + c.rng
}

/// The raw bits so far are the first ones at the back of `data`.
pub open spec fn raw_inside(c: Coder, data: Seq<u8>) -> bool {
    c.raw.is_prefix_of(raw_tail(data))
}

/// The decoder has read what the coder has written.
pub open spec fn in_step(c: Coder, d: Decoder, data: Seq<u8>) -> bool {
    &&& inside(c, data)
    &&& d.rng == c.rng
    &&& d.digits == c.digits
    &&& d.raw == c.raw.len()
    &&& d.val == c.low + c.rng - 1 - code(data, c.digits)
}

/// One more digit of `data` goes below the number spelled so far.
proof fn lemma_code_step(data: Seq<u8>, k: nat)
    ensures
        code(data, k + 1) / 256 == code(data, k),
{
    let p = prefix(data, k + 5);
    assert(p.drop_last() =~= prefix(data, k + 4));
    let (a, b) = (radix::be_value(prefix(data, k + 4)) as int, p.last() as int);
    assert(radix::be_value(p) == a * 256 + b);
    assert((a * 256 + b) / 2 / 256 == a / 2);
}

/// A number inside the scaled interval was inside the interval before.
proof fn lemma_inside_before(c: Coder, data: Seq<u8>)
    requires
        0 < c.rng,
        inside(c.renormalized(), data),
    ensures
        inside(c, data),
    decreases
            (if c.rng <= EC_CODE_BOT {
                EC_CODE_BOT + 1 - c.rng
            } else {
                0
            }),
{
    if c.rng <= EC_CODE_BOT {
        let next = Coder {
            low: c.low * 256,
            digits: c.digits + 1,
            rng: c.rng * 256,
            raw: c.raw,
        };
        lemma_inside_before(next, data);
        lemma_code_step(data, c.digits);
    }
}

/// Scaling up keeps coder and decoder in step.
proof fn lemma_step_renormalized(c: Coder, d: Decoder, data: Seq<u8>)
    requires
        in_step(c, d, data),
    ensures
        in_step(c.renormalized(), d.renormalized(data), data),
    decreases
            (if c.rng <= EC_CODE_BOT {
                EC_CODE_BOT + 1 - c.rng
            } else {
                0
            }),
{
    if 0 < c.rng <= EC_CODE_BOT {
        lemma_code_step(data, c.digits);
        let c1 = Coder { low: c.low * 256, digits: c.digits + 1, rng: c.rng * 256, raw: c.raw };
        let d1 = Decoder {
            val: (d.val * 256 + 255 - code(data, d.digits + 1) % 256) as nat,
            rng: d.rng * 256,
            digits: d.digits + 1,
            raw: d.raw,
        };
        lemma_step_renormalized(c1, d1, data);
    }
}

/// Reading a symbol: the decoder finds its frequencies and stays in step.
proof fn lemma_frequencies_step(
    c: Coder,
    d: Decoder,
    fl: nat,
    fh: nat,
    ft: nat,
    data: Seq<u8>,
)
    requires
        in_step(c, d, data),
        fl < fh,
        ft <= c.rng,
        c.codes(fl, fh, ft),
        inside(c.symbol(fl, fh, ft), data),
    ensures
        fl <= d.frequency(ft) < fh,
        in_step(c.symbol(fl, fh, ft), d.accept(fl, fh, ft, data), data),
{
    let part = c.narrowed(c.symbol_skip(fl, ft), c.symbol_width(fl, fh, ft));
    lemma_inside_before(part, data);
    crate::range_model::lemma_symbol_fits(c, fl, fh, ft);
    let r = c.rng / ft;
    lemma_div_is_ordered(ft as int, c.rng as int, ft as int);
    lemma_div_by_self(ft as int);
    let (l, h, t, v, x) = (fl as int, fh as int, ft as int, d.val as int, r as int);
    lemma_mul_is_distributive_sub(x, t - l, t - h);
    assert(r * ((ft - fh) as nat) <= v);
    assert(fl > 0 ==> v < r * ((ft - fl) as nat));
    lemma_fundamental_div_mod(v, x);
    lemma_mod_bound(v, x);
    let q = v / x;
    assert(q >= t - h) by (nonlinear_arith)
        requires
            x * (t - h) <= v,
            v == x * q + v % x,
            v % x < x,
            x > 0,
    ;
    if fl > 0 {
        assert(q < t - l) by (nonlinear_arith)
            requires
                v < x * (t - l),
                v == x * q + v % x,
                0 <= v % x,
                x > 0,
        ;
    }
    let d1 = Decoder {
        val: (d.val - r * ((ft - fh) as nat)) as nat,
        rng: if fl > 0 {
            r * ((fh - fl) as nat)
        } else {
            (d.rng - r * ((ft - fh) as nat)) as nat
        },
        ..d
    };
    lemma_step_renormalized(part, d1, data);
}

/// Reading a bit keeps coder and decoder in step.
proof fn lemma_bit_step(c: Coder, d: Decoder, value: bool, logp: nat, data: Seq<u8>)
    requires
        in_step(c, d, data),
        c.bit_width(value, logp) > 0,
        inside(c.bit(value, logp), data),
    ensures
        value == d.reads_bit(logp),
        in_step(c.bit(value, logp), d.accept_bit(logp, data), data),
{
    let part = c.narrowed(c.bit_skip(value, logp), c.bit_width(value, logp));
    lemma_pow2_pos(logp);
    lemma_div_is_ordered_by_denominator(c.rng as int, 1, pow2(logp) as int);
    lemma_div_pos_is_pos(c.rng as int, pow2(logp) as int);
    lemma_inside_before(part, data);
    let s = c.rng / pow2(logp);
    let d1 = if d.reads_bit(logp) {
        Decoder { rng: s, ..d }
    } else {
        Decoder { val: (d.val - s) as nat, rng: (d.rng - s) as nat, ..d }
    };
    lemma_step_renormalized(part, d1, data);
}

/// Reading a symbol of a table keeps coder and decoder in step.
proof fn lemma_icdf_step(c: Coder, d: Decoder, s: int, icdf: Seq<u8>, ftb: nat, data: Seq<u8>)
    requires
        in_step(c, d, data),
        c.codes_icdf(s, icdf, ftb),
        forall|i: int, j: int|
            0 <= i <= j < icdf.len() ==> #[trigger] icdf[j] <= #[trigger] icdf[i],
        inside(c.icdf(s, icdf, ftb), data),
    ensures
        d.reads_icdf(s, icdf, ftb),
        in_step(c.icdf(s, icdf, ftb), d.accept_icdf(s, icdf, ftb, data), data),
{
    let part = c.narrowed(c.icdf_skip(s, icdf, ftb), c.icdf_width(s, icdf, ftb));
    let r = c.rng / pow2(ftb);
    let ft = pow2(ftb);
    lemma_pow2_pos(ftb);
    lemma_fundamental_div_mod(c.rng as int, ft as int);
    lemma_inside_before(part, data);
    let x = r as int;
    let rng = c.rng as int;
    let rem = (c.rng % ft) as int;
    let below = icdf[s] as int;
    assert(x * below <= rng) by (nonlinear_arith)
        requires
            rng == ft * x + rem,
            0 <= rem,
            0 <= x,
            below <= ft,
    ;
    if s > 0 {
        let above = icdf[s - 1] as int;
        assert(x * above <= rng && x * (above - below) == x * above - x * below) by (nonlinear_arith)
            requires
                rng == ft * x + rem,
                0 <= rem,
                0 <= x,
                above <= ft,
        ;
        assert(d.val < r * icdf[s - 1] as nat);
        assert forall|j: int| 0 <= j < s implies d.val < r * #[trigger] icdf[j] as nat by {
            assert(icdf[s - 1] <= icdf[j]);
            lemma_mul_inequality(icdf[s - 1] as int, icdf[j] as int, r as int);
            lemma_mul_is_commutative(icdf[s - 1] as int, r as int);
            lemma_mul_is_commutative(icdf[j] as int, r as int);
        }
    }
    let top = if s > 0 {
        r * icdf[s - 1] as nat
    } else {
        d.rng
    };
    let d1 = Decoder {
        val: (d.val - r * icdf[s] as nat) as nat,
        rng: (top - r * icdf[s] as nat) as nat,
        ..d
    };
    lemma_step_renormalized(part, d1, data);
}

/// Reading raw bits: the decoder finds their value and stays in step.
proof fn lemma_raw_step(c: Coder, d: Decoder, v: nat, n: nat, data: Seq<u8>)
    requires
        in_step(c, d, data),
        raw_inside(c.raw_bits(v, n), data),
    ensures
        d.reads_raw(n, data) == v % pow2(n),
        in_step(c.raw_bits(v, n), d.accept_raw(n), data),
{
    let b = bits::value_bits(v, n);
    assert(raw_tail(data).subrange(d.raw as int, (d.raw + n) as int) =~= b) by {
        let raw = c.raw_bits(v, n).raw;
        assert forall|i: int| 0 <= i < n implies raw_tail(data)[c.raw.len() + i] == b[i] by {
            assert(raw[c.raw.len() + i] == b[i]);
            assert(raw =~= raw_tail(data).subrange(0, raw.len() as int));
            assert(raw_tail(data).subrange(0, raw.len() as int)[c.raw.len() + i] == raw_tail(
                data,
            )[c.raw.len() + i]);
        }
    }
    bits::lemma_value_bits_mod(v, n);
    bits::lemma_bits_value_of_value_bits(v % pow2(n), n);
}

/// Scaling up does not change the number of bits used.
pub proof fn lemma_scaled_tell(c: Coder)
    requires
        0 < c.rng <= crate::range_model::EC_CODE_TOP,
        c.low + c.rng <= crate::range_model::EC_CODE_TOP * radix::pow256(c.digits),
    ensures
        c.renormalized().tell() == c.tell(),
{
    crate::range_model::lemma_renormalized(c);
    let d = (c.renormalized().digits - c.digits) as nat;
    let n = radix::bit_len(c.rng);
    radix::lemma_bit_len_bounds(c.rng);
    radix::lemma_pow256_is_pow2(d);
    lemma_pow2_adds((n - 1) as nat, 8 * d);
    lemma_pow2_adds(n, 8 * d);
    let (v, p, a, b) = (c.rng, pow2(8 * d), pow2((n - 1) as nat), pow2(n));
    lemma_pow2_pos(8 * d);
    assert(a * p <= v * p < b * p) by (nonlinear_arith)
        requires
            a <= v < b,
            p > 0,
    ;
    assert((n - 1) as nat + 8 * d == (n + 8 * d - 1) as nat);
    radix::lemma_bit_len_unique(c.renormalized().rng, n + 8 * d);
}

/// A narrower interval leaves fewer bits open.
proof fn lemma_narrower_tell(c: Coder, part: Coder)
    requires
        0 < part.rng <= c.rng,
        part.digits == c.digits,
        part.raw == c.raw,
    ensures
        part.tell() >= c.tell(),
{
    radix::lemma_bit_len_bounds(c.rng);
    radix::lemma_bit_len_at_most(part.rng, radix::bit_len(c.rng));
}

/// A part of the interval, scaled up, lies inside the interval.
proof fn lemma_narrowed_back(c: Coder, skip: nat, width: nat, data: Seq<u8>)
    requires
        c.valid(),
        0 < width,
        skip + width <= c.rng,
    ensures
        c.narrowed(skip, width).renormalized().valid(),
        c.narrowed(skip, width).renormalized().raw == c.raw,
        c.narrowed(skip, width).renormalized().tell() >= c.tell(),
        inside(c.narrowed(skip, width).renormalized(), data) ==> inside(c, data),
{
    let part = c.narrowed(skip, width);
    crate::range_model::lemma_renormalized(part);
    lemma_scaled_tell(part);
    lemma_narrower_tell(c, part);
    if inside(part.renormalized(), data) {
        lemma_inside_before(part, data);
    }
}

/// The high part of an integer and the total it is coded with.
proof fn lemma_uint_parts(c: Coder, fl: nat, ft: nat)
    requires
        c.valid(),
        fl < ft,
        1 < ft,
    ensures
        radix::bit_len((ft - 1) as nat) > EC_UINT_BITS ==> {
            let low = (radix::bit_len((ft - 1) as nat) - EC_UINT_BITS) as nat;
            let hi = fl / pow2(low);
            let total = ((ft - 1) as nat) / pow2(low) + 1;
            &&& hi < total <= 256
            &&& c.codes(hi, hi + 1, total)
            &&& fl == hi * pow2(low) + fl % pow2(low)
        },
        radix::bit_len((ft - 1) as nat) <= EC_UINT_BITS ==> ft <= 256 && c.codes(fl, fl + 1, ft),
{
    lemma2_to64();
    let m = (ft - 1) as nat;
    let n = radix::bit_len(m);
    radix::lemma_bit_len_bounds(m);
    if n > EC_UINT_BITS {
        let low = (n - EC_UINT_BITS) as nat;
        let p = pow2(low);
        lemma_pow2_pos(low);
        lemma_pow2_adds(low, 8);
        lemma_div_is_ordered(fl as int, m as int, p as int);
        lemma_multiply_divide_lt(m as int, p as int, 256);
        lemma_fundamental_div_mod(fl as int, p as int);
        lemma_mul_is_commutative(p as int, (fl / p) as int);
        crate::range_model::lemma_small_total_codes(c, fl / p, fl / p + 1, m / p + 1);
    } else {
        if n < 8 {
            lemma_pow2_strictly_increases(n, 8);
        }
        crate::range_model::lemma_small_total_codes(c, fl, fl + 1, ft);
    }
}

/// Reading an integer in two parts: the high one as a symbol, the low one raw.
proof fn lemma_uint_step(
    c: Coder,
    d: Decoder,
    hi: nat,
    total: nat,
    v: nat,
    low: nat,
    data: Seq<u8>,
)
    requires
        c.valid(),
        in_step(c, d, data),
        total <= c.rng,
        c.codes(hi, hi + 1, total),
        inside(c.symbol(hi, hi + 1, total).raw_bits(v, low), data),
        raw_inside(c.symbol(hi, hi + 1, total).raw_bits(v, low), data),
    ensures
        d.frequency(total) == hi,
        d.reads_raw(low, data) == v % pow2(low),
        in_step(
            c.symbol(hi, hi + 1, total).raw_bits(v, low),
            d.accept(hi, hi + 1, total, data).accept_raw(low),
            data,
        ),
{
    let mid = c.symbol(hi, hi + 1, total);
    crate::range_model::lemma_symbol_valid(c, hi, hi + 1, total);
    lemma_frequencies_step(c, d, hi, hi + 1, total, data);
    lemma_raw_step(mid, d.accept(hi, hi + 1, total, data), v, low, data);
}

/// Earlier raw bits stay in front of later ones.
proof fn lemma_raw_back(c: Coder, v: nat, n: nat, data: Seq<u8>)
    requires
        raw_inside(c.raw_bits(v, n), data),
    ensures
        raw_inside(c, data),
{
    let raw = c.raw_bits(v, n).raw;
    assert(c.raw =~= raw_tail(data).subrange(0, c.raw.len() as int)) by {
        assert forall|i: int| 0 <= i < c.raw.len() implies c.raw[i] == raw_tail(data)[i] by {
            assert(raw[i] == c.raw[i]);
            assert(raw_tail(data).subrange(0, raw.len() as int)[i] == raw_tail(data)[i]);
        }
    }
}

/// Writing an item narrows the interval and extends the raw bits.
pub proof fn lemma_item_back(item: Item, c: Coder, data: Seq<u8>)
    requires
        c.valid(),
        item.legal(c),
    ensures
        item.written(c).valid(),
        item.written(c).tell() >= c.tell(),
        inside(item.written(c), data) ==> inside(c, data),
        raw_inside(item.written(c), data) ==> raw_inside(c, data),
{
    match item {
        Item::Frequencies { fl, fh, ft } => {
            crate::range_model::lemma_symbol_fits(c, fl, fh, ft);
            lemma_narrowed_back(c, c.symbol_skip(fl, ft), c.symbol_width(fl, fh, ft), data);
        },
        Item::Bit { value, logp } => {
            lemma_pow2_pos(logp);
            lemma_div_is_ordered_by_denominator(c.rng as int, 1, pow2(logp) as int);
            lemma_narrowed_back(c, c.bit_skip(value, logp), c.bit_width(value, logp), data);
        },
        Item::Symbol { s, icdf, ftb } => {
            let r = (c.rng / pow2(ftb)) as int;
            lemma_pow2_pos(ftb);
            lemma_fundamental_div_mod(c.rng as int, pow2(ftb) as int);
            let (ft, rng, rem, below) = (
                pow2(ftb) as int,
                c.rng as int,
                (c.rng % pow2(ftb)) as int,
                icdf[s] as int,
            );
            let above = if s > 0 {
                icdf[s - 1] as int
            } else {
                ft
            };
            assert(0 <= r * below <= r * above <= rng && r * (above - below) == r * above - r
                * below) by (nonlinear_arith)
                requires
                    rng == ft * r + rem,
                    0 <= rem,
                    0 <= r,
                    0 <= below <= above <= ft,
            ;
            lemma_narrowed_back(c, c.icdf_skip(s, icdf, ftb), c.icdf_width(s, icdf, ftb), data);
        },
        Item::Uint { fl, ft } => {
            lemma_uint_parts(c, fl, ft);
            let n = radix::bit_len((ft - 1) as nat);
            if n > EC_UINT_BITS {
                let low = (n - EC_UINT_BITS) as nat;
                let hi = fl / pow2(low);
                let total = ((ft - 1) as nat) / pow2(low) + 1;
                let mid = c.symbol(hi, hi + 1, total);
                crate::range_model::lemma_symbol_fits(c, hi, hi + 1, total);
                lemma_narrowed_back(
                    c,
                    c.symbol_skip(hi, total),
                    c.symbol_width(hi, hi + 1, total),
                    data,
                );
                if raw_inside(mid.raw_bits(fl, low), data) {
                    lemma_raw_back(mid, fl, low, data);
                }
            } else {
                crate::range_model::lemma_symbol_fits(c, fl, fl + 1, ft);
                lemma_narrowed_back(c, c.symbol_skip(fl, ft), c.symbol_width(fl, fl + 1, ft), data);
            }
        },
        Item::Raw { v, n } => {
            if raw_inside(c.raw_bits(v, n), data) {
                lemma_raw_back(c, v, n, data);
            }
        },
    }
}

/// Reading an item: the decoder finds it and stays in step.
pub proof fn lemma_item_step(item: Item, c: Coder, d: Decoder, data: Seq<u8>)
    requires
        c.valid(),
        item.legal(c),
        in_step(c, d, data),
        inside(item.written(c), data),
        raw_inside(item.written(c), data),
    ensures
        item.found(d, data),
        in_step(item.written(c), item.read(d, data), data),
{
    match item {
        Item::Frequencies { fl, fh, ft } => {
            lemma_frequencies_step(c, d, fl, fh, ft, data);
        },
        Item::Bit { value, logp } => {
            lemma_bit_step(c, d, value, logp, data);
        },
        Item::Symbol { s, icdf, ftb } => {
            lemma_icdf_step(c, d, s, icdf, ftb, data);
        },
        Item::Uint { fl, ft } => {
            lemma_uint_parts(c, fl, ft);
            let n = radix::bit_len((ft - 1) as nat);
            if n > EC_UINT_BITS {
                let low = (n - EC_UINT_BITS) as nat;
                let hi = fl / pow2(low);
                let total = ((ft - 1) as nat) / pow2(low) + 1;
                lemma_uint_step(c, d, hi, total, fl, low, data);
            } else {
                lemma_frequencies_step(c, d, fl, fl + 1, ft, data);
            }
        },
        Item::Raw { v, n } => {
            lemma_raw_step(c, d, v, n, data);
            lemma_small_mod(v, pow2(n));
        },
    }
}

/// The end of the message lies inside everything before it.
pub proof fn lemma_message_back(c: Coder, message: Seq<Item>, data: Seq<u8>)
    requires
        c.valid(),
        all_legal(c, message),
    ensures
        all_written(c, message).valid(),
        all_written(c, message).tell() >= c.tell(),
        inside(all_written(c, message), data) ==> inside(c, data),
        raw_inside(all_written(c, message), data) ==> raw_inside(c, data),
    decreases message.len(),
{
    if message.len() > 0 {
        lemma_item_back(message[0], c, data);
        lemma_message_back(message[0].written(c), message.skip(1), data);
    }
}

/// Reading a message from a point inside the interval it leaves.
pub proof fn lemma_message_step(c: Coder, d: Decoder, message: Seq<Item>, data: Seq<u8>)
    requires
        c.valid(),
        all_legal(c, message),
        in_step(c, d, data),
        inside(all_written(c, message), data),
        raw_inside(all_written(c, message), data),
    ensures
        all_found(d, message, data),
        in_step(all_written(c, message), all_read(d, message, data), data),
    decreases message.len(),
{
    if message.len() > 0 {
        let next = message[0].written(c);
        lemma_item_back(message[0], c, data);
        lemma_message_back(next, message.skip(1), data);
        lemma_item_step(message[0], c, d, data);
        lemma_message_step(next, message[0].read(d, data), message.skip(1), data);
    }
}

/// The final point, written with the digits the packet has for it and any bits
/// in those that it leaves open, lies inside the interval whatever bytes
/// follow.
proof fn lemma_point_inside(c: Coder, data: Seq<u8>, x: nat)
    requires
        c.valid(),
        c.range_bytes().len() <= data.len(),
        radix::be_value(data.take(c.range_bytes().len() as int)) == radix::be_value(c.range_bytes())
            + x,
        x < pow2(c.spare_bits()),
    ensures
        inside(c, data),
{
    let k = crate::range_model::lemma_tail_step(c);
    lemma2_to64();
    let m = c.tail_step();
    let e = c.tail_point();
    let t = c.tail_digits();
    assert(t <= 2 && 8 * t >= 31 - k);
    let s = (31 - 8 * t) as nat;
    let p = pow2(s);
    lemma_pow2_pos(s);
    lemma_pow2_adds((k - s) as nat, s);
    let g = pow2((k - s) as nat);
    assert(c.spare_bits() == k - s);
    lemma_fundamental_div_mod(e as int, m as int);
    let q = (e / m) as int;
    let b = e / p;
    assert(e == (q * g) * p) by (nonlinear_arith)
        requires
            e == m * q,
            m == g * p,
    ;
    lemma_div_by_multiple(q * g, p as int);
    assert(e == b * p);
    // The digits spell the point.
    radix::lemma_pow256_adds(c.digits, t);
    radix::lemma_pow256_is_pow2(t);
    lemma_pow2_adds(s, 8 * t);
    let total = radix::pow256(c.digits);
    let f = radix::pow256(t);
    assert(b < total * f) by (nonlinear_arith)
        requires
            b * p < 0x8000_0000 * total,
            p * f == 0x8000_0000,
            p > 0,
    ;
    radix::lemma_be_value_of_digits(b, c.digits + t);
    // The decoder sees them followed by other bytes.
    let head = data.take(c.range_bytes().len() as int);
    let rest_len = (4 - t) as nat;
    let all = prefix(data, c.digits + 4);
    let rest = all.skip((c.digits + t) as int);
    assert(all =~= head + rest);
    radix::lemma_be_value_concat(head, rest);
    radix::lemma_be_value_bound(rest);
    radix::lemma_pow256_is_pow2(rest_len);
    lemma_pow2_unfold((s + 1) as nat);
    assert(8 * rest_len == s + 1);
    let w = radix::be_value(rest);
    assert(radix::be_value(all) == (b + x) * (2 * p) + w);
    assert((b + x) * (2 * p) == 2 * (b * p + x * p)) by (nonlinear_arith);
    assert(code(data, c.digits) == (2 * (e + x * p) + w) / 2);
    assert(x * p + p <= m) by (nonlinear_arith)
        requires
            m == g * p,
            x + 1 <= g,
            p > 0,
    ;
    assert(0 <= x * p) by (nonlinear_arith)
        requires
            0 <= x,
            0 < p,
    ;
}

/// The raw bytes at the back hold the raw bits in reading order.
proof fn lemma_raw_bytes_inside(c: Coder, data: Seq<u8>)
    requires
        c.raw_bytes().is_suffix_of(data),
    ensures
        raw_inside(c, data),
{
    let tail = c.raw_bytes();
    let packed = bits::pack_bits(c.raw);
    let back = data.reverse();
    assert(tail =~= data.subrange(data.len() - tail.len(), data.len() as int));
    assert forall|j: int| 0 <= j < packed.len() implies back[j] == packed[j] by {
        assert(tail[tail.len() - 1 - j] == packed[j]);
        assert(data.subrange(data.len() - tail.len(), data.len() as int)[tail.len() - 1 - j]
            == data[data.len() - 1 - j]);
    }
    assert(c.raw =~= raw_tail(data).subrange(0, c.raw.len() as int)) by {
        assert forall|i: int| 0 <= i < c.raw.len() implies c.raw[i] == raw_tail(data)[i] by {
            bits::lemma_packed_bit(c.raw, i);
        }
    }
}

/// Whatever message an encoder writes, a decoder that reads data whose front
/// spells a number in the encoder's interval and whose back has the encoder's
/// raw bits finds every item of the message, and ends with the encoder's range.
pub proof fn law_message_is_read_back(message: Seq<Item>, data: Seq<u8>)
    requires
        all_legal(Coder::start(), message),
        inside(all_written(Coder::start(), message), data),
        raw_inside(all_written(Coder::start(), message), data),
    ensures
        all_found(Decoder::start(data), message, data),
        all_read(Decoder::start(data), message, data).rng == all_written(
            Coder::start(),
            message,
        ).rng,
{
    let c = Coder::start();
    assert(radix::pow256(0) == 1);
    lemma_message_back(c, message, data);
    lemma_message_step(c, Decoder::start(data), message, data);
}

/// Data with the range bytes at the front and the raw bytes at the back holds
/// the message.
proof fn lemma_parts_inside(c: Coder, data: Seq<u8>)
    requires
        c.valid(),
        c.range_bytes().is_prefix_of(data),
        c.raw_bytes().is_suffix_of(data),
    ensures
        inside(c, data),
        raw_inside(c, data),
{
    let front = c.range_bytes();
    lemma_pow2_pos(c.spare_bits());
    assert(data.take(front.len() as int) =~= front);
    lemma_point_inside(c, data, 0);
    lemma_raw_bytes_inside(c, data);
}

/// A message never takes back bits that are used.
pub proof fn law_messages_only_use_up_bits(c: Coder, message: Seq<Item>)
    requires
        c.valid(),
        all_legal(c, message),
    ensures
        all_written(c, message).valid(),
        all_written(c, message).tell() >= c.tell(),
{
    lemma_message_back(c, message, Seq::empty());
}

/// A packet has at least the bits that are used, but for the one that a fresh
/// encoder counts. So it is not empty once anything has been coded.
pub proof fn law_packets_have_the_bits_used(c: Coder)
    requires
        c.valid(),
    ensures
        8 * c.packet().len() >= c.tell() - 1,
{
    let k = crate::range_model::lemma_tail_step(c);
    lemma2_to64();
    radix::lemma_be_digits_len(
        c.tail_point() / pow2((31 - 8 * c.tail_digits()) as nat),
        c.digits + c.tail_digits(),
    );
    let n = radix::bit_len(c.rng);
    radix::lemma_bit_len_bounds(c.rng);
    assert(k <= n - 1) by {
        lemma_pow2_unfold((n - 1) as nat);
        if k > n - 1 {
            lemma_pow2_strictly_increases((n - 1) as nat, k);
        }
    }
}

/// The packet of [`finish`](crate::opus_range::RangeEncoder::finish), and the
/// one for a frame of any size, hold the message.
pub proof fn law_packets_hold_the_message(c: Coder, size: nat)
    requires
        c.valid(),
    ensures
        inside(c, c.packet()),
        raw_inside(c, c.packet()),
        inside(c, c.packet_of_size(size)),
        raw_inside(c, c.packet_of_size(size)),
        c.packet_of_size(size).len() >= size,
{
    let (a, b) = (c.range_bytes(), c.raw_bytes());
    let p = c.packet();
    let q = c.packet_of_size(size);
    assert(a =~= p.subrange(0, a.len() as int));
    assert(b =~= p.subrange(p.len() - b.len(), p.len() as int));
    lemma_parts_inside(c, p);
    if c.overlaps(size) {
        lemma_shared_front(c, size);
        lemma_shared_back(c, size);
    } else {
        assert(a =~= q.subrange(0, a.len() as int));
        assert(b =~= q.subrange(q.len() - b.len(), q.len() as int));
        lemma_parts_inside(c, q);
    }
}

/// The first byte of the raw part has only the bits that do not fill a byte.
pub proof fn lemma_first_raw_byte(c: Coder)
    requires
        0 < c.raw.len() % 8,
    ensures
        c.raw_bytes().len() > 0,
        c.raw_bytes()[0] == bits::pack_bits(c.raw).last(),
        c.raw_bytes()[0] < pow2(c.raw.len() % 8),
{
    lemma2_to64();
    let packed = bits::pack_bits(c.raw);
    let j = packed.len() - 1;
    let u = c.raw.len() % 8;
    assert(c.raw.len() == 8 * j + u);
    assert forall|i: int| 0 <= i < 8 implies #[trigger] bits::bit_or_zero(c.raw, 8 * j + i) <= 1 && (
    i >= u ==> bits::bit_or_zero(c.raw, 8 * j + i) == 0) by {}
    assert(bits::bit_or_zero(c.raw, 8 * j) == bits::bit_or_zero(c.raw, 8 * j + 0));
    let (b1, b2, b3) = (
        bits::bit_or_zero(c.raw, 8 * j + 1),
        bits::bit_or_zero(c.raw, 8 * j + 2),
        bits::bit_or_zero(c.raw, 8 * j + 3),
    );
    let (b4, b5, b6, b7) = (
        bits::bit_or_zero(c.raw, 8 * j + 4),
        bits::bit_or_zero(c.raw, 8 * j + 5),
        bits::bit_or_zero(c.raw, 8 * j + 6),
        bits::bit_or_zero(c.raw, 8 * j + 7),
    );
    assert(bits::pack_byte(c.raw, j) < pow2(u));
}

/// A byte that both parts share: the open bits of the last range byte hold the
/// raw bits that do not fill a byte.
proof fn lemma_shared_byte(c: Coder, size: nat) -> (f: nat)
    requires
        c.valid(),
        c.overlaps(size),
    ensures
        ({
            let (a, b, q) = (c.range_bytes(), c.raw_bytes(), c.packet_of_size(size));
            let n = c.spare_bits();
            &&& 0 < a.len() && 0 < b.len()
            &&& q.len() == size == a.len() + b.len() - 1
            &&& b[0] < pow2((c.raw.len() % 8) as nat) <= pow2(n)
            &&& a.last() == f * pow2(n)
            &&& q[a.len() - 1] == a.last() + b[0]
            &&& forall|i: int| 0 <= i < a.len() - 1 ==> #[trigger] q[i] == a[i]
            &&& forall|i: int| 1 <= i < b.len() ==> q[a.len() - 1 + i] == #[trigger] b[i]
        }),
{
    let (a, b) = (c.range_bytes(), c.raw_bytes());
    let u = c.raw.len() % 8;
    let n = c.spare_bits();
    let f = crate::range_model::lemma_last_range_byte(c);
    lemma_first_raw_byte(c);
    lemma_pow2_pos(u);
    if u < n {
        lemma_pow2_strictly_increases(u, n);
    }
    let q = c.packet_of_size(size);
    let front = a.drop_last().push((a.last() + b[0]) as u8);
    assert(q == front + b.skip(1));
    assert forall|i: int| 1 <= i < b.len() implies q[a.len() - 1 + i] == #[trigger] b[i] by {
        assert(q[front.len() + (i - 1)] == b.skip(1)[i - 1]);
    }
    f
}

/// With a shared byte the front still spells a number in the interval.
#[verifier::spinoff_prover]
proof fn lemma_shared_front(c: Coder, size: nat)
    requires
        c.valid(),
        c.overlaps(size),
    ensures
        inside(c, c.packet_of_size(size)),
        c.packet_of_size(size).len() == size,
{
    let (a, b, q) = (c.range_bytes(), c.raw_bytes(), c.packet_of_size(size));
    let f = lemma_shared_byte(c, size);
    let x = b[0] as nat;
    let head = q.take(a.len() as int);
    assert(head.drop_last() =~= a.drop_last());
    assert(head.last() == a.last() + x);
    assert(radix::be_value(head) == radix::be_value(a) + x);
    lemma_point_inside(c, q, x);
}

/// With a shared byte the back still has the raw bits.
#[verifier::spinoff_prover]
proof fn lemma_shared_back(c: Coder, size: nat)
    requires
        c.valid(),
        c.overlaps(size),
    ensures
        raw_inside(c, c.packet_of_size(size)),
{
    let (a, b, q) = (c.range_bytes(), c.raw_bytes(), c.packet_of_size(size));
    let f = lemma_shared_byte(c, size);
    let x = b[0] as nat;
    let packed = bits::pack_bits(c.raw);
    let back = q.reverse();
    assert(packed.len() == b.len());
    assert forall|j: int| 0 <= j < packed.len() - 1 implies back[j] == packed[j] by {
        assert(b[b.len() - 1 - j] == packed[j]);
    }
    assert(packed[packed.len() - 1] == b[0]);
    assert(back[packed.len() - 1] == a.last() + x);
    assert forall|i: int| 0 <= i < c.raw.len() implies c.raw[i] == raw_tail(q)[i] by {
        bits::lemma_packed_bit(c.raw, i);
        if i / 8 == packed.len() - 1 {
            bits::lemma_bit_of_low(x, f, c.spare_bits(), (i % 8) as nat);
        }
    }
    assert(c.raw =~= raw_tail(q).subrange(0, c.raw.len() as int));
}

/// A message that takes no more bits than a frame of `size` bytes has fills it
/// exactly.
pub proof fn law_messages_that_fit_fill_their_frame(c: Coder, size: nat)
    requires
        c.valid(),
        c.tell() <= 8 * size,
    ensures
        c.packet_of_size(size).len() == size,
{
    let k = crate::range_model::lemma_tail_step(c);
    let t = c.tail_digits();
    radix::lemma_be_digits_len(
        c.tail_point() / pow2((31 - 8 * t) as nat),
        c.digits + t,
    );
    assert(c.range_bytes().len() == c.digits + t);
    assert(c.raw_bytes().len() == (c.raw.len() + 7) / 8);
    if c.overlaps(size) {
        lemma_shared_front(c, size);
    }
}

} // verus!
