//! The range encoder of Opus, the inverse of the `ec_dec` decoder.
//!
//! The encoder keeps
//! - an interval that every coded symbol narrows,
//! - a carry buffer (`rem` and `ext`) that holds bytes back until no carry can
//!   reach them any more,
//! - a window of raw bits that fill the packet from its physical end, least
//!   significant bit first.
//!
//! [`RangeEncoder::finish`] joins the two byte streams: range bytes at the
//! front, raw bytes at the back. What each call does to the message is stated
//! over [`Coder`](crate::range_model::Coder); that a decoder gets the symbols
//! back is shown in [`range_laws`](crate::range_laws).
//!
//! Inverse cumulative tables are top-cumulative: `icdf[s]` is the mass above
//! symbol `s` in units of `2^-ftb`, and the last entry is 0.
use crate::bits;
use crate::radix;
use crate::range_model::{Coder, EC_CODE_BOT, EC_CODE_TOP, EC_UINT_BITS, LOG2_CORRECTION};
use vstd::arithmetic::div_mod::*;
use vstd::arithmetic::mul::*;
use vstd::arithmetic::power2::*;
use vstd::bits::*;
use vstd::prelude::*;

verus! {

const EC_SYM_BITS: u32 = 8;

const EC_SYM_MAX: u32 = 0xFF;

const EC_CODE_BITS: u32 = 32;

/// The byte about to leave the interval starts at this bit of `val`.
const EC_CODE_SHIFT: u32 = 23;

/// The range encoder of an Opus packet.
///
/// Code symbols with [`encode`](Self::encode), [`enc_uint`](Self::enc_uint),
/// [`enc_bits`](Self::enc_bits) and the like, then call
/// [`finish`](Self::finish) for the packet.
pub struct RangeEncoder {
    /// Range bytes that no carry can change any more.
    buf: Vec<u8>,
    /// Width of the current interval.
    rng: u32,
    /// Low end of the current interval, without the bytes already out.
    val: u32,
    /// Number of `0xFF` bytes held back behind `rem`.
    ext: u32,
    /// Byte held back for a carry; -1 if there is none.
    rem: i32,
    /// Raw bits that do not fill a byte yet.
    end_window: u32,
    /// Number of bits in `end_window`.
    nend_bits: u32,
    /// Full bytes of raw bits, the first one last in the packet.
    end_buf: Vec<u8>,
}

impl View for RangeEncoder {
    type V = Coder;

    closed spec fn view(&self) -> Coder {
        Coder {
            low: radix::be_value(self.front()) * EC_CODE_TOP as nat + self.val as nat,
            digits: self.front().len(),
            rng: self.rng as nat,
            raw: bits::bytes_bits(self.end_buf@) + bits::value_bits(
                self.end_window as nat,
                self.nend_bits as nat,
            ),
        }
    }
}

/// The number of bits of `v`: `floor(log2(v)) + 1`, and 0 for 0.
pub fn ec_ilog(v: u32) -> (r: u32)
    ensures
        r == radix::bit_len(v as nat),
        r <= 32,
{
    broadcast use vstd::std_specs::bits::axiom_u32_leading_zeros;

    if v == 0 {
        0
    } else {
        let z: u32 = v.leading_zeros();
        proof {
            let top = (31 - z) as u32;
            let x = v >> top;
            assert(x & 1 != 0 ==> x != 0) by (bit_vector);
            lemma_u32_shr_is_div(v, top);
            lemma_pow2_pos(top as nat);
            if pow2(top as nat) > v {
                lemma_small_div(v as nat, pow2(top as nat));
            }
            if z == 0 {
                lemma2_to64();
            } else {
                let n = (32 - z) as u32;
                lemma_u32_shr_is_div(v, n);
                lemma_pow2_pos(n as nat);
                if v >= pow2(n as nat) {
                    lemma_div_is_ordered(pow2(n as nat) as int, v as int, pow2(n as nat) as int);
                    lemma_div_by_self(pow2(n as nat) as int);
                }
            }
            radix::lemma_bit_len_unique(v as nat, (32 - z) as nat);
        }
        32 - z
    }
}

/// A number below its divisor has quotient 0.
proof fn lemma_small_div(v: nat, d: nat)
    requires
        v < d,
    ensures
        v / d == 0,
{
    lemma_basic_div(v as int, d as int);
}

impl RangeEncoder {
    /// All digits settled so far, with those held back for a carry.
    spec fn front(&self) -> Seq<u8> {
        radix::pad(
            if self.rem >= 0 {
                self.buf@.push(self.rem as u8)
            } else {
                self.buf@
            },
            0xFF,
            self.ext as nat,
        )
    }

    /// What holds between the steps of a renormalisation.
    spec fn settled(&self) -> bool {
        &&& 0 < self.rng <= EC_CODE_TOP
        &&& self.val + self.rng < 0x1_0000_0000
        &&& -1 <= self.rem <= 255
        &&& (self.rem == -1 || self.rem == 255) ==> self.val + self.rng <= EC_CODE_TOP
        &&& self.nend_bits < 8
        &&& self.end_window < pow2(self.nend_bits as nat)
    }

    /// The encoder's invariant.
    pub closed spec fn wf(&self) -> bool {
        &&& self.settled()
        &&& self.rng > EC_CODE_BOT
        &&& self@.valid()
    }

    /// The held-back bytes are counted in 32 bits; there is room for `n` more
    /// symbols.
    pub open spec fn room(&self, n: nat) -> bool {
        self@.digits + 3 * n + 1 <= u32::MAX
    }

    /// A well-formed encoder has a valid interval.
    pub proof fn lemma_wf_valid(&self)
        requires
            self.wf(),
        ensures
            self@.valid(),
    {
    }

    /// Hand one digit to the carry buffer. A digit of 256 or more carries one
    /// into the bytes held back.
    fn carry_out(&mut self, c: u32)
        requires
            c <= 511,
            -1 <= old(self).rem <= 255,
            c >= 256 ==> 0 <= old(self).rem <= 254,
            old(self).ext < u32::MAX,
        ensures
            radix::be_value(final(self).front()) == radix::be_value(old(self).front()) * 256 + c,
            final(self).front().len() == old(self).front().len() + 1,
            final(self).rem == (if c == 255 {
                old(self).rem
            } else {
                (c % 256) as i32
            }),
            c != 255 ==> final(self).ext == 0 && final(self).buf@.len() == old(self).front().len(),
            c < 255 ==> final(self).buf@ == old(self).front(),
            c == 255 ==> final(self).ext == old(self).ext + 1,
            final(self).rng == old(self).rng,
            final(self).val == old(self).val,
            final(self).end_window == old(self).end_window,
            final(self).nend_bits == old(self).nend_bits,
            final(self).end_buf == old(self).end_buf,
    {
        let ghost front = self.front();
        let ghost base = if self.rem >= 0 {
            self.buf@.push(self.rem as u8)
        } else {
            self.buf@
        };
        if c != EC_SYM_MAX {
            assert(c >> 8 == c / 256 && c & 0xFF == c % 256) by (bit_vector);
            let carry: u8 = (c >> EC_SYM_BITS) as u8;
            let ghost buf0 = self.buf@;
            if self.rem >= 0 {
                self.buf.push(self.rem as u8 + carry);
            }
            let ghost carried = self.buf@;
            proof {
                if carry == 1 {
                    radix::lemma_be_value_push(buf0, self.rem as u8);
                    radix::lemma_be_value_push(buf0, (self.rem as u8 + 1) as u8);
                    radix::lemma_carry_through_run(base, carried, self.ext as nat);
                }
            }
            let v: u8 = if carry == 1 {
                0
            } else {
                0xFF
            };
            let mut n: u32 = 0;
            while n < self.ext
                invariant
                    n <= self.ext,
                    self.buf@ == radix::pad(carried, v, n as nat),
                    self.ext == old(self).ext,
                    self.rem == old(self).rem,
                    self.rng == old(self).rng,
                    self.val == old(self).val,
                    self.end_window == old(self).end_window,
                    self.nend_bits == old(self).nend_bits,
                    self.end_buf == old(self).end_buf,
                decreases self.ext - n,
            {
                self.buf.push(v);
                n = n + 1;
            }
            self.ext = 0;
            self.rem = (c & EC_SYM_MAX) as i32;
            proof {
                radix::lemma_pad_len(carried, v, n as nat);
                radix::lemma_pad_len(base, 255, n as nat);
                radix::lemma_be_value_push(self.buf@, (c % 256) as u8);
            }
        } else {
            self.ext = self.ext + 1;
            proof {
                radix::lemma_be_value_push(front, 255);
            }
        }
    }

    /// Move the top digit of `v` to the carry buffer and return what is left,
    /// scaled up.
    fn shift_out(&mut self, v: u32) -> (rest: u32)
        requires
            -1 <= old(self).rem <= 255,
            old(self).rem == -1 || old(self).rem == 255 ==> v < EC_CODE_TOP,
            old(self).ext < u32::MAX,
        ensures
            radix::be_value(final(self).front()) * EC_CODE_TOP + rest == (radix::be_value(
                old(self).front(),
            ) * EC_CODE_TOP + v) * 256,
            final(self).front().len() == old(self).front().len() + 1,
            rest == (v % EC_CODE_BOT) * 256,
            final(self).rem == (if v / EC_CODE_BOT == 255 {
                old(self).rem
            } else {
                ((v / EC_CODE_BOT) % 256) as i32
            }),
            final(self).rng == old(self).rng,
            final(self).val == old(self).val,
            final(self).end_window == old(self).end_window,
            final(self).nend_bits == old(self).nend_bits,
            final(self).end_buf == old(self).end_buf,
            final(self).rem >= 0 || final(self).ext > 0,
    {
        assert(v >> 23 == v / 0x80_0000 && (v << 8) & 0x7fff_ffff == (v % 0x80_0000) * 256)
            by (bit_vector);
        self.carry_out(v >> EC_CODE_SHIFT);
        (v << EC_SYM_BITS) & (EC_CODE_TOP - 1)
    }

    /// No more bytes are held back than have been settled.
    proof fn lemma_ext_bound(&self)
        ensures
            self.ext <= self.front().len(),
    {
        radix::lemma_pad_len(
            if self.rem >= 0 {
                self.buf@.push(self.rem as u8)
            } else {
                self.buf@
            },
            0xFF,
            self.ext as nat,
        );
    }

    /// Scale the interval up until it is wide enough for the next symbol.
    fn enc_normalize(&mut self)
        requires
            old(self).settled(),
            old(self)@.digits + 4 <= u32::MAX,
            old(self)@.low + old(self)@.rng <= EC_CODE_TOP * radix::pow256(old(self)@.digits),
        ensures
            final(self).wf(),
            final(self)@ == old(self)@.renormalized(),
            final(self)@.digits <= old(self)@.digits + 3,
            final(self)@.raw == old(self)@.raw,
    {
        let ghost start = self@;
        while self.rng <= EC_CODE_BOT
            invariant
                self.settled(),
                self@.renormalized() == start.renormalized(),
                self.end_window == old(self).end_window,
                self.nend_bits == old(self).nend_bits,
                self.end_buf == old(self).end_buf,
                start.digits + 4 <= u32::MAX,
                start.rng > 0,
                start.digits <= self@.digits <= start.digits + 3,
                self@.digits == start.digits + 1 ==> self.rng >= 0x100,
                self@.digits == start.digits + 2 ==> self.rng >= 0x1_0000,
                self@.digits == start.digits + 3 ==> self.rng >= 0x100_0000,
            decreases EC_CODE_TOP - self.rng,
        {
            let ghost before = self@;
            proof {
                self.lemma_ext_bound();
            }
            let v: u32 = self.val;
            let rest: u32 = self.shift_out(v);
            self.val = rest;
            let r: u32 = self.rng;
            assert(r <= 0x80_0000 ==> r << 8 == r * 256) by (bit_vector);
            self.rng = self.rng << EC_SYM_BITS;
            proof {
                assert(self@ =~= Coder {
                    low: before.low * 256,
                    digits: before.digits + 1,
                    rng: before.rng * 256,
                    raw: before.raw,
                });
                assert(before.renormalized() == self@.renormalized());
            }
        }
        proof {
            crate::range_model::lemma_renormalized(start);
        }
    }

    /// A new encoder with nothing written.
    pub fn new() -> (r: Self)
        ensures
            r.wf(),
            r@ == Coder::start(),
    {
        let r = RangeEncoder {
            buf: Vec::new(),
            rng: EC_CODE_TOP,
            val: 0,
            ext: 0,
            rem: -1,
            end_window: 0,
            nend_bits: 0,
            end_buf: Vec::new(),
        };
        proof {
            lemma2_to64();
            assert(r.front() =~= Seq::empty());
            assert(r@ =~= Coder::start());
        }
        r
    }

    /// Keep the `width` numbers that start `skip` above the low end of the
    /// interval.
    fn narrow(&mut self, skip: u32, width: u32)
        requires
            old(self).wf(),
            old(self).room(1),
            width > 0,
            skip + width <= old(self)@.rng,
        ensures
            final(self).wf(),
            final(self)@ == old(self)@.narrowed(skip as nat, width as nat).renormalized(),
            final(self)@.digits <= old(self)@.digits + 3,
            final(self)@.raw == old(self)@.raw,
    {
        let ghost c = self@;
        self.val = self.val + skip;
        self.rng = width;
        proof {
            assert(self@ =~= c.narrowed(skip as nat, width as nat));
        }
        self.enc_normalize();
    }

    /// Code the symbol with frequencies `[fl, fh)` out of `ft`.
    pub fn encode(&mut self, fl: u32, fh: u32, ft: u32)
        requires
            old(self).wf(),
            old(self).room(1),
            old(self)@.codes(fl as nat, fh as nat, ft as nat),
        ensures
            final(self).wf(),
            final(self)@ == old(self)@.symbol(fl as nat, fh as nat, ft as nat),
            final(self)@.digits <= old(self)@.digits + 3,
            final(self)@.raw == old(self)@.raw,
    {
        proof {
            crate::range_model::lemma_symbol_fits(self@, fl as nat, fh as nat, ft as nat);
        }
        let r: u32 = self.rng / ft;
        if fl > 0 {
            proof {
                lemma_part_order(r as int, ft - fh, fh - fl, ft - fl);
            }
            self.narrow(self.rng - r * (ft - fl), r * (fh - fl));
        } else {
            self.narrow(0, self.rng - r * (ft - fh));
        }
    }

    /// Code the symbol with frequencies `[fl, fh)` out of `2^bits`.
    pub fn encode_bin(&mut self, fl: u32, fh: u32, bits: u32)
        requires
            old(self).wf(),
            old(self).room(1),
            bits < 32,
            old(self)@.codes(fl as nat, fh as nat, pow2(bits as nat)),
        ensures
            final(self).wf(),
            final(self)@ == old(self)@.symbol(fl as nat, fh as nat, pow2(bits as nat)),
            final(self)@.digits <= old(self)@.digits + 3,
            final(self)@.raw == old(self)@.raw,
    {
        proof {
            lemma_pow2_shift(bits);
            lemma_u32_shr_is_div(self.rng, bits);
            crate::range_model::lemma_symbol_fits(self@, fl as nat, fh as nat, pow2(bits as nat));
        }
        let r: u32 = self.rng >> bits;
        let ft: u32 = 1u32 << bits;
        if fl > 0 {
            proof {
                lemma_part_order(r as int, ft - fh, fh - fl, ft - fl);
            }
            self.narrow(self.rng - r * (ft - fl), r * (fh - fl));
        } else {
            self.narrow(0, self.rng - r * (ft - fh));
        }
    }

    /// Code a bit that is `true` with probability `2^-logp`: `true` keeps the
    /// top of the interval, `false` the part below it.
    pub fn enc_bit_logp(&mut self, value: bool, logp: u32)
        requires
            old(self).wf(),
            old(self).room(1),
            logp < 32,
            old(self)@.bit_width(value, logp as nat) > 0,
        ensures
            final(self).wf(),
            final(self)@ == old(self)@.bit(value, logp as nat),
            final(self)@.digits <= old(self)@.digits + 3,
            final(self)@.raw == old(self)@.raw,
    {
        let r: u32 = self.rng;
        let s: u32 = r >> logp;
        proof {
            lemma_u32_shr_is_div(r, logp);
            lemma_pow2_pos(logp as nat);
            lemma_div_nonincreasing(r as int, pow2(logp as nat) as int);
        }
        if value {
            self.narrow(r - s, s);
        } else {
            self.narrow(0, r - s);
        }
    }

    /// Code symbol `s` of a top-cumulative inverse table: `icdf[s]` is the mass
    /// above symbol `s` in units of `2^-ftb`.
    pub fn enc_icdf(&mut self, s: usize, icdf: &[u8], ftb: u32)
        requires
            old(self).wf(),
            old(self).room(1),
            ftb < 32,
            old(self)@.codes_icdf(s as int, icdf@, ftb as nat),
        ensures
            final(self).wf(),
            final(self)@ == old(self)@.icdf(s as int, icdf@, ftb as nat),
            final(self)@.digits <= old(self)@.digits + 3,
            final(self)@.raw == old(self)@.raw,
    {
        let r: u32 = self.rng >> ftb;
        proof {
            lemma_u32_shr_is_div(self.rng, ftb);
            lemma_pow2_shift(ftb);
        }
        if s > 0 {
            let above: u32 = icdf[s - 1] as u32;
            let below: u32 = icdf[s] as u32;
            proof {
                lemma_part_fits(self.rng as nat, pow2(ftb as nat), above as nat);
                lemma_part_order(r as int, below as int, above - below, above as int);
            }
            self.narrow(self.rng - r * above, r * (above - below));
        } else {
            proof {
                lemma_part_fits(self.rng as nat, pow2(ftb as nat), icdf[0] as nat);
            }
            self.narrow(0, self.rng - r * icdf[s] as u32);
        }
    }

    /// Append the `bits` low bits of `fval` to the raw bits at the back of the
    /// packet.
    pub fn enc_bits(&mut self, fval: u32, bits: u32)
        requires
            old(self).wf(),
            bits <= 25,
        ensures
            final(self).wf(),
            final(self)@ == old(self)@.raw_bits(fval as nat, bits as nat),
    {
        let ghost c = self@;
        let n: u32 = self.nend_bits;
        let w: u32 = self.end_window;
        proof {
            lemma_pow2_shift(bits);
            lemma_pow2_shift(n);
        }
        let f: u32 = fval & ((1u32 << bits) - 1);
        proof {
            lemma_u32_low_bits_mask_is_mod(fval, bits as nat);
            bits::lemma_value_bits_mod(fval as nat, bits as nat);
            lemma_pow2_strictly_increases_or_equal(bits as nat, 25);
            lemma2_to64();
            let sh = f << n;
            assert(f < 0x200_0000 && n < 8 ==> sh == f * (1u32 << n) && (w < (1u32 << n) ==> w | sh
                == w + sh)) by (bit_vector)
                requires
                    sh == f << n,
            ;
            bits::lemma_value_bits_concat(w as nat, n as nat, f as nat, bits as nat);
            lemma_pow2_adds(n as nat, bits as nat);
            lemma_combine_bound(w as nat, f as nat, pow2(n as nat), pow2(bits as nat));
        }
        self.end_window = w | (f << n);
        self.nend_bits = n + bits;
        while self.nend_bits >= EC_SYM_BITS
            invariant
                self.nend_bits <= 32,
                self.end_window < pow2(self.nend_bits as nat),
                bits::bytes_bits(self.end_buf@) + bits::value_bits(
                    self.end_window as nat,
                    self.nend_bits as nat,
                ) == c.raw + bits::value_bits(fval as nat, bits as nat),
                self.rng == old(self).rng,
                self.val == old(self).val,
                self.buf == old(self).buf,
                self.rem == old(self).rem,
                self.ext == old(self).ext,
            decreases self.nend_bits,
        {
            let x: u32 = self.end_window;
            let ghost m = (self.nend_bits - 8) as nat;
            let ghost done = self.end_buf@;
            assert(x & 0xFF == x % 256 && x >> 8 == x / 256) by (bit_vector);
            self.end_buf.push((x & EC_SYM_MAX) as u8);
            self.end_window = x >> EC_SYM_BITS;
            self.nend_bits = self.nend_bits - EC_SYM_BITS;
            proof {
                lemma2_to64();
                bits::lemma_value_bits_split(x as nat, 8, m);
                bits::lemma_value_bits_mod(x as nat, 8);
                bits::lemma_bytes_bits_push(done, (x % 256) as u8);
                lemma_pow2_adds(8, m);
                assert(bits::bytes_bits(self.end_buf@) + bits::value_bits(x as nat / 256, m)
                    =~= bits::bytes_bits(done) + bits::value_bits(x as nat, 8 + m));
            }
        }
        proof {
            assert(self@ =~= c.raw_bits(fval as nat, bits as nat));
        }
    }

    /// Code `fl` as one of the `ft` equally likely integers `0..ft`.
    pub fn enc_uint(&mut self, fl: u32, ft: u32)
        requires
            old(self).wf(),
            old(self).room(1),
            fl < ft,
            ft > 1,
        ensures
            final(self).wf(),
            final(self)@ == old(self)@.uint(fl as nat, ft as nat),
            final(self)@.digits <= old(self)@.digits + 3,
            final(self)@.raw.len() <= old(self)@.raw.len() + 24,
    {
        let ftm1: u32 = ft - 1;
        let ftb: u32 = ec_ilog(ftm1);
        proof {
            radix::lemma_bit_len_bounds(ftm1 as nat);
        }
        if ftb > EC_UINT_BITS {
            let ftb2: u32 = ftb - EC_UINT_BITS;
            proof {
                lemma_u32_shr_is_div(ftm1, ftb2);
                lemma_u32_shr_is_div(fl, ftb2);
                lemma_top_bits(ftm1 as nat, fl as nat, ftb as nat, ftb2 as nat);
                lemma_pow2_shift(ftb2);
                lemma_u32_low_bits_mask_is_mod(fl, ftb2 as nat);
                bits::lemma_value_bits_mod(fl as nat, ftb2 as nat);
            }
            let ft_hi: u32 = (ftm1 >> ftb2) + 1;
            let fl_hi: u32 = fl >> ftb2;
            proof {
                crate::range_model::lemma_small_total_codes(
                    self@,
                    fl_hi as nat,
                    (fl_hi + 1) as nat,
                    ft_hi as nat,
                );
            }
            self.encode(fl_hi, fl_hi + 1, ft_hi);
            self.enc_bits(fl & ((1u32 << ftb2) - 1), ftb2);
        } else {
            proof {
                lemma_pow2_strictly_increases_or_equal(ftb as nat, 8);
                lemma2_to64();
                crate::range_model::lemma_small_total_codes(
                    self@,
                    fl as nat,
                    (fl + 1) as nat,
                    ft as nat,
                );
            }
            self.encode(fl, fl + 1, ftm1 + 1);
        }
    }

    /// The number of bits used so far, raw bits included.
    pub fn tell(&self) -> (r: i32)
        requires
            self.wf(),
            self@.used() <= i32::MAX,
        ensures
            r == self@.tell(),
            1 <= r <= self@.used(),
    {
        let used: u32 = self.whole_bits();
        used as i32 - ec_ilog(self.rng) as i32
    }

    /// The number of bits used so far in eighths of a bit.
    pub fn tell_frac(&self) -> (r: i32)
        requires
            self.wf(),
            8 * self@.used() <= i32::MAX,
        ensures
            r == self@.tell_frac(),
            0 <= r <= 8 * self@.used(),
    {
        let used: u32 = self.whole_bits();
        let l: u32 = ec_ilog(self.rng);
        proof {
            lemma2_to64();
            radix::lemma_bit_len_bounds(self.rng as nat);
            lemma_wide_bit_len(self.rng as nat);
            lemma_u32_shr_is_div(self.rng, (l - 16) as u32);
            lemma_top_sixteen(self.rng as nat, l as nat);
        }
        let r: u32 = self.rng >> (l - 16);
        let b: u32 = r / 4096 - 8;
        let step: u32 = if r > LOG2_CORRECTION[b as usize] {
            b + 1
        } else {
            b
        };
        (8 * used) as i32 - (8 * l + step) as i32
    }

    /// All bits settled so far, plus the 33 that a fresh interval stands for.
    fn whole_bits(&self) -> (r: u32)
        requires
            self.wf(),
            self@.used() <= i32::MAX,
        ensures
            r == self@.used(),
    {
        proof {
            radix::lemma_pad_len(
                if self.rem >= 0 {
                    self.buf@.push(self.rem as u8)
                } else {
                    self.buf@
                },
                0xFF,
                self.ext as nat,
            );
        }
        let held: u32 = if self.rem >= 0 {
            1
        } else {
            0
        };
        let digits: u32 = self.buf.len() as u32 + held + self.ext;
        let raw: u32 = 8 * self.end_buf.len() as u32 + self.nend_bits;
        33 + 8 * digits + raw
    }

    /// The width of the interval; a decoder that read the same symbols has the
    /// same.
    pub fn final_range(&self) -> (r: u32)
        ensures
            r == self@.rng,
    {
        self.rng
    }

    /// Code `val` as one of `n` equally likely integers; nothing is written for
    /// `n` up to 1.
    pub fn encode_uint(&mut self, val: u32, n: u32)
        requires
            old(self).wf(),
            old(self).room(1),
            n > 1 ==> val < n,
        ensures
            final(self).wf(),
            final(self)@ == (if n > 1 {
                old(self)@.uint(val as nat, n as nat)
            } else {
                old(self)@
            }),
            final(self)@.digits <= old(self)@.digits + 3,
            final(self)@.raw.len() <= old(self)@.raw.len() + 24,
    {
        if n <= 1 {
            return;
        }
        self.enc_uint(val, n);
    }

    /// Code `fl` as one of `ft` equally likely integers, where `ft` may exceed
    /// 32 bits; nothing is written for `ft` up to 1.
    pub fn enc_uint_u64(&mut self, fl: u64, ft: u64)
        requires
            old(self).wf(),
            old(self).room(1),
            ft > 1 ==> fl < ft,
        ensures
            final(self).wf(),
            final(self)@ == (if ft > 1 {
                old(self)@.uint(fl as nat, ft as nat)
            } else {
                old(self)@
            }),
            final(self)@.digits <= old(self)@.digits + 3,
            final(self)@.raw.len() <= old(self)@.raw.len() + 56,
    {
        if ft <= 1 {
            return;
        }
        if ft <= u32::MAX as u64 {
            self.enc_uint(fl as u32, ft as u32);
            return;
        }
        let ftm1: u64 = ft - 1;
        let ftb: u32 = ec_ilog64(ftm1);
        proof {
            lemma2_to64();
            radix::lemma_bit_len_bounds(ftm1 as nat);
            if ftb <= 31 {
                lemma_pow2_strictly_increases_or_equal(ftb as nat, 31);
            }
        }
        let ftb2: u32 = ftb - EC_UINT_BITS;
        proof {
            lemma_u64_shr_is_div(ftm1, ftb2 as u64);
            lemma_u64_shr_is_div(fl, ftb2 as u64);
            lemma_top_bits(ftm1 as nat, fl as nat, ftb as nat, ftb2 as nat);
            lemma_pow2_shift64(ftb2 as u64);
            lemma_u64_low_bits_mask_is_mod(fl, ftb2 as nat);
            bits::lemma_value_bits_mod(fl as nat, ftb2 as nat);
        }
        let ft_hi: u32 = (ftm1 >> ftb2) as u32 + 1;
        let fl_hi: u32 = (fl >> ftb2) as u32;
        proof {
            crate::range_model::lemma_small_total_codes(
                self@,
                fl_hi as nat,
                (fl_hi + 1) as nat,
                ft_hi as nat,
            );
        }
        self.encode(fl_hi, fl_hi + 1, ft_hi);
        let ghost c = self@;
        let mut low: u64 = fl & ((1u64 << ftb2) - 1);
        let mut bits_left: u32 = ftb2;
        let ghost mut written: Seq<bool> = Seq::empty();
        while bits_left > 0
            invariant
                self.wf(),
                bits_left <= 56,
                written + bits::value_bits(low as nat, bits_left as nat) == bits::value_bits(
                    fl as nat,
                    ftb2 as nat,
                ),
                self@.raw == c.raw + written,
                self@.low == c.low,
                self@.digits == c.digits,
                self@.rng == c.rng,
            decreases bits_left,
        {
            let chunk: u32 = if bits_left < 25 {
                bits_left
            } else {
                25
            };
            proof {
                lemma_pow2_shift64(chunk as u64);
                lemma_u64_low_bits_mask_is_mod(low, chunk as nat);
                lemma_u64_shr_is_div(low, chunk as u64);
                bits::lemma_value_bits_mod(low as nat, chunk as nat);
                bits::lemma_value_bits_split(low as nat, chunk as nat, (bits_left - chunk) as nat);
                lemma_pow2_strictly_increases_or_equal(chunk as nat, 25);
                lemma2_to64();
            }
            let ghost before = low as nat;
            self.enc_bits((low & ((1u64 << chunk) - 1)) as u32, chunk);
            low = low >> chunk;
            proof {
                let piece = bits::value_bits(before, chunk as nat);
                assert(written + piece + bits::value_bits(low as nat, (bits_left - chunk) as nat)
                    =~= written + bits::value_bits(before, bits_left as nat));
                assert(c.raw + written + piece =~= c.raw + (written + piece));
                written = written + piece;
            }
            bits_left = bits_left - chunk;
        }
        proof {
            assert(written + bits::value_bits(low as nat, 0) =~= written);
            assert(self@ =~= c.raw_bits(fl as nat, ftb2 as nat));
        }
    }

    /// Append the `bits` low bits of `val` to the raw bits.
    pub fn encode_bits_raw(&mut self, val: u32, bits: u32)
        requires
            old(self).wf(),
            bits <= 25,
        ensures
            final(self).wf(),
            final(self)@ == old(self)@.raw_bits(val as nat, bits as nat),
    {
        if bits == 0 {
            proof {
                assert(self@.raw_bits(val as nat, 0) =~= self@);
            }
            return;
        }
        self.enc_bits(val, bits);
    }

    /// Code symbol `s` of a top-cumulative inverse table with total
    /// `2^ft_bits`.
    pub fn encode_icdf(&mut self, s: u32, icdf: &[u8], ft_bits: u8)
        requires
            old(self).wf(),
            old(self).room(1),
            ft_bits < 32,
            old(self)@.codes_icdf(s as int, icdf@, ft_bits as nat),
        ensures
            final(self).wf(),
            final(self)@ == old(self)@.icdf(s as int, icdf@, ft_bits as nat),
            final(self)@.digits <= old(self)@.digits + 3,
            final(self)@.raw == old(self)@.raw,
    {
        self.enc_icdf(s as usize, icdf, ft_bits as u32);
    }

    /// The point that stands for the whole message, without the digits already
    /// out, and how many of its bits have to be written.
    fn tail_point(&self) -> (r: (u32, u32))
        requires
            self.wf(),
        ensures
            r.0 + radix::be_value(self.front()) * EC_CODE_TOP == self@.tail_point(),
            r.1 <= 9,
            pow2((31 - r.1) as nat) == self@.tail_step(),
            r.0 + pow2((31 - r.1) as nat) <= self.val + self.rng,
    {
        let ghost bytes = radix::be_value(self.front());
        let n: u32 = ec_ilog(self.rng);
        let l: u32 = EC_CODE_BITS - n;
        proof {
            lemma2_to64();
            radix::lemma_bit_len_bounds(self.rng as nat);
            lemma_wide_bit_len(self.rng as nat);
            lemma_pow2_strictly_increases_or_equal((n - 1) as nat, 31);
            lemma_top_mask(l);
            lemma_tail_round(bytes, self.val as nat, (31 - l) as nat);
        }
        let msk: u32 = (EC_CODE_TOP - 1) >> l;
        let end: u32 = round_up_mask(self.val, msk, Ghost((31 - l) as nat));
        if end + msk < self.val + self.rng {
            (end, l)
        } else {
            proof {
                lemma_pow2_unfold((31 - l) as nat);
                lemma_pow2_pos((30 - l) as nat);
                lemma_tail_round(bytes, self.val as nat, (30 - l) as nat);
                radix::lemma_round_up(self.val as nat, pow2((30 - l) as nat));
                assert(msk >> 1 == msk / 2) by (bit_vector);
            }
            (round_up_mask(self.val, msk >> 1, Ghost((30 - l) as nat)), l + 1)
        }
    }

    /// Write the `l` top bits of `end` behind the digits already out, as whole
    /// bytes, and settle all digits.
    fn flush(&mut self, end: u32, l: u32)
        requires
            l <= 9,
            -1 <= old(self).rem <= 255,
            old(self).rem == -1 || old(self).rem == 255 ==> end < EC_CODE_TOP,
            l == 0 ==> end < EC_CODE_TOP,
            (radix::be_value(old(self).front()) * EC_CODE_TOP + end) % pow2((31 - l) as nat) as int
                == 0,
            old(self).front().len() + 4 <= u32::MAX,
        ensures
            final(self).buf@ == radix::be_digits(
                ((radix::be_value(old(self).front()) * EC_CODE_TOP + end) as nat) / pow2(
                    (31 - 8 * ((l + 7) / 8)) as nat,
                ),
                old(self).front().len() + ((l + 7) / 8) as nat,
            ),
            final(self).nend_bits == old(self).nend_bits,
            final(self).end_window == old(self).end_window,
            final(self).end_buf == old(self).end_buf,
    {
        let ghost digits = self.front().len();
        let ghost point = (radix::be_value(self.front()) * EC_CODE_TOP + end) as nat;
        let ghost mut i: nat = 0;
        let mut end: u32 = end;
        let mut left: u32 = l;
        proof {
            assert(radix::pow256(0) == 1);
            lemma_mul_basics(point as int);
        }
        while left > 0
            invariant
                l <= 9,
                left == 0 || left + 8 * i == l,
                left == 0 ==> i == (l + 7) / 8,
                i <= 2,
                radix::be_value(self.front()) * EC_CODE_TOP + end == point * radix::pow256(i),
                self.front().len() == digits + i,
                left == 0 ==> end < EC_CODE_TOP,
                digits + 4 <= u32::MAX,
                -1 <= self.rem <= 255,
                self.rem == -1 || self.rem == 255 ==> end < EC_CODE_TOP,
                self.nend_bits == old(self).nend_bits,
                self.end_window == old(self).end_window,
                self.end_buf == old(self).end_buf,
            decreases left,
        {
            proof {
                self.lemma_ext_bound();
                lemma_mul_is_associative(point as int, radix::pow256(i) as int, 256);
                lemma_mul_is_commutative(radix::pow256(i) as int, 256);
                assert(radix::pow256(i + 1) == 256 * radix::pow256(i));
            }
            end = self.shift_out(end);
            proof {
                i = i + 1;
            }
            left = if left > EC_SYM_BITS {
                left - EC_SYM_BITS
            } else {
                0
            };
        }
        proof {
            lemma_tail_digits(point, l as nat, i, radix::be_value(self.front()), end as nat);
            radix::lemma_be_digits_of_value(self.front());
            self.lemma_ext_bound();
        }
        let ghost front = self.front();
        if self.rem >= 0 || self.ext > 0 {
            self.carry_out(0);
        }
        assert(self.buf@ == front);
    }

    /// Settle the interval and return the range bytes, the raw bytes and how
    /// many bits of the last range byte are open.
    fn close(self) -> (r: (Vec<u8>, Vec<u8>, u32))
        requires
            self.wf(),
            self.room(1),
        ensures
            r.0@ == self@.range_bytes(),
            r.1@ == self@.raw_bytes(),
            r.2 == self@.spare_bits(),
    {
        let mut enc = self;
        let ghost c = enc@;
        let (end, l) = enc.tail_point();
        proof {
            lemma2_to64();
            lemma_pow2_pos((31 - l) as nat);
            lemma_pow2_bit_len((31 - l) as nat);
            radix::lemma_round_up(c.low, c.tail_step());
        }
        enc.flush(end, l);
        let mut tail: Vec<u8> = Vec::new();
        if enc.nend_bits > 0 {
            tail.push(enc.end_window as u8);
        }
        proof {
            lemma_pow2_strictly_increases_or_equal(self.nend_bits as nat, 7);
            bits::lemma_pack_window(self.end_window as nat, self.nend_bits as nat);
            bits::lemma_pack_bits_concat(
                self.end_buf@,
                bits::value_bits(self.end_window as nat, self.nend_bits as nat),
            );
        }
        let ghost window = tail@;
        let mut k: usize = enc.end_buf.len();
        while k > 0
            invariant
                k <= enc.end_buf@.len(),
                window.len() <= 1,
                tail@ == window + enc.end_buf@.skip(k as int).reverse(),
            decreases k,
        {
            k = k - 1;
            tail.push(enc.end_buf[k]);
            proof {
                assert(enc.end_buf@.skip(k as int).reverse() =~= enc.end_buf@.skip(
                    k + 1,
                ).reverse().push(enc.end_buf@[k as int]));
            }
        }
        proof {
            assert(enc.end_buf@.skip(0) =~= enc.end_buf@);
            assert(tail@ =~= c.raw_bytes());
        }
        (enc.buf, tail, 8 * ((l + 7) / 8) - l)
    }

    /// Settle everything and return the packet: range bytes first, raw bits
    /// from the back.
    pub fn finish(self) -> (r: Vec<u8>)
        requires
            self.wf(),
            self.room(1),
        ensures
            r@ == self@.packet(),
    {
        let (mut out, mut tail, _) = self.close();
        out.append(&mut tail);
        out
    }

    /// Like [`finish`](Self::finish), for a frame of `size` bytes: there are
    /// zero bytes between the two parts where the packet is shorter, and where
    /// it is longer by a byte the two parts share one if they can.
    pub fn finish_to_size(self, size: usize) -> (r: Vec<u8>)
        requires
            self.wf(),
            self.room(1),
        ensures
            r@ == self@.packet_of_size(size as nat),
    {
        let ghost c = self@;
        let loose: u32 = self.nend_bits;
        proof {
            self.lemma_wf_valid();
            assert(c.raw.len() % 8 == loose);
        }
        let (mut out, mut tail, spare) = self.close();
        if 0 < loose && loose <= spare {
            proof {
                let f = crate::range_model::lemma_last_range_byte(c);
                crate::range_laws::lemma_first_raw_byte(c);
                if loose < spare {
                    lemma_pow2_strictly_increases(loose as nat, spare as nat);
                }
            }
            let front: usize = out.len() - 1;
            if tail.len() <= size && size - tail.len() == front {
                let last: u8 = out[front];
                out.set(front, last + tail[0]);
                let mut i: usize = 1;
                let ghost merged = out@;
                while i < tail.len()
                    invariant
                        1 <= i <= tail@.len(),
                        out@ == merged + tail@.subrange(1, i as int),
                    decreases tail@.len() - i,
                {
                    out.push(tail[i]);
                    i = i + 1;
                }
                proof {
                    assert(c.overlaps(size as nat));
                    assert(out@ =~= c.packet_of_size(size as nat));
                }
                return out;
            }
        }
        let ghost used = (out@.len() + tail@.len()) as nat;
        let ghost front = out@;
        while out.len() < size && size - out.len() > tail.len()
            invariant
                front.len() <= out@.len(),
                used == front.len() + tail@.len(),
                out@ == front + Seq::new((out@.len() - front.len()) as nat, |i: int| 0u8),
                out@.len() > front.len() ==> out@.len() + tail@.len() <= size,
            decreases size - out@.len(),
        {
            out.push(0);
        }
        out.append(&mut tail);
        out
    }
}

/// The least number not below `v` whose bits under the mask are zero.
fn round_up_mask(v: u32, msk: u32, Ghost(k): Ghost<nat>) -> (r: u32)
    requires
        k < 32,
        msk == pow2(k) - 1,
        v + msk <= u32::MAX,
    ensures
        r == radix::round_up(v as nat, pow2(k)),
        r + msk <= u32::MAX,
{
    let x: u32 = v + msk;
    proof {
        lemma_pow2_pos(k);
        lemma_u32_low_bits_mask_is_mod(x, k);
        radix::lemma_round_up(v as nat, pow2(k));
        lemma_u32_pow2_no_overflow(k);
        assert(x & !msk == x - (x & msk) && (x & !msk) + msk == (x & !msk) | msk) by (bit_vector);
    }
    x & !msk
}

/// The number of bits of `v`, 0 for 0.
fn ec_ilog64(v: u64) -> (r: u32)
    ensures
        r == radix::bit_len(v as nat),
        r <= 64,
{
    let hi: u32 = (v >> 32) as u32;
    proof {
        lemma2_to64();
        lemma2_to64_rest();
        lemma_u64_shr_is_div(v, 32);
    }
    if hi > 0 {
        proof {
            let h = radix::bit_len(hi as nat);
            radix::lemma_bit_len_bounds(hi as nat);
            lemma_pow2_adds((h - 1) as nat, 32);
            lemma_pow2_adds(h, 32);
            radix::lemma_bit_len_unique(v as nat, h + 32);
        }
        32 + ec_ilog(hi)
    } else {
        ec_ilog(v as u32)
    }
}


/// `r * a` and `r * b` add up to `r * (a + b)`, and none is negative.
proof fn lemma_part_order(r: int, a: int, b: int, sum: int)
    requires
        0 <= r,
        0 <= a,
        0 <= b,
        sum == a + b,
    ensures
        r * a + r * b == r * sum,
        0 <= r * a,
        0 <= r * b,
{
    lemma_mul_is_distributive_add(r, a, b);
    lemma_mul_nonnegative(r, a);
    lemma_mul_nonnegative(r, b);
}

/// `a` out of `ft` parts do not exceed the whole.
proof fn lemma_part_fits(rng: nat, ft: nat, a: nat)
    requires
        0 < ft,
        a <= ft,
    ensures
        (rng / ft) * a <= rng,
{
    lemma_fundamental_div_mod(rng as int, ft as int);
    let (r, m, q) = (rng as int, (rng % ft) as int, (rng / ft) as int);
    assert(q * a <= r) by (nonlinear_arith)
        requires
            r == ft * q + m,
            0 <= m,
            0 <= q,
            a <= ft,
    ;
}

/// A quotient is no larger than what is divided.
proof fn lemma_div_nonincreasing(x: int, d: int)
    requires
        0 <= x,
        0 < d,
    ensures
        0 <= x / d <= x,
{
    lemma_div_pos_is_pos(x, d);
    lemma_div_is_ordered_by_denominator(x, 1, d);
}

/// `1 << n` is `2^n`.
proof fn lemma_pow2_shift(n: u32)
    requires
        n < 32,
    ensures
        1u32 << n == pow2(n as nat),
        pow2(n as nat) > 0,
        low_bits_mask(n as nat) == (1u32 << n) - 1,
{
    lemma_pow2_pos(n as nat);
    lemma_u32_pow2_no_overflow(n as nat);
    lemma_u32_shl_is_mul(1, n);
}

proof fn lemma_pow2_strictly_increases_or_equal(a: nat, b: nat)
    requires
        a <= b,
    ensures
        pow2(a) <= pow2(b),
{
    if a < b {
        lemma_pow2_strictly_increases(a, b);
    }
}

/// A number of `n` bits above one of `m` bits is a number of `m + n` bits.
proof fn lemma_combine_bound(w: nat, f: nat, p: nat, q: nat)
    requires
        w < p,
        f < q,
    ensures
        w + f * p < p * q,
{
    assert(w + f * p < p * q) by (nonlinear_arith)
        requires
            w < p,
            f + 1 <= q,
    ;
}

/// The top eight bits of `m`, and of a number up to `m`.
proof fn lemma_top_bits(m: nat, v: nat, n: nat, low: nat)
    requires
        v <= m < pow2(n),
        n == low + 8,
    ensures
        v / pow2(low) <= m / pow2(low) < 256,
{
    lemma2_to64();
    lemma_pow2_pos(low);
    lemma_pow2_adds(low, 8);
    lemma_div_is_ordered(v as int, m as int, pow2(low) as int);
    lemma_mul_is_commutative(256, pow2(low) as int);
    lemma_multiply_divide_lt(m as int, pow2(low) as int, 256);
}

proof fn lemma_pow2_shift64(n: u64)
    requires
        n < 64,
    ensures
        1u64 << n == pow2(n as nat),
        pow2(n as nat) > 0,
        low_bits_mask(n as nat) == (1u64 << n) - 1,
{
    lemma_pow2_pos(n as nat);
    lemma_u64_pow2_no_overflow(n as nat);
    lemma_u64_shl_is_mul(1, n);
}

/// A range wider than `2^23` has 24 to 32 bits.
pub proof fn lemma_wide_bit_len(rng: nat)
    requires
        EC_CODE_BOT < rng <= EC_CODE_TOP,
    ensures
        24 <= radix::bit_len(rng) <= 32,
{
    lemma2_to64();
    radix::lemma_bit_len_bounds(rng);
    radix::lemma_bit_len_at_most(rng, 32);
    if radix::bit_len(rng) < 24 {
        lemma_pow2_strictly_increases_or_equal(radix::bit_len(rng), 23);
    }
}

/// The top sixteen bits of a number start with a one.
pub proof fn lemma_top_sixteen(v: nat, n: nat)
    requires
        n >= 16,
        pow2((n - 1) as nat) <= v < pow2(n),
    ensures
        32768 <= v / pow2((n - 16) as nat) < 65536,
{
    let d = pow2((n - 16) as nat);
    lemma2_to64();
    lemma_pow2_pos((n - 16) as nat);
    lemma_pow2_adds((n - 16) as nat, 15);
    lemma_pow2_adds((n - 16) as nat, 16);
    lemma_fundamental_div_mod(v as int, d as int);
    lemma_mod_bound(v as int, d as int);
    let (q, r) = ((v / d) as int, (v % d) as int);
    assert(32768 <= q < 65536) by (nonlinear_arith)
        requires
            v == d * q + r,
            0 <= r < d,
            d * 32768 <= v < d * 65536,
    ;
}

/// `2^31 - 1` shifted right by `l` is a mask of `31 - l` bits.
proof fn lemma_top_mask(l: u32)
    requires
        l <= 31,
    ensures
        0x7fff_ffffu32 >> l == pow2((31 - l) as nat) - 1,
{
    let k = (31 - l) as u32;
    lemma_pow2_shift(k);
    assert(l <= 31 && k == 31 - l ==> 0x7fff_ffffu32 >> l == (1u32 << k) - 1) by (bit_vector);
}

/// Rounding up to a power of two does not look at the digits above.
proof fn lemma_tail_round(bytes: nat, val: nat, k: nat)
    requires
        k <= 31,
    ensures
        radix::round_up(bytes * EC_CODE_TOP as nat + val, pow2(k)) == bytes * EC_CODE_TOP as nat
            + radix::round_up(val, pow2(k)),
{
    lemma2_to64();
    lemma_pow2_pos(k);
    lemma_pow2_adds((31 - k) as nat, k);
    let q = pow2((31 - k) as nat);
    lemma_mul_is_associative(bytes as int, q as int, pow2(k) as int);
    radix::lemma_round_up_shift(val, bytes * q, pow2(k));
}

/// `2^k` has `k + 1` bits.
proof fn lemma_pow2_bit_len(k: nat)
    ensures
        radix::bit_len(pow2(k)) == k + 1,
{
    lemma_pow2_strictly_increases(k, k + 1);
    radix::lemma_bit_len_unique(pow2(k), k + 1);
}

/// Shifting a multiple of `2^(31 - l)` left by `i` bytes, at least `l` bits,
/// moves it out completely.
proof fn lemma_tail_digits(point: nat, l: nat, i: nat, bytes: nat, end: nat)
    requires
        l <= 31,
        8 * i >= l,
        8 * i <= 31,
        point % pow2((31 - l) as nat) == 0,
        bytes * EC_CODE_TOP as nat + end == point * radix::pow256(i),
        end < EC_CODE_TOP,
    ensures
        bytes == point / pow2((31 - 8 * i) as nat),
{
    let m = pow2((31 - l) as nat);
    let d = pow2((31 - 8 * i) as nat);
    let e = pow2((8 * i - l) as nat);
    let f = radix::pow256(i);
    let q = point / m;
    lemma2_to64();
    radix::lemma_pow256_is_pow2(i);
    lemma_pow2_pos((31 - l) as nat);
    lemma_pow2_pos((31 - 8 * i) as nat);
    lemma_pow2_adds((8 * i - l) as nat, (31 - 8 * i) as nat);
    lemma_pow2_adds((31 - 8 * i) as nat, 8 * i);
    lemma_fundamental_div_mod(point as int, m as int);
    let x = q * e;
    assert(point == x * d && point * f == x * 0x8000_0000) by (nonlinear_arith)
        requires
            point == m * q,
            m == e * d,
            d * f == 0x8000_0000,
            x == q * e,
    ;
    lemma_div_multiples_vanish(x as int, d as int);
    assert(bytes == x);
}

impl Default for RangeEncoder {
    fn default() -> (r: Self)
        ensures
            r.wf(),
            r@ == Coder::start(),
    {
        Self::new()
    }
}

} // verus!
