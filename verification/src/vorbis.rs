//! Vorbis I packets and their Ogg stream.
//!
//! A stream holds three header packets (identification, comments, setup) and
//! one packet for each block of 2048 samples. Every packet is a run of fields,
//! packed least significant bit first.
//!
//! The spectra come from outside: this module takes, for each channel, the two
//! ends of its floor curve and its quantised residue.
use crate::bits;
use crate::ogg;
use crate::ogg::{push_le32, push_slice, OggStream, Packet, Stream};
use crate::opus_encoder;
use crate::opus_encoder::write_vorbis_comment_packet;
use crate::opus_range::ec_ilog;
use crate::radix;
use vstd::arithmetic::power2::*;
use vstd::bits::*;
use vstd::prelude::*;

verus! {

/// Packs fields least significant bit first.
pub struct BitWriter {
    /// Whole bytes.
    buf: Vec<u8>,
    /// How many bits of `current_byte` are taken.
    bit_pos: u8,
    /// The byte being filled.
    current_byte: u8,
}

impl View for BitWriter {
    type V = Seq<bool>;

    /// The bits written so far.
    closed spec fn view(&self) -> Seq<bool> {
        bits::bytes_bits(self.buf@) + bits::value_bits(
            self.current_byte as nat,
            self.bit_pos as nat,
        )
    }
}

/// `s` with the `n` low bits of `v` behind it.
pub open spec fn put(s: Seq<bool>, v: int, n: nat) -> Seq<bool> {
    s + bits::value_bits(v as nat, n)
}

impl BitWriter {
    /// Fewer than eight bits wait in the current byte, and nothing above them.
    pub closed spec fn wf(&self) -> bool {
        &&& self.bit_pos < 8
        &&& self.current_byte < pow2(self.bit_pos as nat)
    }

    /// Nothing written yet.
    pub fn new() -> (r: BitWriter)
        ensures
            r.wf(),
            r@ == Seq::<bool>::empty(),
    {
        proof {
            lemma2_to64();
        }
        BitWriter { buf: Vec::new(), bit_pos: 0, current_byte: 0 }
    }

    /// Append the `n` low bits of `value`, the lowest first.
    pub fn write_bits(&mut self, value: u64, n: u8)
        requires
            old(self).wf(),
            n <= 64,
        ensures
            final(self).wf(),
            final(self)@ == put(old(self)@, value as int, n as nat),
    {
        let ghost goal = put(self@, value as int, n as nat);
        let mut remaining: u64 = value;
        let mut bits_left: u8 = n;
        while bits_left > 0
            invariant
                self.wf(),
                bits_left <= 64,
                goal == put(self@, remaining as int, bits_left as nat),
            decreases bits_left,
        {
            let space: u8 = 8 - self.bit_pos;
            let take: u8 = if bits_left < space {
                bits_left
            } else {
                space
            };
            let ghost before = self@;
            proof {
                lemma_low_piece(remaining, take);
                bits::lemma_value_bits_split(
                    remaining as nat,
                    take as nat,
                    (bits_left - take) as nat,
                );
                bits::lemma_value_bits_mod(remaining as nat, take as nat);
            }
            let piece: u64 = remaining & ((1u64 << take) - 1);
            self.append(piece as u8, take);
            proof {
                assert(put(self@, remaining as int / pow2(take as nat) as int, (bits_left - take) as nat)
                    =~= put(before, remaining as int, bits_left as nat));
            }
            remaining = remaining >> take;
            bits_left = bits_left - take;
        }
        proof {
            assert(put(self@, remaining as int, 0) =~= self@);
        }
    }

    /// Append `take` bits that fit into the current byte.
    fn append(&mut self, piece: u8, take: u8)
        requires
            old(self).wf(),
            0 < take,
            take + old(self).bit_pos <= 8,
            piece < pow2(take as nat),
        ensures
            final(self).wf(),
            final(self)@ == put(old(self)@, piece as int, take as nat),
    {
        let pos: u8 = self.bit_pos;
        let low: u8 = self.current_byte;
        let ghost whole = self.buf@;
        let byte: u8 = low | (piece << pos);
        proof {
            lemma2_to64();
            lemma_joined_byte(low, piece, pos, take);
            bits::lemma_value_bits_concat(low as nat, pos as nat, piece as nat, take as nat);
        }
        if pos + take == 8 {
            self.buf.push(byte);
            self.current_byte = 0;
            self.bit_pos = 0;
            proof {
                bits::lemma_bytes_bits_push(whole, byte);
            }
        } else {
            self.current_byte = byte;
            self.bit_pos = pos + take;
        }
        proof {
            assert(self@ =~= put(old(self)@, piece as int, take as nat));
        }
    }

    /// Append a single bit.
    pub fn write_bit(&mut self, bit: bool)
        requires
            old(self).wf(),
        ensures
            final(self).wf(),
            final(self)@ == old(self)@.push(bit),
    {
        proof {
            lemma2_to64();
        }
        let value: u64 = if bit {
            1
        } else {
            0
        };
        self.write_bits(value, 1);
        proof {
            assert(self@ =~= old(self)@.push(bit));
        }
    }

    /// Pad the last byte with zero bits and return the bytes.
    pub fn finalize(self) -> (r: Vec<u8>)
        requires
            self.wf(),
        ensures
            r@ == bits::pack_bits(self@),
    {
        proof {
            bits::lemma_pack_window(self.current_byte as nat, self.bit_pos as nat);
            bits::lemma_pack_bits_concat(
                self.buf@,
                bits::value_bits(self.current_byte as nat, self.bit_pos as nat),
            );
        }
        let mut out: Vec<u8> = self.buf;
        if self.bit_pos > 0 {
            out.push(self.current_byte);
        }
        out
    }
}

/// Masking takes a number's low bits, shifting the rest.
proof fn lemma_low_piece(v: u64, take: u8)
    requires
        0 < take <= 8,
    ensures
        1u64 << take == pow2(take as nat),
        v & ((1u64 << take) - 1) as u64 == v as nat % pow2(take as nat),
        v as nat % pow2(take as nat) < 256,
        v >> take == v as nat / pow2(take as nat),
{
    lemma2_to64();
    lemma_u64_low_bits_mask_is_mod(v, take as nat);
    lemma_u64_shr_is_div(v, take as u64);
    lemma_u64_shl_is_mul(1, take as u64);
    lemma_pow2_pos(take as nat);
    if take < 8 {
        lemma_pow2_strictly_increases(take as nat, 8);
    }
    vstd::arithmetic::div_mod::lemma_mod_bound(v as int, pow2(take as nat) as int);
}

/// A piece shifted above the bits taken stands beside them.
proof fn lemma_joined_byte(low: u8, piece: u8, pos: u8, take: u8)
    requires
        0 < take,
        pos + take <= 8,
        low < pow2(pos as nat),
        piece < pow2(take as nat),
    ensures
        (low | (piece << pos)) == low + piece * pow2(pos as nat),
        low + piece * pow2(pos as nat) < pow2((pos + take) as nat),
{
    lemma2_to64();
    lemma_pow2_adds(pos as nat, take as nat);
    let p = 1u16 << pos;
    let q = 1u16 << take;
    lemma_u16_shl_is_mul(1, pos as u16);
    lemma_u16_shl_is_mul(1, take as u16);
    assert(low < p && piece < q ==> (low | (piece << pos)) == low + piece * p && low + piece * p
        < p * q) by (bit_vector)
        requires
            p == 1u16 << pos,
            q == 1u16 << take,
            0 < take,
            pos < 8,
            take <= 8,
            pos + take <= 8,
    ;
}

/// The number of bits of `x`: `floor(log2(x)) + 1`, and 0 for 0.
pub fn ilog(x: u32) -> (r: u32)
    ensures
        r == radix::bit_len(x as nat),
{
    ec_ilog(x)
}

/// Samples in a short block, which this encoder declares and never uses.
pub const BLOCK_SIZE_0: usize = 256;

/// Samples in a long block.
pub const BLOCK_SIZE_1: usize = 2048;

/// Spectral coefficients of a long block, and samples from one block to the
/// next.
pub const N_COEFFS: usize = 1024;

/// Number of the logical stream.
pub const STREAM_SERIAL: u32 = 0xABCD_1234;

/// "OxiAudio 0.1.0 Vorbis encoder".
pub const VENDOR_STRING: [u8; 29] = [
    0x4F, 0x78, 0x69, 0x41, 0x75, 0x64, 0x69, 0x6F, 0x20, 0x30, 0x2E, 0x31, 0x2E, 0x30, 0x20, 0x56,
    0x6F, 0x72, 0x62, 0x69, 0x73, 0x20, 0x65, 0x6E, 0x63, 0x6F, 0x64, 0x65, 0x72,
];

/// Packet type 1 and "vorbis".
pub const IDENT_MAGIC: [u8; 7] = [0x01, 0x76, 0x6F, 0x72, 0x62, 0x69, 0x73];

/// Packet type 5 and "vorbis".
pub const SETUP_MAGIC: [u8; 7] = [0x05, 0x76, 0x6F, 0x72, 0x62, 0x69, 0x73];

/// Entries of the residue book.
pub const RESIDUE_ENTRIES: usize = 256;

/// First coefficient with a residue.
pub const RESIDUE_BEGIN: usize = 0;

/// One past the last coefficient with a residue.
pub const RESIDUE_END: usize = 128;

/// Coefficients in a residue partition.
pub const PARTITION_SIZE: usize = 32;

/// The least value of the residue book, -6, as an IEEE single.
pub const RESIDUE_MINIMUM: u32 = 0xC0C0_0000;

/// The step of the residue book, 12 / 255, as an IEEE single.
pub const RESIDUE_STEP: u32 = 0x3D40_C0C1;

/// The 24-bit mantissa of the IEEE single with the given bits, top bit set.
pub open spec fn single_mantissa(bits: u32) -> int {
    let fraction = bits as int % 0x80_0000;
    if bits as int / 0x80_0000 % 256 > 0 {
        0x80_0000 + fraction
    } else {
        fraction * pow2((24 - radix::bit_len(fraction as nat)) as nat)
    }
}

/// The power of two that the mantissa of an IEEE single counts, plus 812.
pub open spec fn single_scale(bits: u32) -> int {
    let exponent = bits as int / 0x80_0000 % 256;
    if exponent > 0 {
        exponent + 662
    } else {
        radix::bit_len((bits as int % 0x80_0000) as nat) + 639int
    }
}

/// A packed float: 21 bits of mantissa, rounded, ten bits of exponent and the
/// sign, for `mantissa * 2^(exponent - 809)`.
pub open spec fn packed_float(bits: u32) -> int {
    if bits as int % 0x8000_0000 == 0 {
        0
    } else {
        bits as int / 0x8000_0000 * 0x8000_0000 + single_scale(bits) * 0x20_0000
            + crate::int_math::min_of((single_mantissa(bits) + 4) / 8, 0x1F_FFFF)
    }
}

/// The parts of a finite IEEE single are in range.
proof fn lemma_single_parts(bits: u32)
    requires
        bits as int % 0x8000_0000 != 0,
        bits as int / 0x80_0000 % 256 < 255,
    ensures
        0x80_0000 <= single_mantissa(bits) < 0x100_0000,
        0 < single_scale(bits) < 1024,
{
    lemma2_to64();
    let f = (bits as int % 0x80_0000) as nat;
    if bits as int / 0x80_0000 % 256 == 0 {
        let n = radix::bit_len(f);
        radix::lemma_bit_len_bounds(f);
        radix::lemma_bit_len_at_most(f, 23);
        lemma_pow2_adds((n - 1) as nat, (24 - n) as nat);
        lemma_pow2_adds(n, (24 - n) as nat);
        let (lo, hi, p) = (
            pow2((n - 1) as nat) as int,
            pow2(n) as int,
            pow2((24 - n) as nat) as int,
        );
        assert(lo * p <= f * p < hi * p) by (nonlinear_arith)
            requires
                lo <= f < hi,
                p > 0,
        ;
    }
}

/// Pack a finite IEEE single, given by its bits.
pub fn pack_vorbis_float32(bits: u32) -> (r: u32)
    requires
        bits as int / 0x80_0000 % 256 < 255,
    ensures
        r == packed_float(bits),
{
    if bits % 0x8000_0000 == 0 {
        return 0;
    }
    proof {
        lemma_single_parts(bits);
    }
    let sign: u32 = bits / 0x8000_0000;
    let exponent: u32 = bits / 0x80_0000 % 256;
    let fraction: u32 = bits % 0x80_0000;
    let (mantissa, scale): (u32, u32) = if exponent > 0 {
        (0x80_0000 + fraction, exponent + 662)
    } else {
        let n: u32 = ec_ilog(fraction);
        proof {
            lemma2_to64();
            radix::lemma_bit_len_bounds(fraction as nat);
            radix::lemma_bit_len_at_most(fraction as nat, 23);
            lemma_u32_shl_is_mul(fraction, (24 - n) as u32);
        }
        (fraction << (24 - n), n + 639)
    };
    let mut rounded: u32 = (mantissa + 4) / 8;
    if rounded > 0x1F_FFFF {
        rounded = 0x1F_FFFF;
    }
    sign * 0x8000_0000 + scale * 0x20_0000 + rounded
}

/// The binary logarithms of both block sizes, the long one in the high half.
pub open spec fn block_sizes() -> int {
    (radix::bit_len(BLOCK_SIZE_0 as nat) - 1) + 16 * (radix::bit_len(BLOCK_SIZE_1 as nat) - 1)
}

/// The identification header: version 0, channels, sample rate, no bitrates,
/// the binary logarithms of both block sizes, framing bit.
pub open spec fn ident_header(channels: u8, sample_rate: u32) -> Seq<u8> {
    IDENT_MAGIC@ + ogg::le_bytes(0, 4) + seq![channels] + ogg::le_bytes(sample_rate as nat, 4)
        + ogg::le_bytes(0, 4) + ogg::le_bytes(0, 4) + ogg::le_bytes(0, 4) + seq![
        block_sizes() as u8,
        1u8,
    ]
}

/// The identification header packet, 30 bytes long.
pub fn write_ident_header(channels: u8, sample_rate: u32) -> (r: Vec<u8>)
    ensures
        r@ == ident_header(channels, sample_rate),
        r@.len() == 30,
{
    proof {
        crate::ogg_laws::lemma_le_bytes_len(0, 4);
        crate::ogg_laws::lemma_le_bytes_len(sample_rate as nat, 4);
        lemma2_to64();
        radix::lemma_bit_len_unique(BLOCK_SIZE_0 as nat, 9);
        radix::lemma_bit_len_unique(BLOCK_SIZE_1 as nat, 12);
    }
    let short: u32 = ilog(BLOCK_SIZE_0 as u32) - 1;
    let long: u32 = ilog(BLOCK_SIZE_1 as u32) - 1;
    let mut pkt: Vec<u8> = Vec::new();
    push_slice(&mut pkt, &IDENT_MAGIC);
    push_le32(&mut pkt, 0);
    pkt.push(channels);
    push_le32(&mut pkt, sample_rate);
    push_le32(&mut pkt, 0);
    push_le32(&mut pkt, 0);
    push_le32(&mut pkt, 0);
    pkt.push((short + 16 * long) as u8);
    pkt.push(1);
    proof {
        assert(pkt@ =~= ident_header(channels, sample_rate));
    }
    pkt
}

/// `count` fields of `n` bits, all with the value `v`.
pub open spec fn put_times(s: Seq<bool>, v: int, n: nat, count: nat) -> Seq<bool>
    decreases count,
{
    if count == 0 {
        s
    } else {
        put(put_times(s, v, n, (count - 1) as nat), v, n)
    }
}

/// The numbers below `count` as fields of `n` bits.
pub open spec fn put_ramp(s: Seq<bool>, n: nat, count: nat) -> Seq<bool>
    decreases count,
{
    if count == 0 {
        s
    } else {
        put(put_ramp(s, n, (count - 1) as nat), count - 1, n)
    }
}

/// The front of a codebook: the sync pattern, one dimension, `entries` entries
/// with codewords of `length` bits each, neither ordered nor sparse.
pub open spec fn put_codebook(s: Seq<bool>, entries: nat, length: int) -> Seq<bool> {
    let s = put(s, 0x42, 8);
    let s = put(s, 0x43, 8);
    let s = put(s, 0x56, 8);
    let s = put(s, 1, 16);
    let s = put(s, entries as int, 24);
    let s = s.push(false);
    let s = s.push(false);
    put_times(s, length - 1, 5, entries)
}

/// Both codebooks: eight classes in three bits without values, and 256 residue
/// values in eight bits, from [`RESIDUE_MINIMUM`] in steps of [`RESIDUE_STEP`].
pub open spec fn put_codebooks(s: Seq<bool>) -> Seq<bool> {
    let s = put(s, 1, 8);
    let s = put_codebook(s, 8, 3);
    let s = put(s, 0, 4);
    let s = put_codebook(s, 256, 8);
    let s = put(s, 1, 4);
    let s = put(s, packed_float(RESIDUE_MINIMUM), 32);
    let s = put(s, packed_float(RESIDUE_STEP), 32);
    let s = put(s, 7, 4);
    let s = s.push(false);
    put_ramp(s, 8, 256)
}

/// The one time domain transform, a placeholder.
pub open spec fn put_time(s: Seq<bool>) -> Seq<bool> {
    let s = put(s, 0, 6);
    put(s, 0, 16)
}

/// The one floor, of type 1: one partition of class 0, which has two
/// dimensions, no subclasses and no book; multiplier 1, positions of ten bits,
/// 341 and 682.
pub open spec fn put_floor(s: Seq<bool>) -> Seq<bool> {
    let s = put(s, 0, 6);
    let s = put(s, 1, 16);
    let s = put(s, 1, 5);
    let s = put(s, 0, 4);
    let s = put(s, 1, 3);
    let s = put(s, 0, 2);
    let s = put(s, 0, 1);
    let s = put(s, 0, 2);
    let s = put(s, 10, 4);
    let s = put(s, 341, 10);
    put(s, 682, 10)
}

/// The one residue, of type 0: the coefficients from 0 to 128 in partitions of
/// 32, one class read with book 0, whose first pass uses book 1.
pub open spec fn put_residue(s: Seq<bool>) -> Seq<bool> {
    let s = put(s, 0, 6);
    let s = put(s, 0, 16);
    let s = put(s, RESIDUE_BEGIN as int, 24);
    let s = put(s, RESIDUE_END as int, 24);
    let s = put(s, PARTITION_SIZE - 1, 24);
    let s = put(s, 0, 6);
    let s = put(s, 0, 8);
    let s = put(s, 1, 3);
    let s = s.push(false);
    put(s, 1, 8)
}

/// The one mapping, of type 0: one submap with time transform, floor and
/// residue 0, and no coupling.
pub open spec fn put_mapping(s: Seq<bool>) -> Seq<bool> {
    let s = put(s, 0, 6);
    let s = put(s, 0, 16);
    let s = s.push(false);
    let s = s.push(false);
    let s = put(s, 0, 2);
    let s = put(s, 0, 8);
    let s = put(s, 0, 8);
    put(s, 0, 8)
}

/// The one mode: long blocks, mapping 0.
pub open spec fn put_mode(s: Seq<bool>) -> Seq<bool> {
    let s = put(s, 0, 6);
    let s = s.push(true);
    let s = put(s, 0, 16);
    let s = put(s, 0, 16);
    put(s, 0, 8)
}

/// The fields of the setup header, framing bit last.
#[verifier::opaque]
pub open spec fn setup_bits() -> Seq<bool> {
    let s = put_codebooks(Seq::empty());
    let s = put_time(s);
    let s = put_floor(s);
    let s = put_residue(s);
    let s = put_mapping(s);
    put_mode(s).push(true)
}

/// The setup header.
pub open spec fn setup_header() -> Seq<u8> {
    SETUP_MAGIC@ + bits::pack_bits(setup_bits())
}

/// Write the front of a codebook.
fn write_codebook(bw: &mut BitWriter, entries: u32, length: u8)
    requires
        old(bw).wf(),
        1 <= length,
    ensures
        final(bw).wf(),
        final(bw)@ == put_codebook(old(bw)@, entries as nat, length as int),
{
    bw.write_bits(0x42, 8);
    bw.write_bits(0x43, 8);
    bw.write_bits(0x56, 8);
    bw.write_bits(1, 16);
    bw.write_bits(entries as u64, 24);
    bw.write_bit(false);
    bw.write_bit(false);
    let ghost front = bw@;
    let mut i: u32 = 0;
    while i < entries
        invariant
            bw.wf(),
            1 <= length,
            i <= entries,
            bw@ == put_times(front, length - 1, 5, i as nat),
        decreases entries - i,
    {
        bw.write_bits((length - 1) as u64, 5);
        i = i + 1;
    }
}

/// Write both codebooks.
fn write_codebooks(bw: &mut BitWriter)
    requires
        old(bw).wf(),
    ensures
        final(bw).wf(),
        final(bw)@ == put_codebooks(old(bw)@),
{
    bw.write_bits(1, 8);
    write_codebook(bw, 8, 3);
    bw.write_bits(0, 4);
    write_codebook(bw, RESIDUE_ENTRIES as u32, 8);
    bw.write_bits(1, 4);
    bw.write_bits(pack_vorbis_float32(RESIDUE_MINIMUM) as u64, 32);
    bw.write_bits(pack_vorbis_float32(RESIDUE_STEP) as u64, 32);
    bw.write_bits(7, 4);
    bw.write_bit(false);
    let ghost front = bw@;
    let mut i: u32 = 0;
    while i < 256
        invariant
            bw.wf(),
            i <= 256,
            bw@ == put_ramp(front, 8, i as nat),
        decreases 256 - i,
    {
        bw.write_bits(i as u64, 8);
        i = i + 1;
    }
}

/// Write the floor.
fn write_floor(bw: &mut BitWriter)
    requires
        old(bw).wf(),
    ensures
        final(bw).wf(),
        final(bw)@ == put_floor(old(bw)@),
{
    bw.write_bits(0, 6);
    bw.write_bits(1, 16);
    bw.write_bits(1, 5);
    bw.write_bits(0, 4);
    bw.write_bits(1, 3);
    bw.write_bits(0, 2);
    bw.write_bits(0, 1);
    bw.write_bits(0, 2);
    bw.write_bits(10, 4);
    bw.write_bits(341, 10);
    bw.write_bits(682, 10);
}

/// Write the residue.
fn write_residue(bw: &mut BitWriter)
    requires
        old(bw).wf(),
    ensures
        final(bw).wf(),
        final(bw)@ == put_residue(old(bw)@),
{
    bw.write_bits(0, 6);
    bw.write_bits(0, 16);
    bw.write_bits(RESIDUE_BEGIN as u64, 24);
    bw.write_bits(RESIDUE_END as u64, 24);
    bw.write_bits(PARTITION_SIZE as u64 - 1, 24);
    bw.write_bits(0, 6);
    bw.write_bits(0, 8);
    bw.write_bits(1, 3);
    bw.write_bit(false);
    bw.write_bits(1, 8);
}

/// Write the mapping and the mode.
fn write_mapping_and_mode(bw: &mut BitWriter)
    requires
        old(bw).wf(),
    ensures
        final(bw).wf(),
        final(bw)@ == put_mode(put_mapping(old(bw)@)),
{
    bw.write_bits(0, 6);
    bw.write_bits(0, 16);
    bw.write_bit(false);
    bw.write_bit(false);
    bw.write_bits(0, 2);
    bw.write_bits(0, 8);
    bw.write_bits(0, 8);
    bw.write_bits(0, 8);
    bw.write_bits(0, 6);
    bw.write_bit(true);
    bw.write_bits(0, 16);
    bw.write_bits(0, 16);
    bw.write_bits(0, 8);
}

/// The setup header packet, the same for one channel and for two.
pub fn write_setup_header() -> (r: Vec<u8>)
    ensures
        r@ == setup_header(),
{
    proof {
        reveal(setup_bits);
    }
    let mut bw = BitWriter::new();
    write_codebooks(&mut bw);
    bw.write_bits(0, 6);
    bw.write_bits(0, 16);
    write_floor(&mut bw);
    write_residue(&mut bw);
    write_mapping_and_mode(&mut bw);
    bw.write_bit(true);
    let packed: Vec<u8> = bw.finalize();
    let mut pkt: Vec<u8> = Vec::new();
    push_slice(&mut pkt, &SETUP_MAGIC);
    push_slice(&mut pkt, packed.as_slice());
    pkt
}

/// One channel of one block, quantised.
pub struct ChannelBlock {
    /// The floor curve's values at both ends; none for a silent channel.
    pub floor: Option<(u8, u8)>,
    /// The residue book's entry for each of the first 128 coefficients.
    pub residue: Vec<u8>,
}

/// Whether the channel's own residue is written. A channel without a floor, or
/// with one that starts at zero, has zeros in its place.
pub open spec fn is_heard(block: ChannelBlock) -> bool {
    match block.floor {
        Some((y0, _)) => y0 != 0,
        None => false,
    }
}

/// The residue written for a channel.
pub open spec fn residue_of(block: ChannelBlock) -> Seq<u8> {
    if is_heard(block) {
        block.residue@
    } else {
        Seq::new(RESIDUE_END as nat, |i: int| 0u8)
    }
}

/// The floor of each channel: a flag, and behind a set flag the two ends.
pub open spec fn put_floors(s: Seq<bool>, blocks: Seq<ChannelBlock>) -> Seq<bool>
    decreases blocks.len(),
{
    if blocks.len() == 0 {
        s
    } else {
        let front = put_floors(s, blocks.drop_last());
        match blocks.last().floor {
            Some((y0, y1)) => put(put(front.push(true), y0 as int, 8), y1 as int, 8),
            None => front.push(false),
        }
    }
}

/// Bytes as fields of eight bits.
pub open spec fn put_bytes(s: Seq<bool>, values: Seq<u8>) -> Seq<bool>
    decreases values.len(),
{
    if values.len() == 0 {
        s
    } else {
        put(put_bytes(s, values.drop_last()), values.last() as int, 8)
    }
}

/// The residue of each channel: class 0 in three bits, then the book's entries.
pub open spec fn put_residues(s: Seq<bool>, blocks: Seq<ChannelBlock>) -> Seq<bool>
    decreases blocks.len(),
{
    if blocks.len() == 0 {
        s
    } else {
        put_bytes(
            put(put_residues(s, blocks.drop_last()), 0, 3),
            residue_of(blocks.last()),
        )
    }
}

/// Whether some channel is not silent.
pub open spec fn has_audio(blocks: Seq<ChannelBlock>) -> bool {
    exists|i: int| 0 <= i < blocks.len() && (#[trigger] blocks[i]).floor is Some
}

/// The fields of an audio packet: packet type 0, whether the blocks on both
/// sides are long, the floors, and the residues if any channel is not silent.
pub open spec fn audio_bits(prev_long: bool, next_long: bool, blocks: Seq<ChannelBlock>) -> Seq<
    bool,
> {
    let s = put_floors(seq![false, prev_long, next_long], blocks);
    if has_audio(blocks) {
        put_residues(s, blocks)
    } else {
        s
    }
}

/// The packet of one block.
pub open spec fn audio_packet(prev_long: bool, next_long: bool, blocks: Seq<ChannelBlock>) -> Seq<
    u8,
> {
    bits::pack_bits(audio_bits(prev_long, next_long, blocks))
}

/// Write the residue of one channel.
fn write_channel_residue(bw: &mut BitWriter, block: &ChannelBlock)
    requires
        old(bw).wf(),
        is_heard(*block) ==> block.residue@.len() == RESIDUE_END,
    ensures
        final(bw).wf(),
        final(bw)@ == put_bytes(put(old(bw)@, 0, 3), residue_of(*block)),
{
    let heard: bool = match block.floor {
        Some((y0, _)) => y0 != 0,
        None => false,
    };
    bw.write_bits(0, 3);
    let ghost front = bw@;
    let ghost entries = residue_of(*block);
    let mut i: usize = 0;
    proof {
        assert(entries.take(0) =~= Seq::<u8>::empty());
    }
    while i < RESIDUE_END
        invariant
            bw.wf(),
            i <= RESIDUE_END,
            entries == residue_of(*block),
            entries.len() == RESIDUE_END,
            heard == is_heard(*block),
            bw@ == put_bytes(front, entries.take(i as int)),
        decreases RESIDUE_END - i,
    {
        let entry: u8 = if heard {
            block.residue[i]
        } else {
            0
        };
        proof {
            assert(entries.take(i + 1).drop_last() =~= entries.take(i as int));
        }
        bw.write_bits(entry as u64, 8);
        i = i + 1;
    }
    proof {
        assert(entries.take(i as int) =~= entries);
    }
}

/// The packet of one block, with the channels in order.
pub fn encode_audio_packet(prev_long: bool, next_long: bool, blocks: &[ChannelBlock]) -> (r: Vec<u8>)
    requires
        forall|i: int|
            0 <= i < blocks@.len() && is_heard(#[trigger] blocks@[i]) ==> blocks@[i].residue@.len()
                == RESIDUE_END,
    ensures
        r@ == audio_packet(prev_long, next_long, blocks@),
{
    let mut bw = BitWriter::new();
    bw.write_bit(false);
    bw.write_bit(prev_long);
    bw.write_bit(next_long);
    let ghost front = bw@;
    let ghost all = blocks@;
    let mut audible: bool = false;
    let mut i: usize = 0;
    proof {
        assert(front =~= seq![false, prev_long, next_long]);
        assert(all.take(0) =~= Seq::<ChannelBlock>::empty());
    }
    while i < blocks.len()
        invariant
            bw.wf(),
            all == blocks@,
            i <= all.len(),
            bw@ == put_floors(front, all.take(i as int)),
            audible == has_audio(all.take(i as int)),
        decreases all.len() - i,
    {
        proof {
            let next = all.take(i + 1);
            assert(next.drop_last() =~= all.take(i as int));
            assert(next.last() == all[i as int]);
            if has_audio(all.take(i as int)) {
                let j = choose|j: int|
                    0 <= j < all.take(i as int).len() && (#[trigger] all.take(i as int)[j]).floor is Some;
                assert(next[j].floor is Some);
            }
            if has_audio(next) && !(next.last().floor is Some) {
                let j = choose|j: int| 0 <= j < next.len() && (#[trigger] next[j]).floor is Some;
                assert(all.take(i as int)[j].floor is Some);
            }
        }
        match blocks[i].floor {
            Some((y0, y1)) => {
                proof {
                    assert(all.take(i + 1)[i as int].floor is Some);
                }
                audible = true;
                bw.write_bit(true);
                bw.write_bits(y0 as u64, 8);
                bw.write_bits(y1 as u64, 8);
            },
            None => {
                bw.write_bit(false);
            },
        }
        i = i + 1;
    }
    proof {
        assert(all.take(i as int) =~= all);
    }
    if audible {
        let ghost floors = bw@;
        let mut c: usize = 0;
        proof {
            assert(all.take(0) =~= Seq::<ChannelBlock>::empty());
        }
        while c < blocks.len()
            invariant
                bw.wf(),
                all == blocks@,
                c <= all.len(),
                forall|i: int|
                    0 <= i < blocks@.len() && is_heard(#[trigger] blocks@[i])
                        ==> blocks@[i].residue@.len() == RESIDUE_END,
                bw@ == put_residues(floors, all.take(c as int)),
            decreases all.len() - c,
        {
            proof {
                assert(all.take(c + 1).drop_last() =~= all.take(c as int));
            }
            write_channel_residue(&mut bw, &blocks[c]);
            c = c + 1;
        }
        proof {
            assert(all.take(c as int) =~= all);
        }
    }
    bw.finalize()
}

/// What cannot be encoded.
#[derive(Clone, Copy, Debug, PartialEq, Eq, Structural)]
pub enum VorbisEncodeError {
    /// Neither one nor two channels.
    UnsupportedChannels(usize),
    /// Neither 44.1 nor 48 kHz.
    UnsupportedSampleRate(u32),
}

/// Whether audio can be encoded: one or two channels, at 44.1 or 48 kHz. The
/// channels are looked at first.
pub fn check_vorbis_input(channels: usize, sample_rate: u32) -> (r: Result<(), VorbisEncodeError>)
    ensures
        match r {
            Ok(_) => 1 <= channels <= 2 && (sample_rate == 44_100 || sample_rate == 48_000),
            Err(VorbisEncodeError::UnsupportedChannels(n)) => n == channels && !(1 <= channels
                <= 2),
            Err(VorbisEncodeError::UnsupportedSampleRate(n)) => n == sample_rate && 1 <= channels
                <= 2 && sample_rate != 44_100 && sample_rate != 48_000,
        },
{
    if channels == 0 || channels > 2 {
        return Err(VorbisEncodeError::UnsupportedChannels(channels));
    }
    if sample_rate != 44_100 && sample_rate != 48_000 {
        return Err(VorbisEncodeError::UnsupportedSampleRate(sample_rate));
    }
    Ok(())
}

/// How many blocks `samples` samples of each channel make: one for every 1024
/// whole ones, and at least one.
pub fn block_count(samples: usize) -> (r: usize)
    ensures
        r == (if samples < N_COEFFS {
            1
        } else {
            samples as int / N_COEFFS as int
        }),
{
    let n: usize = samples / N_COEFFS;
    if n == 0 {
        1
    } else {
        n
    }
}

/// Where a block lies in the audio and in the stream.
#[derive(Clone, Copy, Debug, PartialEq, Eq, Structural)]
pub struct BlockPlan {
    /// First sample of each channel.
    pub start: usize,
    /// One past the last sample of each channel.
    pub end: usize,
    /// There is a block before it.
    pub prev_long: bool,
    /// There is a block behind it.
    pub next_long: bool,
}

/// Block `index` of `samples` samples.
pub open spec fn planned(samples: int, index: int) -> (int, int, bool, bool) {
    (
        index * 1024,
        crate::int_math::min_of(index * 1024 + 2048, samples),
        index > 0,
        index + 1 < samples / 1024,
    )
}

/// Block `index` of audio with `samples` samples in each channel: up to 2048
/// samples from every 1024th on.
pub fn block_plan(samples: usize, index: usize) -> (r: BlockPlan)
    requires
        index == 0 || index < samples / N_COEFFS,
    ensures
        r.start == index * 1024,
        r.end == (if index * 1024 + 2048 < samples {
            index * 1024 + 2048
        } else {
            samples as int
        }),
        r.start <= r.end,
        (r.start as int, r.end as int, r.prev_long, r.next_long) == planned(
            samples as int,
            index as int,
        ),
        r.prev_long == (index > 0),
        r.next_long == (index + 1 < samples as int / N_COEFFS as int),
{
    let n: usize = block_count(samples);
    let start: usize = index * 1024;
    let end: usize = if samples - start > BLOCK_SIZE_1 {
        start + BLOCK_SIZE_1
    } else {
        samples
    };
    BlockPlan { start, end, prev_long: index > 0, next_long: index + 1 < n }
}

/// The comment header of every stream.
pub open spec fn vorbis_comments() -> Seq<u8> {
    opus_encoder::comment_packet(VENDOR_STRING@, Seq::empty(), false)
}

/// A stream with its three header packets.
pub open spec fn opened(channels: int, sample_rate: u32) -> Stream {
    Stream::start(STREAM_SERIAL).with_packet(
        ident_header(channels as u8, sample_rate),
        0,
        false,
    ).with_packet(vorbis_comments(), 0, false).with_packet(setup_header(), 0, false)
}

/// One packet for each block.
pub open spec fn audio_packets(packets: Seq<Vec<u8>>) -> Seq<Packet> {
    Seq::new(packets.len(), |i: int| Packet { bytes: packets[i]@, delta: N_COEFFS as int })
}

/// The Ogg stream of some packets.
pub open spec fn muxed(channels: int, sample_rate: u32, packets: Seq<Vec<u8>>) -> Seq<u8> {
    ogg::with_packets(opened(channels, sample_rate), audio_packets(packets), true).out
}

/// Open a stream with its three header packets.
fn open_stream(channels: usize, sample_rate: u32) -> (r: OggStream)
    requires
        channels <= 2,
    ensures
        r@ == opened(channels as int, sample_rate),
        r@.granule == 0,
{
    let mut stream = OggStream::new(STREAM_SERIAL);
    let ident: Vec<u8> = write_ident_header(channels as u8, sample_rate);
    proof {
        crate::ogg_laws::lemma_packet_state(stream@, ident@, 0, false);
    }
    stream.write_packet(ident.as_slice(), 0, false);
    let none: Vec<Vec<u8>> = Vec::new();
    let comments: Vec<u8> = write_vorbis_comment_packet(&VENDOR_STRING, none.as_slice(), false);
    proof {
        assert(Seq::new(none@.len(), |i: int| none@[i]@) =~= Seq::<Seq<u8>>::empty());
        crate::ogg_laws::lemma_packet_state(stream@, comments@, 0, false);
    }
    stream.write_packet(comments.as_slice(), 0, false);
    let setup: Vec<u8> = write_setup_header();
    proof {
        crate::ogg_laws::lemma_packet_state(stream@, setup@, 0, false);
    }
    stream.write_packet(setup.as_slice(), 0, false);
    stream
}

/// Join audio packets into a whole Ogg stream: the header packets, then a page
/// for each packet, the last of which ends the stream.
pub fn mux_vorbis(channels: usize, sample_rate: u32, packets: &[Vec<u8>]) -> (r: Result<
    Vec<u8>,
    VorbisEncodeError,
>)
    requires
        packets@.len() * 1024 <= i64::MAX,
    ensures
        match r {
            Ok(bytes) => {
                &&& 1 <= channels <= 2
                &&& sample_rate == 44_100 || sample_rate == 48_000
                &&& bytes@ == muxed(channels as int, sample_rate, packets@)
            },
            Err(VorbisEncodeError::UnsupportedChannels(n)) => n == channels && !(1 <= channels
                <= 2),
            Err(VorbisEncodeError::UnsupportedSampleRate(n)) => n == sample_rate && 1 <= channels
                <= 2 && sample_rate != 44_100 && sample_rate != 48_000,
        },
{
    match check_vorbis_input(channels, sample_rate) {
        Err(e) => {
            return Err(e);
        },
        Ok(_) => {},
    }
    let mut stream = open_stream(channels, sample_rate);
    let ghost all = audio_packets(packets@);
    let ghost goal = ogg::with_packets(stream@, all, true);
    let n: usize = packets.len();
    let mut i: usize = 0;
    proof {
        assert(all.skip(0) =~= all);
    }
    while i < n
        invariant
            n == packets@.len(),
            i <= n,
            n * 1024 <= i64::MAX,
            all == audio_packets(packets@),
            stream@.granule == i * 1024,
            goal == ogg::with_packets(stream@, all.skip(i as int), true),
        decreases n - i,
    {
        proof {
            let rest = all.skip(i as int);
            assert(rest[0] == all[i as int]);
            assert(rest.skip(1) =~= all.skip(i + 1));
            crate::ogg_laws::lemma_packet_state(
                stream@,
                packets@[i as int]@,
                N_COEFFS as int,
                i == n - 1,
            );
        }
        stream.write_packet(packets[i].as_slice(), N_COEFFS as i64, i == n - 1);
        i = i + 1;
    }
    Ok(stream.take_bytes())
}

/// Whatever is written before and behind it, a field is found in the packed
/// bytes at its place, with its value.
pub proof fn law_field_is_read_back(before: Seq<bool>, v: nat, n: nat, behind: Seq<bool>)
    requires
        v < pow2(n),
    ensures
        bits::bits_value(
            bits::bytes_bits(bits::pack_bits(put(before, v as int, n) + behind)).subrange(
                before.len() as int,
                (before.len() + n) as int,
            ),
        ) == v,
{
    let whole = put(before, v as int, n) + behind;
    let packed = bits::bytes_bits(bits::pack_bits(whole));
    let found = packed.subrange(before.len() as int, (before.len() + n) as int);
    assert forall|i: int| 0 <= i < n implies #[trigger] found[i] == bits::value_bits(v, n)[i] by {
        bits::lemma_packed_bit(whole, before.len() + i);
        assert(whole[before.len() + i] == bits::value_bits(v, n)[i]);
    }
    assert(found =~= bits::value_bits(v, n));
    bits::lemma_bits_value_of_value_bits(v, n);
}

/// A block in which every channel is silent takes one bit for each of them
/// behind the three of the packet's front, and no residue.
pub proof fn law_silence_has_no_residue(prev_long: bool, next_long: bool, blocks: Seq<ChannelBlock>)
    requires
        forall|i: int| 0 <= i < blocks.len() ==> (#[trigger] blocks[i]).floor is None,
    ensures
        audio_bits(prev_long, next_long, blocks) == seq![false, prev_long, next_long] + Seq::new(
            blocks.len(),
            |i: int| false,
        ),
{
    lemma_silent_floors(seq![false, prev_long, next_long], blocks);
}

proof fn lemma_silent_floors(s: Seq<bool>, blocks: Seq<ChannelBlock>)
    requires
        forall|i: int| 0 <= i < blocks.len() ==> (#[trigger] blocks[i]).floor is None,
    ensures
        put_floors(s, blocks) == s + Seq::new(blocks.len(), |i: int| false),
    decreases blocks.len(),
{
    if blocks.len() > 0 {
        let front = blocks.drop_last();
        assert forall|i: int| 0 <= i < front.len() implies (#[trigger] front[i]).floor is None by {
            assert(front[i] == blocks[i]);
        }
        lemma_silent_floors(s, front);
        assert(blocks[blocks.len() - 1].floor is None);
    }
    assert(put_floors(s, blocks) =~= s + Seq::new(blocks.len(), |i: int| false));
}

/// A packed float stands for the number it was packed from, to the 21 bits of
/// its mantissa: sign and scale are kept, and the mantissa is off by less than
/// one unit.
pub proof fn law_packed_floats_keep_their_value(bits: u32)
    requires
        bits as int % 0x8000_0000 != 0,
        bits as int / 0x80_0000 % 256 < 255,
    ensures
        ({
            let p = packed_float(bits);
            &&& p / 0x8000_0000 == bits as int / 0x8000_0000
            &&& p / 0x20_0000 % 1024 == single_scale(bits)
            &&& -8 < 8 * (p % 0x20_0000) - single_mantissa(bits) < 8
        }),
{
    lemma_single_parts(bits);
}

/// The residue book of the setup header goes from -6 up to 6 in 255 steps: its
/// minimum is exact, and its step is the packed float next to 12 / 255.
pub proof fn law_residue_book_spans_twelve()
    ensures
        packed_float(RESIDUE_MINIMUM) == 0x8000_0000 + (809 - 18) * 0x20_0000 + 6 * pow2(18),
        packed_float(RESIDUE_STEP) / 0x20_0000 == 809 - 25,
        -255 <= 2 * (255 * (packed_float(RESIDUE_STEP) % 0x20_0000) - 12 * pow2(25)) <= 255,
{
    lemma2_to64();
}

/// The stream of [`mux_vorbis`] is read back packet by packet: the three
/// headers, then every packet.
pub proof fn law_vorbis_stream_is_read_back(
    channels: int,
    sample_rate: u32,
    packets: Seq<Vec<u8>>,
)
    requires
        packets.len() > 0,
    ensures
        crate::ogg_laws::reads(
            crate::ogg_reader::Reader::start(
                ogg::with_packets(
                    opened(channels, sample_rate),
                    audio_packets(packets),
                    true,
                ).out,
            ),
            seq![
                Packet { bytes: ident_header(channels as u8, sample_rate), delta: 0 },
                Packet { bytes: vorbis_comments(), delta: 0 },
                Packet { bytes: setup_header(), delta: 0 },
            ] + audio_packets(packets),
        ),
{
    let audio = audio_packets(packets);
    lemma_headers_first(channels, sample_rate, audio);
    crate::ogg_laws::law_packets_are_read_back(
        STREAM_SERIAL,
        with_headers(channels, sample_rate, audio),
        true,
    );
    lemma_last_packet_finishes(opened(channels, sample_rate), audio);
}

/// The packets of a stream: its three headers and the audio.
pub open spec fn with_headers(channels: int, sample_rate: u32, audio: Seq<Packet>) -> Seq<Packet> {
    seq![
        Packet { bytes: ident_header(channels as u8, sample_rate), delta: 0 },
        Packet { bytes: vorbis_comments(), delta: 0 },
        Packet { bytes: setup_header(), delta: 0 },
    ] + audio
}

/// The headers are packets like the others.
pub proof fn lemma_headers_first(channels: int, sample_rate: u32, audio: Seq<Packet>)
    requires
        audio.len() > 0,
    ensures
        ogg::with_packets(opened(channels, sample_rate), audio, true) == ogg::with_packets(
            Stream::start(STREAM_SERIAL),
            with_headers(channels, sample_rate, audio),
            true,
        ),
{
    let all = with_headers(channels, sample_rate, audio);
    let (ident, comments, setup) = (all[0], all[1], all[2]);
    let s = Stream::start(STREAM_SERIAL);
    let (all1, all2) = (all.skip(1), all.skip(1).skip(1));
    assert(all2.skip(1) =~= audio);
    assert(all1[0] == comments && all2[0] == setup);
    let s1 = s.with_packet(ident.bytes, 0, false);
    let s2 = s1.with_packet(comments.bytes, 0, false);
    assert(ogg::with_packets(s, all, true) == ogg::with_packets(s1, all1, true));
    assert(ogg::with_packets(s1, all1, true) == ogg::with_packets(s2, all2, true));
    assert(ogg::with_packets(s2, all2, true) == ogg::with_packets(
        s2.with_packet(setup.bytes, 0, false),
        audio,
        true,
    ));
}

/// A closed run of packets ends the stream.
pub proof fn lemma_last_packet_finishes(s: Stream, packets: Seq<Packet>)
    requires
        packets.len() > 0,
    ensures
        ogg::with_packets(s, packets, true).finished,
    decreases packets.len(),
{
    let next = s.with_packet(packets[0].bytes, packets[0].delta, packets.len() == 1);
    if packets.len() == 1 {
        crate::ogg_laws::lemma_packet_state(s, packets[0].bytes, packets[0].delta, true);
        assert(ogg::with_packets(next, packets.skip(1), true) == next);
    } else {
        lemma_last_packet_finishes(next, packets.skip(1));
    }
}

} // verus!
