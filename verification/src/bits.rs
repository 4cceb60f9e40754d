//! Bit sequences: how numbers and bytes turn into bits, least significant first.
//!
//! Both the raw-bit tail of an Opus packet and every Vorbis packet are packed
//! this way, so their writers share the definitions and facts of this module.
use vstd::arithmetic::div_mod::*;
use vstd::arithmetic::mul::*;
use vstd::arithmetic::power2::*;
use vstd::prelude::*;

verus! {

/// Bit `i` of `v`, counted from the least significant one.
pub open spec fn bit_of(v: nat, i: nat) -> bool {
    (v / pow2(i)) % 2 == 1
}

/// The `n` low bits of `v`, least significant first.
pub open spec fn value_bits(v: nat, n: nat) -> Seq<bool> {
    Seq::new(n, |i: int| bit_of(v, i as nat))
}

/// All bits of a byte string, least significant bit of each byte first.
pub open spec fn bytes_bits(s: Seq<u8>) -> Seq<bool> {
    Seq::new((8 * s.len()) as nat, |i: int| bit_of(s[i / 8] as nat, (i % 8) as nat))
}

/// Bit `i` of `s` as a number; positions past the end count as zero.
pub open spec fn bit_or_zero(s: Seq<bool>, i: int) -> nat {
    if 0 <= i < s.len() && s[i] {
        1
    } else {
        0
    }
}

/// The byte made of bits `8 * j` to `8 * j + 7` of `s`.
pub open spec fn pack_byte(s: Seq<bool>, j: int) -> nat {
    bit_or_zero(s, 8 * j) + 2 * bit_or_zero(s, 8 * j + 1) + 4 * bit_or_zero(s, 8 * j + 2) + 8
        * bit_or_zero(s, 8 * j + 3) + 16 * bit_or_zero(s, 8 * j + 4) + 32 * bit_or_zero(
        s,
        8 * j + 5,
    ) + 64 * bit_or_zero(s, 8 * j + 6) + 128 * bit_or_zero(s, 8 * j + 7)
}

/// `s` packed into bytes, least significant bit first, the last byte padded
/// with zero bits.
pub open spec fn pack_bits(s: Seq<bool>) -> Seq<u8> {
    Seq::new(((s.len() + 7) / 8) as nat, |j: int| pack_byte(s, j) as u8)
}

/// The number whose bits are `s`, least significant first.
pub open spec fn bits_value(s: Seq<bool>) -> nat
    decreases s.len(),
{
    if s.len() == 0 {
        0
    } else {
        bit_or_zero(s, 0) + 2 * bits_value(s.skip(1))
    }
}

/// Shifting a number right by `n` drops its `n` low bits.
pub proof fn lemma_bit_of_shift(v: nat, n: nat, i: nat)
    ensures
        bit_of(v / pow2(n), i) == bit_of(v, n + i),
{
    lemma_pow2_pos(n);
    lemma_pow2_pos(i);
    lemma_pow2_adds(n, i);
    lemma_div_denominator(v as int, pow2(n) as int, pow2(i) as int);
}

/// Adding a multiple of `2^n` leaves the bits below `n` alone.
pub proof fn lemma_bit_of_low(w: nat, f: nat, n: nat, i: nat)
    requires
        i < n,
    ensures
        bit_of(w + f * pow2(n), i) == bit_of(w, i),
{
    lemma_pow2_pos(i);
    let d = (n - i) as nat;
    lemma_pow2_adds(i, d);
    lemma_pow2_unfold(d);
    let p = pow2(i) as int;
    let q = pow2((d - 1) as nat) as int;
    assert(f * pow2(n) == p * (2 * (f * q))) by (nonlinear_arith)
        requires
            pow2(n) == p * (2 * q),
    ;
    lemma_hoist_over_denominator(w as int, 2 * (f * q), p as nat);
    assert((2 * (f * q)) * p == f * pow2(n)) by (nonlinear_arith)
        requires
            f * pow2(n) == p * (2 * (f * q)),
    ;
    assert((w as int / p + 2 * (f * q)) % 2 == (w as int / p) % 2) by {
        lemma_mod_multiples_vanish(f * q, w as int / p, 2);
    }
}

/// The bits of `w + f * 2^n` from `n` upwards are those of `f`.
pub proof fn lemma_bit_of_high(w: nat, f: nat, n: nat, i: nat)
    requires
        w < pow2(n),
    ensures
        bit_of(w + f * pow2(n), n + i) == bit_of(f, i),
{
    lemma_pow2_pos(n);
    lemma_bit_of_shift(w + f * pow2(n), n, i);
    assert((w + f * pow2(n)) as int / (pow2(n) as int) == f) by {
        lemma_fundamental_div_mod_converse(
            (w + f * pow2(n)) as int,
            pow2(n) as int,
            f as int,
            w as int,
        );
    }
}

/// Putting `f` above the `n` bits of `w` appends the bits of `f` to those of `w`.
pub proof fn lemma_value_bits_concat(w: nat, n: nat, f: nat, m: nat)
    requires
        w < pow2(n),
    ensures
        value_bits(w + f * pow2(n), n + m) =~= value_bits(w, n) + value_bits(f, m),
{
    assert forall|i: int| 0 <= i < n + m implies #[trigger] value_bits(w + f * pow2(n), n + m)[i] == (
    value_bits(w, n) + value_bits(f, m))[i] by {
        if i < n {
            lemma_bit_of_low(w, f, n, i as nat);
        } else {
            lemma_bit_of_high(w, f, n, (i - n) as nat);
        }
    }
}

/// Only the `n` low bits of a number show in its first `n` bits.
pub proof fn lemma_value_bits_mod(v: nat, n: nat)
    ensures
        value_bits(v % pow2(n), n) =~= value_bits(v, n),
        v % pow2(n) < pow2(n),
{
    lemma_pow2_pos(n);
    lemma_fundamental_div_mod(v as int, pow2(n) as int);
    lemma_mod_bound(v as int, pow2(n) as int);
    let w = v % pow2(n);
    let f = v / pow2(n);
    assert(v == w + f * pow2(n)) by (nonlinear_arith)
        requires
            v == pow2(n) * f + w,
    ;
    assert forall|i: int| 0 <= i < n implies value_bits(w, n)[i] == value_bits(v, n)[i] by {
        lemma_bit_of_low(w, f, n, i as nat);
    }
}

/// The bits of a number split at any position.
pub proof fn lemma_value_bits_split(v: nat, n: nat, m: nat)
    ensures
        value_bits(v, n + m) =~= value_bits(v, n) + value_bits(v / pow2(n), m),
{
    assert forall|i: int| 0 <= i < n + m implies #[trigger] value_bits(v, n + m)[i] == (value_bits(v, n)
        + value_bits(v / pow2(n), m))[i] by {
        if i >= n {
            lemma_bit_of_shift(v, n, (i - n) as nat);
        }
    }
}

/// Appending a byte appends its eight bits.
pub proof fn lemma_bytes_bits_push(s: Seq<u8>, b: u8)
    ensures
        bytes_bits(s.push(b)) =~= bytes_bits(s) + value_bits(b as nat, 8),
{
}

/// Reading a number's bits back gives the number again.
pub proof fn lemma_bits_value_of_value_bits(v: nat, n: nat)
    requires
        v < pow2(n),
    ensures
        bits_value(value_bits(v, n)) == v,
    decreases n,
{
    lemma2_to64();
    if n > 0 {
        let m = (n - 1) as nat;
        lemma_pow2_unfold(n);
        lemma_value_bits_split(v, 1, m);
        assert(value_bits(v, n).skip(1) =~= value_bits(v / 2, m));
        lemma_bits_value_of_value_bits(v / 2, m);
        assert(v / 1 == v);
    }
}

/// Packing whole bytes and then some more bits yields the bytes followed by
/// the packed rest.
pub proof fn lemma_pack_bits_concat(s: Seq<u8>, rest: Seq<bool>)
    ensures
        pack_bits(bytes_bits(s) + rest) =~= s + pack_bits(rest),
{
    let whole = bytes_bits(s) + rest;
    assert forall|j: int| 0 <= j < pack_bits(whole).len() implies pack_bits(whole)[j] == (s
        + pack_bits(rest))[j] by {
        if j < s.len() {
            lemma_byte_from_bits(s[j]);
            assert forall|t: int| 0 <= t < 8 implies #[trigger] bit_or_zero(whole, 8 * j + t) == (
            if bit_of(s[j] as nat, t as nat) {
                1nat
            } else {
                0nat
            }) by {
                assert((8 * j + t) / 8 == j && (8 * j + t) % 8 == t);
                assert(whole[8 * j + t] == bytes_bits(s)[8 * j + t]);
            }
            assert(bit_or_zero(whole, 8 * j + 0) == bit_or_zero(whole, 8 * j));
        } else {
            let k = j - s.len();
            assert forall|t: int| 0 <= t < 8 implies #[trigger] bit_or_zero(whole, 8 * j + t)
                == bit_or_zero(rest, 8 * k + t) by {}
            assert(bit_or_zero(whole, 8 * j + 0) == bit_or_zero(whole, 8 * j));
            assert(bit_or_zero(rest, 8 * k + 0) == bit_or_zero(rest, 8 * k));
        }
    }
}

/// A byte is the sum of its bits' weights.
pub proof fn lemma_byte_from_bits(b: u8)
    ensures
        b == (if bit_of(b as nat, 0) { 1nat } else { 0 }) + 2 * (if bit_of(b as nat, 1) {
            1nat
        } else {
            0
        }) + 4 * (if bit_of(b as nat, 2) { 1nat } else { 0 }) + 8 * (if bit_of(b as nat, 3) {
            1nat
        } else {
            0
        }) + 16 * (if bit_of(b as nat, 4) { 1nat } else { 0 }) + 32 * (if bit_of(b as nat, 5) {
            1nat
        } else {
            0
        }) + 64 * (if bit_of(b as nat, 6) { 1nat } else { 0 }) + 128 * (if bit_of(b as nat, 7) {
            1nat
        } else {
            0
        }),
{
    lemma2_to64();
    let v = b as int;
    let (a1, a2, a3, a4) = (v / 2, v / 4, v / 8, v / 16);
    let (a5, a6, a7) = (v / 32, v / 64, v / 128);
    assert(v == 2 * a1 + v % 2 && a1 == 2 * a2 + a1 % 2 && a2 == 2 * a3 + a2 % 2);
    assert(a3 == 2 * a4 + a3 % 2 && a4 == 2 * a5 + a4 % 2);
    assert(a5 == 2 * a6 + a5 % 2 && a6 == 2 * a7 + a6 % 2);
    assert(0 <= a7 < 2 && a7 % 2 == a7);
    assert(v / 1 == v);
}

/// A window of fewer than eight bits packs into the byte with its value.
pub proof fn lemma_pack_window(w: nat, n: nat)
    requires
        n < 8,
        w < pow2(n),
    ensures
        pack_bits(value_bits(w, n)) == (if n > 0 {
            seq![w as u8]
        } else {
            Seq::<u8>::empty()
        }),
{
    let s = value_bits(w, n);
    lemma2_to64();
    if n < 7 {
        lemma_pow2_strictly_increases(n, 7);
    }
    lemma_byte_from_bits(w as u8);
    assert forall|t: int| 0 <= t < 8 implies #[trigger] bit_or_zero(s, t) == (if bit_of(w, t as nat) {
        1nat
    } else {
        0nat
    }) by {
        if t >= n {
            if t > n {
                lemma_pow2_strictly_increases(n, t as nat);
            }
            lemma_basic_div(w as int, pow2(t as nat) as int);
        }
    }
    if n > 0 {
        assert(pack_bits(s) =~= seq![w as u8]);
    } else {
        assert(pack_bits(s) =~= Seq::<u8>::empty());
    }
}

/// Bit `t` of a byte put together from eight bits is the one that went in at
/// `t`.
proof fn lemma_bit_of_sum(s: Seq<bool>, j: int, t: int)
    requires
        0 <= t < 8,
    ensures
        pack_byte(s, j) < 256,
        bit_of(pack_byte(s, j), t as nat) == (bit_or_zero(s, 8 * j + t) == 1),
{
    lemma2_to64();
    let (b0, b1, b2, b3) = (
        bit_or_zero(s, 8 * j) as int,
        bit_or_zero(s, 8 * j + 1) as int,
        bit_or_zero(s, 8 * j + 2) as int,
        bit_or_zero(s, 8 * j + 3) as int,
    );
    let (b4, b5, b6, b7) = (
        bit_or_zero(s, 8 * j + 4) as int,
        bit_or_zero(s, 8 * j + 5) as int,
        bit_or_zero(s, 8 * j + 6) as int,
        bit_or_zero(s, 8 * j + 7) as int,
    );
    let v = pack_byte(s, j) as int;
    let a7 = b7;
    let a6 = b6 + 2 * a7;
    let a5 = b5 + 2 * a6;
    let a4 = b4 + 2 * a5;
    let a3 = b3 + 2 * a4;
    let a2 = b2 + 2 * a3;
    let a1 = b1 + 2 * a2;
    assert(v == b0 + 2 * a1);
    assert(v / 2 == a1 && v / 4 == a2 && v / 8 == a3 && v / 16 == a4);
    assert(v / 32 == a5 && v / 64 == a6 && v / 128 == a7 && v / 1 == v);
    assert(8 * j + 0 == 8 * j);
}

/// Packing keeps every bit at its place.
pub proof fn lemma_packed_bit(s: Seq<bool>, i: int)
    requires
        0 <= i < s.len(),
    ensures
        bytes_bits(pack_bits(s))[i] == s[i],
{
    lemma_bit_of_sum(s, i / 8, i % 8);
    assert(8 * (i / 8) + i % 8 == i);
}

} // verus!
