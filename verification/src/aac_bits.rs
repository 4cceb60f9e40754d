//! Bits of a byte string, most significant first.
use vstd::arithmetic::power2::*;
use vstd::prelude::*;

verus! {

/// Why AAC data could not be decoded.
#[derive(Clone, Copy, Debug, PartialEq, Eq, Structural)]
pub enum AacError {
    /// There is no input.
    EmptyInput,
    /// No sync word was found.
    NoSync,
    /// No frame could be decoded.
    NoFrames,
    /// Fewer bytes than a header has.
    HeaderTooShort,
    /// The header starts with another word than the sync word.
    BadSync(u16),
    /// The profile is the reserved one.
    ReservedProfile,
    /// The sampling frequency index has no frequency.
    BadSamplingIndex(u8),
    /// The frame length is below the header size.
    FrameBelowHeader {
        /// Frame length.
        length: u32,
        /// Header size.
        header: usize,
    },
    /// The frame length is beyond the data.
    FrameBeyondData {
        /// Frame length.
        length: u32,
        /// Bytes there are.
        available: usize,
    },
    /// The frame has several data blocks; the number is one less than their
    /// count.
    MultipleBlocks(u8),
    /// The bits ran out.
    OutOfBits,
    /// Gain control data is not supported.
    GainControl,
    /// The element type is not supported.
    ElementType(u32),
}

/// Bit `i` of `data`, most significant first.
pub open spec fn bit_at(data: Seq<u8>, i: int) -> nat {
    ((data[i / 8] as nat) / pow2((7 - i % 8) as nat)) % 2
}

/// The number spelled by the `n` bits from `pos` on, most significant first.
pub open spec fn bits_at(data: Seq<u8>, pos: int, n: nat) -> nat
    decreases n,
{
    if n == 0 {
        0
    } else {
        2 * bits_at(data, pos, (n - 1) as nat) + bit_at(data, pos + n - 1)
    }
}

/// A place in a byte string.
#[verifier::ext_equal]
pub struct BitPlace {
    /// The bytes.
    pub data: Seq<u8>,
    /// The number of bits read.
    pub pos: int,
}

impl BitPlace {
    /// `n` more bits are there.
    pub open spec fn has(self, n: int) -> bool {
        self.pos + n <= 8 * self.data.len()
    }

    /// `n` bits further.
    pub open spec fn ahead(self, n: int) -> BitPlace {
        BitPlace { pos: self.pos + n, ..self }
    }

    /// The next `n` bits as a number.
    pub open spec fn peek(self, n: nat) -> nat {
        bits_at(self.data, self.pos, n)
    }

    /// Behind the last bit.
    pub open spec fn at_end(self) -> BitPlace {
        BitPlace { pos: 8 * self.data.len() as int, ..self }
    }
}

/// `n` bits spell a number below `2^n`.
pub proof fn lemma_bits_at_bound(data: Seq<u8>, pos: int, n: nat)
    ensures
        bits_at(data, pos, n) < pow2(n),
    decreases n,
{
    lemma2_to64();
    if n > 0 {
        lemma_bits_at_bound(data, pos, (n - 1) as nat);
        lemma_pow2_unfold(n);
    }
}

/// Reads bits, most significant first.
pub struct BitReader<'a> {
    data: &'a [u8],
    byte_pos: usize,
    bit_pos: u8,
}

impl<'a> View for BitReader<'a> {
    type V = BitPlace;

    closed spec fn view(&self) -> BitPlace {
        BitPlace { data: self.data@, pos: 8 * self.byte_pos + (7 - self.bit_pos) }
    }
}

impl<'a> BitReader<'a> {
    /// The reader's invariant.
    pub closed spec fn wf(&self) -> bool {
        &&& self.bit_pos <= 7
        &&& self.byte_pos <= self.data@.len()
        &&& self.byte_pos == self.data@.len() ==> self.bit_pos == 7
    }

    /// A reader at the first bit of `data`.
    pub fn new(data: &'a [u8]) -> (r: BitReader<'a>)
        ensures
            r.wf(),
            r@ == (BitPlace { data: data@, pos: 0 }),
    {
        BitReader { data, byte_pos: 0, bit_pos: 7 }
    }

    /// Read `n` bits, at most 32. Where there are fewer, all of them are
    /// skipped and an error is returned.
    pub fn read_bits(&mut self, n: u8) -> (r: Result<u32, AacError>)
        requires
            old(self).wf(),
            n <= 32,
        ensures
            final(self).wf(),
            match r {
                Ok(v) => {
                    &&& old(self)@.has(n as int)
                    &&& v == old(self)@.peek(n as nat)
                    &&& final(self)@ == old(self)@.ahead(n as int)
                },
                Err(e) => {
                    &&& !old(self)@.has(n as int)
                    &&& e == AacError::OutOfBits
                    &&& final(self)@ == old(self)@.at_end()
                },
            },
    {
        let ghost start = self@;
        let mut result: u32 = 0;
        let mut k: u8 = 0;
        proof {
            lemma2_to64();
        }
        while k < n
            invariant
                self.wf(),
                k <= n <= 32,
                start == old(self)@,
                self@ == start.ahead(k as int),
                self@.pos <= 8 * self@.data.len(),
                result == start.peek(k as nat),
                result < pow2(k as nat),
            decreases n - k,
        {
            if self.byte_pos >= self.data.len() {
                proof {
                    assert(self@.pos == 8 * self.data@.len());
                }
                return Err(AacError::OutOfBits);
            }
            let byte: u8 = self.data[self.byte_pos];
            let shift: u8 = self.bit_pos;
            let bit: u8 = (byte >> shift) & 1;
            proof {
                let i = start.pos + k;
                assert(i / 8 == self.byte_pos && i % 8 == 7 - shift);
                vstd::bits::lemma_u8_shr_is_div(byte, shift);
                let x = byte >> shift;
                assert(x & 1 == x % 2) by (bit_vector);
                assert(bit == bit_at(start.data, i));
                lemma2_to64();
                lemma_pow2_unfold((k + 1) as nat);
                if k < 31 {
                    lemma_pow2_strictly_increases(k as nat, 31);
                }
                assert(result < 0x8000_0000 && bit < 2 ==> (result << 1) | (bit as u32) == 2
                    * result + bit) by (bit_vector);
            }
            result = (result << 1) | bit as u32;
            if self.bit_pos == 0 {
                self.byte_pos = self.byte_pos + 1;
                self.bit_pos = 7;
            } else {
                self.bit_pos = self.bit_pos - 1;
            }
            k = k + 1;
        }
        Ok(result)
    }

    /// Read one bit.
    pub fn read_bool(&mut self) -> (r: Result<bool, AacError>)
        requires
            old(self).wf(),
        ensures
            final(self).wf(),
            match r {
                Ok(v) => {
                    &&& old(self)@.has(1)
                    &&& v == (old(self)@.peek(1) == 1)
                    &&& final(self)@ == old(self)@.ahead(1)
                },
                Err(e) => {
                    &&& !old(self)@.has(1)
                    &&& e == AacError::OutOfBits
                    &&& final(self)@ == old(self)@.at_end()
                },
            },
    {
        proof {
            lemma2_to64();
            lemma_bits_at_bound(self@.data, self@.pos, 1);
        }
        match self.read_bits(1) {
            Ok(v) => Ok(v != 0),
            Err(e) => Err(e),
        }
    }

    /// The whole bytes that are left: a byte that has been read in part does not
    /// count.
    pub fn bytes_remaining(&self) -> (r: usize)
        requires
            self.wf(),
        ensures
            r == (8 * self@.data.len() - self@.pos) / 8,
    {
        if self.bit_pos == 7 {
            self.data.len() - self.byte_pos
        } else {
            self.data.len() - self.byte_pos - 1
        }
    }

    /// Whether any bit is left.
    pub fn has_bits(&self) -> (r: bool)
        requires
            self.wf(),
        ensures
            r == self@.has(1),
    {
        self.byte_pos < self.data.len()
    }
}

/// Reading `n` bits and then `m` bits gives the number that reading all of them
/// at once gives, cut in two.
pub proof fn law_parts_make_up_the_whole(place: BitPlace, n: nat, m: nat)
    ensures
        place.peek(n + m) == place.peek(n) * pow2(m) + place.ahead(n as int).peek(m),
    decreases m,
{
    lemma2_to64();
    if m == 0 {
        assert(place.peek(n) * 1 == place.peek(n));
    } else {
        let k = (m - 1) as nat;
        law_parts_make_up_the_whole(place, n, k);
        lemma_pow2_unfold(m);
        assert(n + m - 1 == n + k);
        assert(place.peek(n) * (2 * pow2(k)) == 2 * (place.peek(n) * pow2(k))) by (nonlinear_arith);
    }
}

/// Reading eight bits at the start of a byte gives the byte.
pub proof fn law_whole_bytes_are_read(data: Seq<u8>, i: int)
    requires
        0 <= i < data.len(),
    ensures
        (BitPlace { data, pos: 8 * i }).peek(8) == data[i],
{
    lemma2_to64();
    reveal_with_fuel(bits_at, 9);
    let b = data[i] as nat;
    assert forall|k: int| 0 <= k < 8 implies #[trigger] bit_at(data, 8 * i + k) == b / pow2(
        (7 - k) as nat,
    ) % 2 by {
        assert((8 * i + k) / 8 == i && (8 * i + k) % 8 == k);
    }
    assert(bit_at(data, 8 * i + 1 - 1) == bit_at(data, 8 * i + 0));
    assert(b / 128 < 2 && b / 128 % 2 == b / 128);
    assert(b / 64 == 2 * (b / 128) + b / 64 % 2 && b / 32 == 2 * (b / 64) + b / 32 % 2);
    assert(b / 16 == 2 * (b / 32) + b / 16 % 2 && b / 8 == 2 * (b / 16) + b / 8 % 2);
    assert(b / 4 == 2 * (b / 8) + b / 4 % 2 && b / 2 == 2 * (b / 4) + b / 2 % 2);
    assert(b == 2 * (b / 2) + b % 2 && b / 1 == b);
}

} // verus!
