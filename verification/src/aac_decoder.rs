//! AAC-LC up to its quantised spectra: ADTS framing, the channel stream syntax,
//! and the Huffman codes of scale factors and coefficients.
//!
//! All spectral data is read with codebook 11; section data is not parsed, TNS
//! data is skipped, and a frame has one data block. What turns the integers
//! into samples works on floating point and is left to the caller.
use crate::aac_bits;
use crate::aac_bits::{AacError, BitPlace, BitReader};
use vstd::arithmetic::power2::*;
use vstd::prelude::*;
use vstd::slice::slice_subrange;

verus! {

/// Sampling frequencies by index.
pub const SAMPLING_FREQ_TABLE: [u32; 13] = [
    96000, 88200, 64000, 48000, 44100, 32000, 24000, 22050, 16000, 12000, 11025, 8000, 7350,
];

/// Scale-factor band edges of a long window at 44100 Hz.
pub const SFB_LONG_44100: [usize; 34] = [
    0, 4, 8, 12, 16, 20, 24, 28, 32, 36, 40, 48,
    56, 64, 72, 80, 96, 112, 128, 144, 160, 192, 224, 256,
    288, 320, 384, 448, 512, 576, 640, 768, 896, 1024,
];

/// Scale-factor band edges of a long window at 48000 Hz.
pub const SFB_LONG_48000: [usize; 34] = [
    0, 4, 8, 12, 16, 20, 24, 28, 32, 36, 40, 48,
    56, 64, 72, 80, 96, 112, 128, 144, 160, 192, 224, 256,
    288, 320, 384, 448, 512, 576, 640, 768, 896, 1024,
];

/// Scale-factor band edges of a long window at 32000 Hz.
pub const SFB_LONG_32000: [usize; 33] = [
    0, 4, 8, 12, 16, 20, 24, 28, 32, 36, 40, 48,
    56, 64, 72, 80, 96, 112, 128, 160, 192, 224, 256, 288,
    320, 384, 448, 512, 576, 640, 768, 896, 1024,
];

/// Scale-factor band edges of a long window at all other sample rates.
pub const SFB_LONG_22050: [usize; 34] = [
    0, 4, 8, 12, 16, 20, 24, 28, 32, 36, 40, 48,
    56, 64, 72, 80, 96, 112, 128, 144, 160, 192, 224, 256,
    288, 320, 384, 448, 512, 576, 640, 768, 896, 1024,
];

/// Codewords of the scale-factor codebook.
pub const SF_CODES: [u32; 33] = [
    1, 2, 3, 0, 1, 4, 5, 12, 13, 14, 15, 32,
    33, 34, 35, 72, 73, 74, 75, 152, 153, 154, 155, 312,
    313, 314, 315, 79, 80, 81, 82, 83, 84,
];

/// Their lengths in bits.
pub const SF_LENGTHS: [u8; 33] = [
    1, 3, 3, 4, 4, 5, 5, 6, 6, 6, 6, 7,
    7, 7, 7, 8, 8, 8, 8, 9, 9, 9, 9, 10,
    10, 10, 10, 8, 8, 8, 8, 8, 8,
];

/// Their symbols: the difference of two scale factors, plus 60.
pub const SF_SYMBOLS: [u8; 33] = [
    60, 61, 59, 62, 58, 63, 57, 64, 56, 65, 55, 66,
    54, 67, 53, 68, 52, 69, 51, 70, 50, 71, 49, 72,
    48, 73, 47, 74, 46, 75, 45, 76, 44,
];

/// Codewords of spectral codebook 11.
pub const CB11_CODES: [u32; 28] = [
    0, 2, 3, 8, 9, 10, 22, 23, 24, 25, 26, 54,
    55, 56, 57, 58, 59, 60, 122, 123, 124, 125, 252, 253,
    254, 510, 511, 65408,
];

/// Their lengths in bits.
pub const CB11_LENGTHS: [u8; 28] = [
    2, 3, 3, 4, 4, 4, 5, 5, 5, 5, 5, 6,
    6, 6, 6, 6, 6, 6, 7, 7, 7, 7, 8, 8,
    8, 9, 9, 16,
];

/// The first magnitude of each pair.
pub const CB11_X: [u8; 28] = [
    0, 1, 0, 1, 2, 0, 2, 1, 2, 3, 0, 3,
    1, 3, 2, 3, 4, 0, 4, 1, 4, 2, 4, 3,
    4, 5, 0, 16,
];

/// The second magnitude of each pair.
pub const CB11_Y: [u8; 28] = [
    0, 0, 1, 1, 0, 2, 1, 2, 2, 0, 3, 1,
    3, 2, 3, 3, 0, 4, 1, 4, 2, 4, 3, 4,
    4, 0, 5, 16,
];

/// What the scale-factor symbols are offset by.
pub const SF_DELTA: i32 = 60;

/// The scale-factor band edges of a long window at a sample rate.
pub open spec fn sfb_edges(sample_rate: u32) -> Seq<usize> {
    if sample_rate == 48000 {
        SFB_LONG_48000@
    } else if sample_rate == 44100 {
        SFB_LONG_44100@
    } else if sample_rate == 32000 {
        SFB_LONG_32000@
    } else {
        SFB_LONG_22050@
    }
}

/// The scale-factor band edges of a long window at a sample rate.
pub fn sfb_offsets_long(sample_rate: u32) -> (r: &'static [usize])
    ensures
        r@ == sfb_edges(sample_rate),
        r@.len() > 0,
        r@.last() == 1024,
        forall|i: int| 0 <= i < r@.len() ==> #[trigger] r@[i] <= 1024,
{
    match sample_rate {
        48000 => &SFB_LONG_48000,
        44100 => &SFB_LONG_44100,
        32000 => &SFB_LONG_32000,
        _ => &SFB_LONG_22050,
    }
}

/// An ADTS frame.
#[derive(Clone, Copy, Debug)]
pub struct AdtsFrame<'a> {
    /// Number of channels.
    pub channels: u8,
    /// Sample rate in Hz.
    pub sample_rate: u32,
    /// Samples per frame and channel, always 1024.
    pub pcm_samples: usize,
    /// The bytes behind the header.
    pub payload: &'a [u8],
}

/// The fields of an ADTS header.
pub struct Adts {
    pub channels: u8,
    pub sample_rate: u32,
    /// Size of the header: 7 bytes, 9 with a checksum.
    pub header: int,
    /// Length of the frame with its header.
    pub length: int,
}

/// The first twelve bits.
pub open spec fn sync_word(data: Seq<u8>) -> int {
    data[0] * 16 + data[1] / 16
}

/// The frame length field of a header.
pub open spec fn frame_length(data: Seq<u8>) -> int {
    (data[3] % 4) * 2048 + data[4] * 8 + data[5] / 32
}

/// The number of channels of a channel configuration; without one, stereo.
pub open spec fn channel_count(config: int) -> int {
    if config == 0 {
        2
    } else if config == 7 {
        8
    } else {
        config
    }
}

/// The header at the start of `data`.
#[verifier::opaque]
pub open spec fn adts_header(data: Seq<u8>) -> Result<Adts, AacError> {
    if data.len() < 7 {
        Err(AacError::HeaderTooShort)
    } else if sync_word(data) != 0xFFF {
        Err(AacError::BadSync(sync_word(data) as u16))
    } else if data[2] / 64 == 3 {
        Err(AacError::ReservedProfile)
    } else if data[2] / 4 % 16 > 12 {
        Err(AacError::BadSamplingIndex((data[2] / 4 % 16) as u8))
    } else {
        let header = if data[1] % 2 == 0 {
            9int
        } else {
            7
        };
        let length = frame_length(data);
        if length < header {
            Err(AacError::FrameBelowHeader { length: length as u32, header: header as usize })
        } else if length > data.len() {
            Err(
                AacError::FrameBeyondData {
                    length: length as u32,
                    available: data.len() as usize,
                },
            )
        } else if data[6] % 4 > 0 {
            Err(AacError::MultipleBlocks((data[6] % 4) as u8))
        } else {
            Ok(
                Adts {
                    channels: channel_count((data[2] % 2) * 4 + data[3] / 64) as u8,
                    sample_rate: SAMPLING_FREQ_TABLE[(data[2] / 4 % 16) as int],
                    header,
                    length,
                },
            )
        }
    }
}

/// Parse the ADTS header at the start of `data`.
pub fn parse_adts_header<'a>(data: &'a [u8]) -> (r: Result<AdtsFrame<'a>, AacError>)
    ensures
        match (r, adts_header(data@)) {
            (Ok(f), Ok(h)) => {
                &&& f.channels == h.channels
                &&& f.sample_rate == h.sample_rate
                &&& f.pcm_samples == 1024
                &&& f.payload@ == data@.subrange(h.header, h.length)
            },
            (Err(e), Err(d)) => e == d,
            _ => false,
        },
{
    proof {
        reveal(adts_header);
    }
    if data.len() < 7 {
        return Err(AacError::HeaderTooShort);
    }
    let sync: u16 = data[0] as u16 * 16 + data[1] as u16 / 16;
    if sync != 0xFFF {
        return Err(AacError::BadSync(sync));
    }
    if data[2] / 64 == 3 {
        return Err(AacError::ReservedProfile);
    }
    let index: u8 = data[2] / 4 % 16;
    if index > 12 {
        return Err(AacError::BadSamplingIndex(index));
    }
    let sample_rate: u32 = SAMPLING_FREQ_TABLE[index as usize];
    let config: u8 = (data[2] % 2) * 4 + data[3] / 64;
    let channels: u8 = if config == 0 {
        2
    } else if config == 7 {
        8
    } else {
        config
    };
    let length: u32 = (data[3] % 4) as u32 * 2048 + data[4] as u32 * 8 + data[5] as u32 / 32;
    let header: usize = if data[1] % 2 == 0 {
        9
    } else {
        7
    };
    if length < header as u32 {
        return Err(AacError::FrameBelowHeader { length, header });
    }
    if length as usize > data.len() {
        return Err(AacError::FrameBeyondData { length, available: data.len() });
    }
    let blocks: u8 = data[6] % 4;
    if blocks > 0 {
        return Err(AacError::MultipleBlocks(blocks));
    }
    Ok(
        AdtsFrame {
            channels,
            sample_rate,
            pcm_samples: 1024,
            payload: slice_subrange(data, header, length as usize),
        },
    )
}

/// A valid header has the frame length of its field, which covers the header
/// and ends within the data.
pub proof fn lemma_header_length(data: Seq<u8>)
    ensures
        adts_header(data) matches Ok(h) ==> 7 <= h.header <= h.length <= data.len() && h.length
            == frame_length(data) && 7 <= data.len(),
{
    reveal(adts_header);
}

/// The first place from `i` on where a sync word stands.
pub open spec fn sync_from(data: Seq<u8>, i: int) -> Option<int>
    decreases data.len() - i,
{
    if i + 1 >= data.len() {
        None
    } else if data[i] * 16 + data[i + 1] / 16 == 0xFFF {
        Some(i)
    } else {
        sync_from(data, i + 1)
    }
}

/// The first place in `data` where a sync word stands.
pub fn find_adts_sync(data: &[u8]) -> (r: Option<usize>)
    ensures
        match (r, sync_from(data@, 0)) {
            (Some(i), Some(j)) => i == j && i + 1 < data@.len(),
            (None, None) => true,
            _ => false,
        },
{
    let mut i: usize = 0;
    while data.len() >= 2 && i < data.len() - 1
        invariant
            i <= data@.len(),
            sync_from(data@, i as int) == sync_from(data@, 0),
        decreases data@.len() - i,
    {
        let sync: u16 = data[i] as u16 * 16 + data[i + 1] as u16 / 16;
        if sync == 0xFFF {
            return Some(i);
        }
        i = i + 1;
    }
    None
}

/// What reading a syntax element gives, and where it ends.
pub enum Read<T> {
    /// The element.
    Done(T, BitPlace),
    /// Why there is none.
    Failed(AacError, BitPlace),
}

/// The bits ran out.
pub open spec fn out_of_bits<T>(p: BitPlace) -> Read<T> {
    Read::Failed(AacError::OutOfBits, p.at_end())
}

/// Header of an individual channel stream.
#[derive(Clone, Debug)]
pub struct IcsInfo {
    /// 0: long, 1: long start, 2: eight short, 3: long stop.
    pub window_sequence: u8,
    /// 0: sine, 1: Kaiser-Bessel.
    pub window_shape: u8,
    /// Number of active scale-factor bands of a window.
    pub max_sfb: u8,
    /// Grouping bits of short windows.
    pub scale_factor_grouping: u8,
    /// 1 for long windows, 8 for short ones.
    pub num_windows: usize,
    /// Number of window groups.
    pub num_window_groups: usize,
    /// Number of windows in each group.
    pub window_group_length: Vec<usize>,
}

/// A channel stream header as numbers.
#[verifier::ext_equal]
pub struct Ics {
    pub sequence: int,
    pub shape: int,
    pub max_sfb: int,
    pub grouping: int,
    /// Number of windows in each group.
    pub groups: Seq<int>,
}

impl IcsInfo {
    /// The number of coefficients: 128 for each short window, or 1024.
    pub open spec fn size(&self) -> int {
        if self.window_sequence == 2 {
            128 * self.num_windows
        } else {
            1024
        }
    }

    /// The header holds `i`.
    pub open spec fn holds(&self, i: Ics) -> bool {
        &&& self.window_sequence == i.sequence
        &&& self.window_shape == i.shape
        &&& self.max_sfb == i.max_sfb
        &&& self.scale_factor_grouping == i.grouping
        &&& self.num_windows == (if i.sequence == 2 {
            8int
        } else {
            1
        })
        &&& self.num_window_groups == i.groups.len()
        &&& self.window_group_length@.len() == i.groups.len()
        &&& forall|g: int|
            0 <= g < i.groups.len() ==> #[trigger] self.window_group_length@[g] == i.groups[g]
    }
}

/// The groups of the first `n + 1` of eight short windows: a zero bit of the
/// grouping starts a new group, a one bit extends the last one.
pub open spec fn window_groups(grouping: nat, n: nat) -> Seq<int>
    decreases n,
{
    if n == 0 {
        seq![1int]
    } else {
        let before = window_groups(grouping, (n - 1) as nat);
        if (grouping / pow2((7 - n) as nat)) % 2 == 0 {
            before.push(1)
        } else {
            before.update(before.len() - 1, before.last() + 1)
        }
    }
}

/// The channel stream header at a place.
pub open spec fn ics_at(p: BitPlace) -> Read<Ics> {
    if !p.has(4) {
        out_of_bits(p)
    } else if p.ahead(1).peek(2) == 2 {
        if !p.has(15) {
            out_of_bits(p)
        } else {
            let grouping = p.ahead(8).peek(7);
            Read::Done(
                Ics {
                    sequence: 2,
                    shape: p.ahead(3).peek(1) as int,
                    max_sfb: p.ahead(4).peek(4) as int,
                    grouping: grouping as int,
                    groups: window_groups(grouping, 7),
                },
                p.ahead(15),
            )
        }
    } else {
        if !p.has(10) {
            out_of_bits(p)
        } else {
            Read::Done(
                Ics {
                    sequence: p.ahead(1).peek(2) as int,
                    shape: p.ahead(3).peek(1) as int,
                    max_sfb: p.ahead(4).peek(6) as int,
                    grouping: 0,
                    groups: seq![1int],
                },
                p.ahead(10),
            )
        }
    }
}

/// The groups of short windows: at least one, at most one for each window,
/// none empty.
pub proof fn lemma_window_groups(grouping: nat, n: nat)
    requires
        n <= 7,
    ensures
        1 <= window_groups(grouping, n).len() <= n + 1,
        forall|g: int|
            0 <= g < window_groups(grouping, n).len() ==> 1 <= #[trigger] window_groups(
                grouping,
                n,
            )[g] <= n + 1,
    decreases n,
{
    if n > 0 {
        lemma_window_groups(grouping, (n - 1) as nat);
    }
}

/// The sum of a sequence.
pub open spec fn total_of(s: Seq<int>) -> int
    decreases s.len(),
{
    if s.len() == 0 {
        0
    } else {
        total_of(s.drop_last()) + s.last()
    }
}

/// The groups of short windows make up all the windows.
pub proof fn law_groups_make_up_the_windows(grouping: nat, n: nat)
    requires
        n <= 7,
    ensures
        total_of(window_groups(grouping, n)) == n + 1,
    decreases n,
{
    let s = window_groups(grouping, n);
    if n > 0 {
        let before = window_groups(grouping, (n - 1) as nat);
        law_groups_make_up_the_windows(grouping, (n - 1) as nat);
        lemma_window_groups(grouping, (n - 1) as nat);
        if (grouping / pow2((7 - n) as nat)) % 2 == 0 {
            assert(s.drop_last() =~= before);
        } else {
            assert(s.drop_last() =~= before.drop_last());
        }
    } else {
        assert(s.drop_last() =~= Seq::empty());
        assert(total_of(s.drop_last()) == 0);
    }
}

/// The groups of eight short windows.
fn groups_of(grouping: u8) -> (r: Vec<usize>)
    requires
        grouping < 128,
    ensures
        r@.len() == window_groups(grouping as nat, 7).len(),
        forall|g: int|
            0 <= g < r@.len() ==> #[trigger] r@[g] == window_groups(grouping as nat, 7)[g],
{
    let mut groups: Vec<usize> = Vec::new();
    groups.push(1);
    let mut n: u8 = 1;
    while n < 8
        invariant
            1 <= n <= 8,
            groups@.len() == window_groups(grouping as nat, (n - 1) as nat).len(),
            forall|g: int|
                0 <= g < groups@.len() ==> #[trigger] groups@[g] == window_groups(
                    grouping as nat,
                    (n - 1) as nat,
                )[g],
        decreases 8 - n,
    {
        proof {
            lemma_window_groups(grouping as nat, (n - 1) as nat);
            vstd::bits::lemma_u8_shr_is_div(grouping, (7 - n) as u8);
        }
        let shifted: u8 = grouping >> (7 - n);
        if shifted % 2 == 0 {
            groups.push(1);
        } else {
            let last: usize = groups.len() - 1;
            let more: usize = groups[last] + 1;
            groups.set(last, more);
        }
        n = n + 1;
    }
    groups
}

/// Parse the header of an individual channel stream.
pub fn parse_ics_info(br: &mut BitReader<'_>) -> (r: Result<IcsInfo, AacError>)
    requires
        old(br).wf(),
    ensures
        final(br).wf(),
        match (r, ics_at(old(br)@)) {
            (Ok(i), Read::Done(j, p)) => i.holds(j) && final(br)@ == p,
            (Err(e), Read::Failed(f, p)) => e == f && final(br)@ == p,
            _ => false,
        },
{
    let ghost p = br@;
    proof {
        lemma2_to64();
        aac_bits::lemma_bits_at_bound(p.data, p.pos + 1, 2);
        aac_bits::lemma_bits_at_bound(p.data, p.pos + 3, 1);
        aac_bits::lemma_bits_at_bound(p.data, p.pos + 4, 4);
        aac_bits::lemma_bits_at_bound(p.data, p.pos + 4, 6);
        aac_bits::lemma_bits_at_bound(p.data, p.pos + 8, 7);
    }
    match br.read_bool() {
        Ok(_) => {},
        Err(e) => {
            return Err(e);
        },
    }
    let sequence: u8 = match br.read_bits(2) {
        Ok(v) => v as u8,
        Err(e) => {
            return Err(e);
        },
    };
    let shape: u8 = match br.read_bits(1) {
        Ok(v) => v as u8,
        Err(e) => {
            return Err(e);
        },
    };
    let sfb_bits: u8 = if sequence == 2 {
        4
    } else {
        6
    };
    let max_sfb: u8 = match br.read_bits(sfb_bits) {
        Ok(v) => v as u8,
        Err(e) => {
            return Err(e);
        },
    };
    if sequence == 2 {
        let grouping: u8 = match br.read_bits(7) {
            Ok(v) => v as u8,
            Err(e) => {
                return Err(e);
            },
        };
        let groups: Vec<usize> = groups_of(grouping);
        Ok(
            IcsInfo {
                window_sequence: sequence,
                window_shape: shape,
                max_sfb,
                scale_factor_grouping: grouping,
                num_windows: 8,
                num_window_groups: groups.len(),
                window_group_length: groups,
            },
        )
    } else {
        let mut groups: Vec<usize> = Vec::new();
        groups.push(1);
        Ok(
            IcsInfo {
                window_sequence: sequence,
                window_shape: shape,
                max_sfb,
                scale_factor_grouping: 0,
                num_windows: 1,
                num_window_groups: 1,
                window_group_length: groups,
            },
        )
    }
}

/// The first entry from `i` on with `n` bits and codeword `acc`.
pub open spec fn entry_from(
    codes: Seq<u32>,
    lengths: Seq<u8>,
    n: int,
    acc: nat,
    i: int,
) -> Option<int>
    decreases codes.len() - i,
{
    if i >= codes.len() {
        None
    } else if lengths[i] == n && codes[i] == acc {
        Some(i)
    } else {
        entry_from(codes, lengths, n, acc, i + 1)
    }
}

/// The entry whose codeword stands at `p`, `n` bits of which are known not to
/// be one; `None` if no codeword of up to `most` bits does.
pub open spec fn code_at(
    p: BitPlace,
    codes: Seq<u32>,
    lengths: Seq<u8>,
    n: nat,
    most: nat,
) -> Read<Option<int>>
    decreases most - n,
{
    if n >= most {
        Read::Done(None, p.ahead(n as int))
    } else if !p.has(n + 1int) {
        out_of_bits(p)
    } else {
        match entry_from(codes, lengths, n + 1int, p.peek(n + 1), 0) {
            Some(i) => Read::Done(Some(i), p.ahead(n + 1int)),
            None => code_at(p, codes, lengths, n + 1, most),
        }
    }
}

/// Read the codeword of a table of codewords and their lengths.
fn read_code(br: &mut BitReader<'_>, codes: &[u32], lengths: &[u8], most: u8) -> (r: Result<
    Option<usize>,
    AacError,
>)
    requires
        old(br).wf(),
        codes@.len() == lengths@.len(),
        most <= 31,
    ensures
        final(br).wf(),
        match (r, code_at(old(br)@, codes@, lengths@, 0, most as nat)) {
            (Ok(Some(i)), Read::Done(Some(j), p)) => i == j && i < codes@.len() && final(br)@ == p,
            (Ok(None), Read::Done(None, p)) => final(br)@ == p,
            (Err(e), Read::Failed(f, p)) => e == f && final(br)@ == p,
            _ => false,
        },
{
    let ghost p = br@;
    let ghost goal = code_at(p, codes@, lengths@, 0, most as nat);
    let mut acc: u32 = 0;
    let mut n: u8 = 0;
    proof {
        lemma2_to64();
    }
    while n < most
        invariant
            br.wf(),
            p == old(br)@,
            n <= most <= 31,
            codes@.len() == lengths@.len(),
            br@ == p.ahead(n as int),
            n == 0 || p.has(n as int),
            acc == p.peek(n as nat),
            acc < pow2(n as nat),
            goal == code_at(p, codes@, lengths@, 0, most as nat),
            goal == code_at(p, codes@, lengths@, n as nat, most as nat),
        decreases most - n,
    {
        proof {
            lemma2_to64();
            lemma_pow2_unfold((n + 1) as nat);
            if n < 31 {
                lemma_pow2_strictly_increases(n as nat, 31);
            }
            assert(br@.peek(1) == aac_bits::bit_at(p.data, p.pos + n)) by {
                reveal_with_fuel(aac_bits::bits_at, 2);
            }
        }
        let bit: u32 = match br.read_bits(1) {
            Ok(v) => v,
            Err(e) => {
                return Err(e);
            },
        };
        acc = 2 * acc + bit;
        n = n + 1;
        let mut i: usize = 0;
        while i < codes.len()
            invariant
                codes@.len() == lengths@.len(),
                i <= codes@.len(),
                entry_from(codes@, lengths@, n as int, acc as nat, 0) == entry_from(
                    codes@,
                    lengths@,
                    n as int,
                    acc as nat,
                    i as int,
                ),
                1 <= n <= most,
                br.wf(),
                p == old(br)@,
                br@ == p.ahead(n as int),
                p.has(n as int),
                acc == p.peek(n as nat),
                goal == code_at(p, codes@, lengths@, 0, most as nat),
                goal == code_at(p, codes@, lengths@, (n - 1) as nat, most as nat),
            decreases codes@.len() - i,
        {
            if lengths[i] == n && codes[i] == acc {
                return Ok(Some(i));
            }
            i = i + 1;
        }
    }
    Ok(None)
}

/// An entry that fits is found.
pub proof fn lemma_entry_found(codes: Seq<u32>, lengths: Seq<u8>, n: int, acc: nat, i: int, w: int)
    requires
        0 <= i <= w < codes.len(),
        lengths[w] == n,
        codes[w] == acc,
    ensures
        entry_from(codes, lengths, n, acc, i) is Some,
    decreases codes.len() - i,
{
    if i < w {
        lemma_entry_found(codes, lengths, n, acc, i + 1, w);
    }
}

/// The entry found is one of the table.
pub proof fn lemma_entry_range(codes: Seq<u32>, lengths: Seq<u8>, n: int, acc: nat, i: int)
    requires
        0 <= i,
    ensures
        entry_from(codes, lengths, n, acc, i) matches Some(j) ==> i <= j < codes.len() && lengths[j]
            == n && codes[j] == acc,
    decreases codes.len() - i,
{
    if i < codes.len() {
        lemma_entry_range(codes, lengths, n, acc, i + 1);
    }
}

/// Dropping the last bits of a number.
pub proof fn lemma_peek_prefix(p: BitPlace, n: nat)
    ensures
        p.peek(n + 1) / 2 == p.peek(n),
        p.peek(n + 1) == 2 * p.peek(n) + p.peek(n + 1) % 2,
{
    assert(aac_bits::bit_at(p.data, p.pos + n) < 2);
}

/// Where a codeword of `k + 1` bits stands, reading finds one of at most that
/// length, unless the bits run out.
proof fn lemma_code_found(
    p: BitPlace,
    codes: Seq<u32>,
    lengths: Seq<u8>,
    n: nat,
    k: nat,
    most: nat,
    w: int,
)
    requires
        n <= k < most,
        0 <= w < codes.len(),
        lengths[w] == k + 1,
        codes[w] == p.peek(k + 1),
    ensures
        match code_at(p, codes, lengths, n, most) {
            Read::Done(Some(i), q) => 0 <= i < codes.len() && lengths[i] <= k + 1,
            Read::Done(None, _) => false,
            Read::Failed(e, q) => e == AacError::OutOfBits && q == p.at_end() && !p.has(k + 1int),
        },
    decreases k - n,
{
    lemma_entry_range(codes, lengths, n + 1int, p.peek(n + 1), 0);
    if n == k {
        lemma_entry_found(codes, lengths, k + 1int, p.peek(k + 1), 0, w);
    } else {
        lemma_code_found(p, codes, lengths, n + 1, k, most, w);
    }
}

/// Every sequence of six bits starts with a codeword of the scale-factor
/// codebook, so none is ever missing.
pub proof fn law_scale_factor_code_is_complete(p: BitPlace)
    ensures
        match code_at(p, SF_CODES@, SF_LENGTHS@, 0, 19) {
            Read::Done(Some(i), _) => 0 <= i < 33,
            Read::Done(None, _) => false,
            Read::Failed(e, q) => e == AacError::OutOfBits && q == p.at_end() && !p.has(6),
        },
{
    lemma2_to64();
    lemma_peek_prefix(p, 1);
    lemma_peek_prefix(p, 2);
    lemma_peek_prefix(p, 3);
    lemma_peek_prefix(p, 4);
    lemma_peek_prefix(p, 5);
    aac_bits::lemma_bits_at_bound(p.data, p.pos, 6);
    let (c, l) = (SF_CODES@, SF_LENGTHS@);
    let v = p.peek(6);
    let (k, w): (nat, int) = if v >= 32 {
        (0, 0)
    } else if v >= 24 {
        (2, 2)
    } else if v >= 16 {
        (2, 1)
    } else if v < 4 {
        (3, 3)
    } else if v < 8 {
        (3, 4)
    } else if v < 10 {
        (4, 5)
    } else if v < 12 {
        (4, 6)
    } else if v == 12 {
        (5, 7)
    } else if v == 13 {
        (5, 8)
    } else if v == 14 {
        (5, 9)
    } else {
        (5, 10)
    };
    assert(l[w] == k + 1 && c[w] == p.peek(k + 1));
    lemma_code_found(p, c, l, 0, k, 19, w);
}

/// Every sequence of nine bits starts with a codeword of spectral codebook 11
/// for two magnitudes of at most 5, so none is ever missing.
pub proof fn law_spectral_code_is_complete(p: BitPlace)
    ensures
        match code_at(p, CB11_CODES@, CB11_LENGTHS@, 0, 20) {
            Read::Done(Some(i), _) => 0 <= i < 28 && CB11_X[i] <= 5 && CB11_Y[i] <= 5,
            Read::Done(None, _) => false,
            Read::Failed(e, q) => e == AacError::OutOfBits && q == p.at_end() && !p.has(9),
        },
{
    lemma2_to64();
    lemma_peek_prefix(p, 2);
    lemma_peek_prefix(p, 3);
    lemma_peek_prefix(p, 4);
    lemma_peek_prefix(p, 5);
    lemma_peek_prefix(p, 6);
    lemma_peek_prefix(p, 7);
    lemma_peek_prefix(p, 8);
    aac_bits::lemma_bits_at_bound(p.data, p.pos, 9);
    let (c, l) = (CB11_CODES@, CB11_LENGTHS@);
    let (v2, v3, v4, v5) = (p.peek(2), p.peek(3), p.peek(4), p.peek(5));
    let (v6, v7, v8, v9) = (p.peek(6), p.peek(7), p.peek(8), p.peek(9));
    let (k, w): (nat, int) = if v2 == 0 {
        (1, 0)
    } else if v3 == 2 {
        (2, 1)
    } else if v3 == 3 {
        (2, 2)
    } else if v4 <= 10 {
        (3, v4 - 5)
    } else if v5 <= 26 {
        (4, v5 - 16)
    } else if v6 <= 55 {
        (5, v6 - 43)
    } else if v6 <= 60 {
        (5, v6 - 43)
    } else if v7 <= 125 {
        (6, v7 - 104)
    } else if v8 <= 254 {
        (7, v8 - 230)
    } else {
        (8, v9 - 485)
    };
    assert(l[w] == k + 1 && c[w] == p.peek(k + 1));
    lemma_code_found(p, c, l, 0, k, 20, w);
}

/// The difference to the next scale factor.
pub open spec fn sf_delta_at(p: BitPlace) -> Read<int> {
    match code_at(p, SF_CODES@, SF_LENGTHS@, 0, 19) {
        Read::Done(Some(i), q) => Read::Done(SF_SYMBOLS[i] - SF_DELTA, q),
        Read::Done(None, q) => Read::Done(0, q),
        Read::Failed(e, q) => Read::Failed(e, q),
    }
}

/// Read the difference to the next scale factor.
pub fn decode_sf_huffman(br: &mut BitReader<'_>) -> (r: Result<i32, AacError>)
    requires
        old(br).wf(),
    ensures
        final(br).wf(),
        match (r, sf_delta_at(old(br)@)) {
            (Ok(d), Read::Done(e, p)) => d == e && -60 <= d <= 195 && final(br)@ == p,
            (Err(e), Read::Failed(f, p)) => e == f && final(br)@ == p,
            _ => false,
        },
{
    proof {
        law_scale_factor_code_is_complete(br@);
    }
    match read_code(br, &SF_CODES, &SF_LENGTHS, 19) {
        Ok(Some(i)) => Ok(SF_SYMBOLS[i] as i32 - SF_DELTA),
        Ok(None) => Ok(0),
        Err(e) => Err(e),
    }
}

/// A scale factor within the range that can be applied.
pub open spec fn clamped(sf: int) -> i16 {
    (if sf < -200 {
        -200
    } else if sf > 255 {
        255
    } else {
        sf
    }) as i16
}

/// Scale factors and the sum they have come to, which is not clamped.
pub struct Factors {
    pub list: Seq<i16>,
    pub sum: int,
}

/// `n` scale factors: each is the one before plus a difference, from `gain`
/// on.
pub open spec fn scale_factors_at(p: BitPlace, gain: int, n: nat) -> Read<Factors>
    decreases n,
{
    if n == 0 {
        Read::Done(Factors { list: Seq::empty(), sum: gain }, p)
    } else {
        match scale_factors_at(p, gain, (n - 1) as nat) {
            Read::Failed(e, q) => Read::Failed(e, q),
            Read::Done(f, q) => match sf_delta_at(q) {
                Read::Failed(e, q1) => Read::Failed(e, q1),
                Read::Done(d, q1) => Read::Done(
                    Factors { list: f.list.push(clamped(f.sum + d)), sum: f.sum + d },
                    q1,
                ),
            },
        }
    }
}

/// More scale factors fail where fewer do.
proof fn lemma_scale_factors_fail(p: BitPlace, gain: int, n: nat, m: nat)
    requires
        n <= m,
        scale_factors_at(p, gain, n) is Failed,
    ensures
        scale_factors_at(p, gain, m) == scale_factors_at(p, gain, n),
    decreases m,
{
    if n < m {
        lemma_scale_factors_fail(p, gain, n, (m - 1) as nat);
    }
}

/// Read the scale factors of all bands of all window groups: each is the one
/// before plus a difference, from `global_gain` on.
pub fn decode_scale_factors(br: &mut BitReader<'_>, ics: &IcsInfo, global_gain: u8) -> (r: Result<
    Vec<i16>,
    AacError,
>)
    requires
        old(br).wf(),
        ics.num_window_groups <= 8,
    ensures
        final(br).wf(),
        match (
            r,
            scale_factors_at(
                old(br)@,
                global_gain as int,
                (ics.num_window_groups * ics.max_sfb) as nat,
            ),
        ) {
            (Ok(v), Read::Done(f, p)) => v@ == f.list && final(br)@ == p,
            (Err(e), Read::Failed(f, p)) => e == f && final(br)@ == p,
            _ => false,
        },
{
    let ghost p = br@;
    proof {
        let (g, m) = (ics.num_window_groups as int, ics.max_sfb as int);
        assert(0 <= g * m <= 8 * 255) by (nonlinear_arith)
            requires
                0 <= g <= 8,
                0 <= m <= 255,
        ;
    }
    let total: usize = ics.num_window_groups * ics.max_sfb as usize;
    let mut factors: Vec<i16> = Vec::new();
    let mut sum: i32 = global_gain as i32;
    let mut n: usize = 0;
    while n < total
        invariant
            br.wf(),
            p == old(br)@,
            n <= total <= 8 * 255,
            total == ics.num_window_groups * ics.max_sfb,
            scale_factors_at(p, global_gain as int, n as nat) == Read::Done(
                Factors { list: factors@, sum: sum as int },
                br@,
            ),
            -60 * n <= sum <= 255 + 195 * n,
        decreases total - n,
    {
        let delta: i32 = match decode_sf_huffman(br) {
            Ok(d) => d,
            Err(e) => {
                proof {
                    lemma_scale_factors_fail(p, global_gain as int, (n + 1) as nat, total as nat);
                }
                return Err(e);
            },
        };
        sum = sum + delta;
        let clamp: i16 = if sum < -200 {
            -200
        } else if sum > 255 {
            255
        } else {
            sum as i16
        };
        factors.push(clamp);
        n = n + 1;
    }
    Ok(factors)
}

/// The number of one bits at `p`, with `n` counted already; counting stops
/// after the twenty-fifth.
pub open spec fn ones_at(p: BitPlace, n: nat) -> Read<nat>
    decreases 25 - n,
{
    if !p.has(1) {
        out_of_bits(p)
    } else if p.peek(1) == 0 {
        Read::Done(n, p.ahead(1))
    } else if n >= 24 {
        Read::Done(n + 1, p.ahead(1))
    } else {
        ones_at(p.ahead(1), n + 1)
    }
}

/// The magnitude that `base` stands for: itself below 16, else an escape
/// sequence of `k` one bits, a zero and `k + 4` bits below a leading one.
pub open spec fn escape_at(p: BitPlace, base: nat) -> Read<nat> {
    if base < 16 {
        Read::Done(base, p)
    } else {
        match ones_at(p, 0) {
            Read::Failed(e, q) => Read::Failed(e, q),
            Read::Done(k, q) => if q.has(k + 4int) {
                Read::Done(pow2(k + 4) + q.peek(k + 4), q.ahead(k + 4int))
            } else {
                out_of_bits(q)
            },
        }
    }
}

/// Read the magnitude that `base` stands for.
pub fn decode_escape_value(br: &mut BitReader<'_>, base: u32) -> (r: Result<u32, AacError>)
    requires
        old(br).wf(),
    ensures
        final(br).wf(),
        match (r, escape_at(old(br)@, base as nat)) {
            (Ok(v), Read::Done(w, p)) => v == w && final(br)@ == p && (v == base || v
                < 0x4000_0000),
            (Err(e), Read::Failed(f, p)) => e == f && final(br)@ == p,
            _ => false,
        },
{
    if base < 16 {
        return Ok(base);
    }
    let ghost p = br@;
    let mut n: u32 = 0;
    let mut more: bool = true;
    while more
        invariant
            br.wf(),
            p == old(br)@,
            n <= 25,
            more ==> n <= 24 && ones_at(p, 0) == ones_at(br@, n as nat),
            !more ==> ones_at(p, 0) == Read::Done(n as nat, br@),
            base >= 16,
        decreases
            26 - n + (if more {
                1int
            } else {
                0
            }),
    {
        proof {
            lemma2_to64();
            aac_bits::lemma_bits_at_bound(br@.data, br@.pos, 1);
        }
        let bit: bool = match br.read_bool() {
            Ok(b) => b,
            Err(e) => {
                return Err(e);
            },
        };
        if bit {
            n = n + 1;
            if n > 24 {
                more = false;
            }
        } else {
            more = false;
        }
    }
    proof {
        lemma2_to64();
        aac_bits::lemma_bits_at_bound(br@.data, br@.pos, (n + 4) as nat);
        if n < 25 {
            lemma_pow2_strictly_increases((n + 4) as nat, 29);
        }
        vstd::bits::lemma_u32_shl_is_mul(1, (n + 4) as u32);
    }
    let mantissa: u32 = match br.read_bits((n + 4) as u8) {
        Ok(v) => v,
        Err(e) => {
            return Err(e);
        },
    };
    Ok((1u32 << (n + 4)) + mantissa)
}

/// A magnitude with its sign, which follows unless it is zero.
pub open spec fn signed_at(p: BitPlace, v: nat) -> Read<int> {
    if v == 0 {
        Read::Done(0, p)
    } else if !p.has(1) {
        out_of_bits(p)
    } else {
        Read::Done(
            if p.peek(1) == 1 {
                -(v as int)
            } else {
                v as int
            },
            p.ahead(1),
        )
    }
}

/// A pair of coefficients: the codeword, the escapes of both magnitudes, then
/// the signs.
pub open spec fn pair_at(p: BitPlace) -> Read<(int, int)> {
    match code_at(p, CB11_CODES@, CB11_LENGTHS@, 0, 20) {
        Read::Failed(e, q) => Read::Failed(e, q),
        Read::Done(entry, q) => {
            let (x, y) = match entry {
                Some(i) => (CB11_X[i] as nat, CB11_Y[i] as nat),
                None => (0nat, 0nat),
            };
            match escape_at(q, x) {
                Read::Failed(e, q1) => Read::Failed(e, q1),
                Read::Done(a, q1) => match escape_at(q1, y) {
                    Read::Failed(e, q2) => Read::Failed(e, q2),
                    Read::Done(b, q2) => match signed_at(q2, a) {
                        Read::Failed(e, q3) => Read::Failed(e, q3),
                        Read::Done(c, q3) => match signed_at(q3, b) {
                            Read::Failed(e, q4) => Read::Failed(e, q4),
                            Read::Done(d, q4) => Read::Done((c, d), q4),
                        },
                    },
                },
            }
        },
    }
}

/// `n` pairs of coefficients in a row.
pub open spec fn pairs_at(p: BitPlace, n: nat) -> Read<Seq<int>>
    decreases n,
{
    if n == 0 {
        Read::Done(Seq::empty(), p)
    } else {
        match pairs_at(p, (n - 1) as nat) {
            Read::Failed(e, q) => Read::Failed(e, q),
            Read::Done(s, q) => match pair_at(q) {
                Read::Failed(e, q1) => Read::Failed(e, q1),
                Read::Done(v, q1) => Read::Done(s.push(v.0).push(v.1), q1),
            },
        }
    }
}

/// More pairs fail where fewer do; pairs come in twos.
proof fn lemma_pairs(p: BitPlace, n: nat, m: nat)
    requires
        n <= m,
    ensures
        pairs_at(p, n) is Failed ==> pairs_at(p, m) == pairs_at(p, n),
        pairs_at(p, n) matches Read::Done(s, _) ==> s.len() == 2 * n,
    decreases m,
{
    if n < m {
        lemma_pairs(p, n, (m - 1) as nat);
    } else if n > 0 {
        lemma_pairs(p, (n - 1) as nat, (n - 1) as nat);
    }
}

/// Read the sign of a magnitude.
fn read_sign(br: &mut BitReader<'_>, v: u32) -> (r: Result<i32, AacError>)
    requires
        old(br).wf(),
        v < 0x4000_0000,
    ensures
        final(br).wf(),
        match (r, signed_at(old(br)@, v as nat)) {
            (Ok(w), Read::Done(x, p)) => w == x && final(br)@ == p,
            (Err(e), Read::Failed(f, p)) => e == f && final(br)@ == p,
            _ => false,
        },
{
    if v == 0 {
        return Ok(0);
    }
    match br.read_bool() {
        Ok(negative) => if negative {
            Ok(-(v as i32))
        } else {
            Ok(v as i32)
        },
        Err(e) => Err(e),
    }
}

/// Read a pair of coefficients.
fn read_pair(br: &mut BitReader<'_>) -> (r: Result<(i32, i32), AacError>)
    requires
        old(br).wf(),
    ensures
        final(br).wf(),
        match (r, pair_at(old(br)@)) {
            (Ok((a, b)), Read::Done(v, p)) => a == v.0 && b == v.1 && final(br)@ == p,
            (Err(e), Read::Failed(f, p)) => e == f && final(br)@ == p,
            _ => false,
        },
{
    proof {
        law_spectral_code_is_complete(br@);
    }
    let (x, y): (u32, u32) = match read_code(br, &CB11_CODES, &CB11_LENGTHS, 20) {
        Ok(Some(i)) => (CB11_X[i] as u32, CB11_Y[i] as u32),
        Ok(None) => (0, 0),
        Err(e) => {
            return Err(e);
        },
    };
    let a: u32 = match decode_escape_value(br, x) {
        Ok(v) => v,
        Err(e) => {
            return Err(e);
        },
    };
    let b: u32 = match decode_escape_value(br, y) {
        Ok(v) => v,
        Err(e) => {
            return Err(e);
        },
    };
    let c: i32 = match read_sign(br, a) {
        Ok(v) => v,
        Err(e) => {
            return Err(e);
        },
    };
    let d: i32 = match read_sign(br, b) {
        Ok(v) => v,
        Err(e) => {
            return Err(e);
        },
    };
    Ok((c, d))
}

/// Read `n_pairs` pairs of coefficients with codebook 11.
pub fn decode_spectral_cb11(br: &mut BitReader<'_>, n_pairs: usize) -> (r: Result<
    Vec<i32>,
    AacError,
>)
    requires
        old(br).wf(),
    ensures
        final(br).wf(),
        match (r, pairs_at(old(br)@, n_pairs as nat)) {
            (Ok(v), Read::Done(s, p)) => crate::int_math::ints(v@) == s && v@.len() == 2 * n_pairs
                && final(br)@ == p,
            (Err(e), Read::Failed(f, p)) => e == f && final(br)@ == p,
            _ => false,
        },
{
    let ghost p = br@;
    let mut out: Vec<i32> = Vec::new();
    let mut n: usize = 0;
    proof {
        assert(crate::int_math::ints(out@) =~= Seq::<int>::empty());
    }
    while n < n_pairs
        invariant
            br.wf(),
            p == old(br)@,
            n <= n_pairs,
            out@.len() == 2 * n,
            pairs_at(p, n as nat) == Read::Done(crate::int_math::ints(out@), br@),
        decreases n_pairs - n,
    {
        proof {
            lemma_pairs(p, (n + 1) as nat, n_pairs as nat);
        }
        let ghost before = crate::int_math::ints(out@);
        match read_pair(br) {
            Ok((a, b)) => {
                out.push(a);
                out.push(b);
                proof {
                    assert(crate::int_math::ints(out@) =~= before.push(a as int).push(b as int));
                }
            },
            Err(e) => {
                return Err(e);
            },
        }
        n = n + 1;
    }
    Ok(out)
}

/// The number of coefficients of the active bands, of `size` in all.
pub open spec fn active_end(max_sfb: int, edges: Seq<usize>, size: int) -> int {
    if edges.len() > max_sfb {
        crate::int_math::min_of(edges[max_sfb] as int, size)
    } else if edges.len() > 0 {
        crate::int_math::min_of(edges.last() as int, size)
    } else {
        size
    }
}

/// All `size` coefficients: those of the active bands if any bits are left, then
/// zeros.
pub open spec fn spectrum_at(p: BitPlace, max_sfb: int, edges: Seq<usize>, size: int) -> Read<
    Seq<int>,
> {
    let n = (active_end(max_sfb, edges, size) / 2) as nat;
    if n > 0 && p.has(1) {
        match pairs_at(p, n) {
            Read::Failed(e, q) => Read::Failed(e, q),
            Read::Done(s, q) => Read::Done(
                Seq::new(
                    size as nat,
                    |i: int|
                        if i < s.len() {
                            s[i]
                        } else {
                            0
                        },
                ),
                q,
            ),
        }
    } else {
        Read::Done(Seq::new(size as nat, |i: int| 0int), p)
    }
}

/// Read the coefficients of one channel: 128 for each of the short windows, or
/// 1024.
pub fn decode_spectral_data(br: &mut BitReader<'_>, ics: &IcsInfo, sfb_offsets: &[usize]) -> (r:
    Result<Vec<i32>, AacError>)
    requires
        old(br).wf(),
        ics.size() <= usize::MAX,
    ensures
        final(br).wf(),
        match (r, spectrum_at(old(br)@, ics.max_sfb as int, sfb_offsets@, ics.size())) {
            (Ok(v), Read::Done(s, p)) => crate::int_math::ints(v@) == s && v@.len() == ics.size()
                && final(br)@ == p,
            (Err(e), Read::Failed(f, p)) => e == f && final(br)@ == p,
            _ => false,
        },
{
    let n_coeff: usize = if ics.window_sequence == 2 {
        128 * ics.num_windows
    } else {
        1024
    };
    let mut active: usize = if sfb_offsets.len() > ics.max_sfb as usize {
        sfb_offsets[ics.max_sfb as usize]
    } else if sfb_offsets.len() > 0 {
        sfb_offsets[sfb_offsets.len() - 1]
    } else {
        n_coeff
    };
    if active > n_coeff {
        active = n_coeff;
    }
    let n_pairs: usize = active / 2;
    let mut coeffs: Vec<i32> = Vec::new();
    if n_pairs > 0 && br.has_bits() {
        match decode_spectral_cb11(br, n_pairs) {
            Ok(v) => {
                coeffs = v;
            },
            Err(e) => {
                return Err(e);
            },
        }
    }
    let ghost read = coeffs@;
    while coeffs.len() < n_coeff
        invariant
            read.len() <= coeffs@.len() <= n_coeff,
            forall|i: int| 0 <= i < read.len() ==> #[trigger] coeffs@[i] == read[i],
            forall|i: int| read.len() <= i < coeffs@.len() ==> #[trigger] coeffs@[i] == 0,
        decreases n_coeff - coeffs@.len(),
    {
        coeffs.push(0);
    }
    proof {
        match spectrum_at(old(br)@, ics.max_sfb as int, sfb_offsets@, ics.size()) {
            Read::Done(s, _) => {
                assert(crate::int_math::ints(coeffs@) =~= s);
            },
            Read::Failed(_, _) => {},
        }
    }
    Ok(coeffs)
}

/// One channel of a frame before it is turned into samples.
#[derive(Clone, Debug)]
pub struct ChannelElement {
    /// Header of the channel stream.
    pub ics: IcsInfo,
    /// Scale factors of all bands of all groups.
    pub scale_factors: Vec<i16>,
    /// The quantised coefficients.
    pub coeffs: Vec<i32>,
}

/// One channel of a frame as numbers.
#[verifier::ext_equal]
pub struct Channel {
    pub ics: Ics,
    pub scale_factors: Seq<i16>,
    pub coeffs: Seq<int>,
}

impl ChannelElement {
    /// The element holds `c`.
    pub open spec fn holds(&self, c: Channel) -> bool {
        &&& self.ics.holds(c.ics)
        &&& self.scale_factors@ == c.scale_factors
        &&& self.coeffs@.len() == 1024
        &&& crate::int_math::ints(self.coeffs@) == c.coeffs
    }
}

/// Skip pulse data if its flag is set: two bits for a count, six for a start,
/// then nine for each pulse.
pub open spec fn behind_pulses(p: BitPlace) -> Read<()> {
    if !p.has(1) {
        out_of_bits(p)
    } else if p.peek(1) == 0 {
        Read::Done((), p.ahead(1))
    } else if !p.has(9) {
        out_of_bits(p)
    } else {
        let n = 9 + 9 * (p.ahead(1).peek(2) + 1);
        if p.has(n as int) {
            Read::Done((), p.ahead(n as int))
        } else {
            out_of_bits(p)
        }
    }
}

/// Skip eight bits of TNS data if its flag is set.
pub open spec fn behind_tns(p: BitPlace) -> Read<()> {
    if !p.has(1) {
        out_of_bits(p)
    } else if p.peek(1) == 0 {
        Read::Done((), p.ahead(1))
    } else if p.has(9) {
        Read::Done((), p.ahead(9))
    } else {
        out_of_bits(p)
    }
}

/// The side information behind the scale factors; gain control data is
/// refused.
pub open spec fn behind_side_info(p: BitPlace) -> Read<()> {
    match behind_pulses(p) {
        Read::Failed(e, q) => Read::Failed(e, q),
        Read::Done(_, q) => match behind_tns(q) {
            Read::Failed(e, q1) => Read::Failed(e, q1),
            Read::Done(_, q1) => if !q1.has(1) {
                out_of_bits(q1)
            } else if q1.peek(1) == 1 {
                Read::Failed(AacError::GainControl, q1.ahead(1))
            } else {
                Read::Done((), q1.ahead(1))
            },
        },
    }
}

/// The channel element at a place: a tag, the gain, the header, the scale
/// factors, the side information and the coefficients.
pub open spec fn channel_at(p: BitPlace, sample_rate: u32) -> Read<Channel> {
    if !p.has(12) {
        out_of_bits(p)
    } else {
        let gain = p.ahead(4).peek(8);
        match ics_at(p.ahead(12)) {
            Read::Failed(e, q) => Read::Failed(e, q),
            Read::Done(ics, q) => match scale_factors_at(
                q,
                gain as int,
                (ics.groups.len() * ics.max_sfb) as nat,
            ) {
                Read::Failed(e, q1) => Read::Failed(e, q1),
                Read::Done(f, q1) => match behind_side_info(q1) {
                    Read::Failed(e, q2) => Read::Failed(e, q2),
                    Read::Done(_, q2) => match spectrum_at(
                        q2,
                        ics.max_sfb,
                        sfb_edges(sample_rate),
                        1024,
                    ) {
                        Read::Failed(e, q3) => Read::Failed(e, q3),
                        Read::Done(s, q3) => Read::Done(
                            Channel { ics, scale_factors: f.list, coeffs: s },
                            q3,
                        ),
                    },
                },
            },
        }
    }
}

/// Skip the side information behind the scale factors.
fn skip_side_info(br: &mut BitReader<'_>) -> (r: Result<(), AacError>)
    requires
        old(br).wf(),
    ensures
        final(br).wf(),
        match (r, behind_side_info(old(br)@)) {
            (Ok(_), Read::Done(_, p)) => final(br)@ == p,
            (Err(e), Read::Failed(f, p)) => e == f && final(br)@ == p,
            _ => false,
        },
{
    let ghost p = br@;
    proof {
        lemma2_to64();
        aac_bits::lemma_bits_at_bound(p.data, p.pos, 1);
    }
    let pulses: bool = match br.read_bool() {
        Ok(b) => b,
        Err(e) => {
            return Err(e);
        },
    };
    if pulses {
        proof {
            aac_bits::lemma_bits_at_bound(p.data, p.pos + 1, 2);
        }
        let count: u32 = match br.read_bits(2) {
            Ok(v) => v,
            Err(e) => {
                return Err(e);
            },
        };
        match br.read_bits(6) {
            Ok(_) => {},
            Err(e) => {
                return Err(e);
            },
        }
        let mut k: u32 = 0;
        while k <= count
            invariant
                br.wf(),
                p == old(br)@,
                k <= count + 1,
                count <= 3,
                p.has(9),
                p.peek(1) != 0,
                count == p.ahead(1).peek(2),
                br@ == p.ahead(9 + 9 * k),
                k > 0 ==> p.has(9 + 9 * k),
            decreases count + 1 - k,
        {
            match br.read_bits(5) {
                Ok(_) => {},
                Err(e) => {
                    return Err(e);
                },
            }
            match br.read_bits(4) {
                Ok(_) => {},
                Err(e) => {
                    return Err(e);
                },
            }
            k = k + 1;
        }
    }
    let ghost q = br@;
    proof {
        aac_bits::lemma_bits_at_bound(q.data, q.pos, 1);
    }
    let tns: bool = match br.read_bool() {
        Ok(b) => b,
        Err(e) => {
            return Err(e);
        },
    };
    if tns {
        match br.read_bits(8) {
            Ok(_) => {},
            Err(e) => {
                return Err(e);
            },
        }
    }
    match br.read_bool() {
        Ok(gain_control) => if gain_control {
            Err(AacError::GainControl)
        } else {
            Ok(())
        },
        Err(e) => Err(e),
    }
}

/// Read one channel element.
pub fn decode_sce(br: &mut BitReader<'_>, sample_rate: u32) -> (r: Result<ChannelElement, AacError>)
    requires
        old(br).wf(),
    ensures
        final(br).wf(),
        match (r, channel_at(old(br)@, sample_rate)) {
            (Ok(c), Read::Done(d, p)) => c.holds(d) && final(br)@ == p,
            (Err(e), Read::Failed(f, p)) => e == f && final(br)@ == p,
            _ => false,
        },
{
    let ghost p = br@;
    match br.read_bits(4) {
        Ok(_) => {},
        Err(e) => {
            return Err(e);
        },
    }
    proof {
        lemma2_to64();
        aac_bits::lemma_bits_at_bound(p.data, p.pos + 4, 8);
    }
    let gain: u8 = match br.read_bits(8) {
        Ok(v) => v as u8,
        Err(e) => {
            return Err(e);
        },
    };
    let ics: IcsInfo = match parse_ics_info(br) {
        Ok(i) => i,
        Err(e) => {
            return Err(e);
        },
    };
    proof {
        let g = p.ahead(12).ahead(8).peek(7);
        lemma_window_groups(g, 7);
    }
    let factors: Vec<i16> = match decode_scale_factors(br, &ics, gain) {
        Ok(f) => f,
        Err(e) => {
            return Err(e);
        },
    };
    match skip_side_info(br) {
        Ok(_) => {},
        Err(e) => {
            return Err(e);
        },
    }
    let offsets: &[usize] = sfb_offsets_long(sample_rate);
    match decode_spectral_data(br, &ics, offsets) {
        Ok(coeffs) => Ok(ChannelElement { ics, scale_factors: factors, coeffs }),
        Err(e) => Err(e),
    }
}

/// The channels of a frame, and why there are not more. The first channel of a
/// pair is there even if the second could not be read.
#[derive(Clone, Debug)]
pub struct FrameDecode {
    /// The sample rate of the frame's header, if that is valid.
    pub sample_rate: Option<u32>,
    /// The channels that were read.
    pub channels: Vec<ChannelElement>,
    /// Why the frame could not be decoded, if so.
    pub error: Option<AacError>,
}

/// A frame as numbers.
pub struct Frame {
    pub sample_rate: Option<u32>,
    pub channels: Seq<Channel>,
    pub error: Option<AacError>,
}

impl FrameDecode {
    /// The frame holds `f`.
    pub open spec fn holds(&self, f: Frame) -> bool {
        &&& self.sample_rate == f.sample_rate
        &&& self.error == f.error
        &&& self.channels@.len() == f.channels.len()
        &&& forall|i: int|
            0 <= i < f.channels.len() ==> (#[trigger] self.channels@[i]).holds(f.channels[i])
    }
}

/// A frame that could not be decoded.
pub open spec fn failed_frame(sample_rate: Option<u32>, e: AacError) -> Frame {
    Frame { sample_rate, channels: Seq::empty(), error: Some(e) }
}

/// The frame's data block: one channel, or a pair.
pub open spec fn block_at(p: BitPlace, sample_rate: u32) -> Frame {
    let rate = Some(sample_rate);
    if !p.has(3) {
        failed_frame(rate, AacError::OutOfBits)
    } else if p.peek(3) == 0 {
        match channel_at(p.ahead(3), sample_rate) {
            Read::Failed(e, _) => failed_frame(rate, e),
            Read::Done(c, _) => Frame { sample_rate: rate, channels: seq![c], error: None },
        }
    } else if p.peek(3) == 1 {
        match channel_at(p.ahead(3), sample_rate) {
            Read::Failed(e, _) => failed_frame(rate, e),
            Read::Done(left, q) => match channel_at(q, sample_rate) {
                Read::Failed(e, _) => Frame {
                    sample_rate: rate,
                    channels: seq![left],
                    error: Some(e),
                },
                Read::Done(right, _) => Frame {
                    sample_rate: rate,
                    channels: seq![left, right],
                    error: None,
                },
            },
        }
    } else {
        failed_frame(rate, AacError::ElementType(p.peek(3) as u32))
    }
}

/// The frame at the start of `data`.
#[verifier::opaque]
pub open spec fn frame_at(data: Seq<u8>) -> Frame {
    match adts_header(data) {
        Err(e) => failed_frame(None, e),
        Ok(h) => block_at(
            BitPlace { data: data.subrange(h.header, h.length), pos: 0 },
            h.sample_rate,
        ),
    }
}

/// Decoder of AAC-LC frames.
#[derive(Clone, Debug)]
pub struct AacDecoder {
    sample_rate: Option<u32>,
    channels: Option<u8>,
}

/// What a decoder knows of the stream: nothing before the first header.
#[verifier::ext_equal]
pub struct StreamInfo {
    pub sample_rate: Option<u32>,
    pub channels: Option<u8>,
}

impl View for AacDecoder {
    type V = StreamInfo;

    closed spec fn view(&self) -> StreamInfo {
        StreamInfo { sample_rate: self.sample_rate, channels: self.channels }
    }
}

impl StreamInfo {
    /// What is known after a frame: the first header sets it.
    pub open spec fn after(self, data: Seq<u8>) -> StreamInfo {
        match adts_header(data) {
            Ok(h) => if self.sample_rate is None {
                StreamInfo { sample_rate: Some(h.sample_rate), channels: Some(h.channels) }
            } else {
                self
            },
            Err(_) => self,
        }
    }
}

impl AacDecoder {
    /// A decoder that has seen no frame.
    #[must_use]
    pub fn new() -> (r: AacDecoder)
        ensures
            r@ == (StreamInfo { sample_rate: None, channels: None }),
    {
        AacDecoder { sample_rate: None, channels: None }
    }

    /// Read the channels of the ADTS frame at the start of `data`.
    pub fn decode_frame(&mut self, data: &[u8]) -> (r: FrameDecode)
        ensures
            r.holds(frame_at(data@)),
            final(self)@ == old(self)@.after(data@),
    {
        proof {
            reveal(frame_at);
        }
        let mut channels: Vec<ChannelElement> = Vec::new();
        let frame = match parse_adts_header(data) {
            Ok(f) => f,
            Err(e) => {
                return FrameDecode { sample_rate: None, channels, error: Some(e) };
            },
        };
        let sample_rate: Option<u32> = Some(frame.sample_rate);
        if self.sample_rate.is_none() {
            self.sample_rate = Some(frame.sample_rate);
            self.channels = Some(frame.channels);
        }
        let mut br = BitReader::new(frame.payload);
        let kind: u32 = match br.read_bits(3) {
            Ok(v) => v,
            Err(e) => {
                return FrameDecode { sample_rate, channels, error: Some(e) };
            },
        };
        if kind > 1 {
            return FrameDecode {
                sample_rate,
                channels,
                error: Some(AacError::ElementType(kind)),
            };
        }
        match decode_sce(&mut br, frame.sample_rate) {
            Ok(c) => {
                channels.push(c);
            },
            Err(e) => {
                return FrameDecode { sample_rate, channels, error: Some(e) };
            },
        }
        if kind == 1 {
            match decode_sce(&mut br, frame.sample_rate) {
                Ok(c) => {
                    channels.push(c);
                },
                Err(e) => {
                    return FrameDecode { sample_rate, channels, error: Some(e) };
                },
            }
        }
        FrameDecode { sample_rate, channels, error: None }
    }

    /// The sample rate, once a header was seen.
    #[must_use]
    pub fn sample_rate(&self) -> (r: Option<u32>)
        ensures
            r == self@.sample_rate,
    {
        self.sample_rate
    }

    /// The number of channels, once a header was seen.
    #[must_use]
    pub fn channels(&self) -> (r: Option<u8>)
        ensures
            r == self@.channels,
    {
        self.channels
    }
}

impl Default for AacDecoder {
    fn default() -> (r: Self)
        ensures
            r@ == (StreamInfo { sample_rate: None, channels: None }),
    {
        Self::new()
    }
}

/// A decoded stream before it is turned into samples.
#[derive(Clone, Debug)]
pub struct AacStream {
    /// All frames with a valid header, in order.
    pub frames: Vec<FrameDecode>,
    /// Sample rate of the first frame.
    pub sample_rate: u32,
    /// Number of channels of the first frame.
    pub channels: u8,
}

/// Where the frames start, looking from `pos` on: behind one frame the next
/// sync word is looked for, and after a header that is not valid the next one.
pub open spec fn frame_starts(data: Seq<u8>, pos: int) -> Seq<int>
    decreases data.len() - pos,
    when 0 <= pos
{
    if pos >= data.len() {
        Seq::empty()
    } else {
        match adts_header(data.skip(pos)) {
            Err(_) => match sync_from(data, pos + 1) {
                Some(n) => if pos < n < data.len() {
                    frame_starts(data, n)
                } else {
                    Seq::empty()
                },
                None => Seq::empty(),
            },
            Ok(h) => seq![pos] + (match sync_from(data, pos + h.length) {
                Some(n) => if pos < n < data.len() {
                    frame_starts(data, n)
                } else {
                    Seq::empty()
                },
                None => Seq::empty(),
            }),
        }
    }
}

/// The frames of a stream.
pub open spec fn stream_frames(data: Seq<u8>) -> Seq<Frame> {
    let starts = match sync_from(data, 0) {
        Some(n) => frame_starts(data, n),
        None => Seq::empty(),
    };
    Seq::new(starts.len(), |i: int| frame_at(data.skip(starts[i])))
}

/// A sync word is found where it stands, at or behind the start.
proof fn lemma_sync_from(data: Seq<u8>, i: int)
    requires
        0 <= i,
    ensures
        sync_from(data, i) matches Some(n) ==> i <= n && n + 1 < data.len(),
    decreases data.len() - i,
{
    if i + 1 < data.len() {
        lemma_sync_from(data, i + 1);
    }
}

/// Looking in the rest of the data finds the same place.
proof fn lemma_sync_skip(data: Seq<u8>, k: int, i: int)
    requires
        0 <= k <= data.len(),
        0 <= i,
    ensures
        match (sync_from(data.skip(k), i), sync_from(data, k + i)) {
            (Some(a), Some(b)) => b == a + k,
            (None, None) => true,
            _ => false,
        },
    decreases data.len() - k - i,
{
    if k + i + 1 < data.len() {
        lemma_sync_skip(data, k, i + 1);
    }
}

/// Bytes of the slice from `at` on.
fn rest_of<'a>(data: &'a [u8], at: usize) -> (r: &'a [u8])
    requires
        at <= data@.len(),
    ensures
        r@ == data@.skip(at as int),
{
    let r = slice_subrange(data, at, data.len());
    proof {
        assert(data@.subrange(at as int, data@.len() as int) =~= data@.skip(at as int));
    }
    r
}

/// Read all frames of an ADTS stream. Bytes that do not start a frame are
/// skipped; it is an error if there is no input, no sync word, or no frame that
/// can be decoded.
pub fn decode_aac(data: &[u8]) -> (r: Result<AacStream, AacError>)
    ensures
        match r {
            Ok(s) => {
                let frames = stream_frames(data@);
                &&& s.frames@.len() == frames.len() > 0
                &&& forall|i: int|
                    0 <= i < frames.len() ==> (#[trigger] s.frames@[i]).holds(frames[i])
                &&& exists|i: int| 0 <= i < frames.len() && (#[trigger] frames[i]).error is None
                &&& sync_from(data@, 0) matches Some(n) && adts_header(
                    data@.skip(frame_starts(data@, n)[0]),
                ) matches Ok(h) && s.sample_rate == h.sample_rate && s.channels == h.channels
            },
            Err(AacError::EmptyInput) => data@.len() == 0,
            Err(AacError::NoSync) => data@.len() > 0 && sync_from(data@, 0) is None,
            Err(AacError::NoFrames) => {
                &&& sync_from(data@, 0) is Some
                &&& forall|i: int|
                    0 <= i < stream_frames(data@).len() ==> (#[trigger] stream_frames(
                        data@,
                    )[i]).error is Some
            },
            Err(_) => false,
        },
{
    if data.len() == 0 {
        return Err(AacError::EmptyInput);
    }
    let first: usize = match find_adts_sync(data) {
        Some(n) => n,
        None => {
            return Err(AacError::NoSync);
        },
    };
    let ghost goal = frame_starts(data@, first as int);
    let ghost mut starts: Seq<int> = Seq::empty();
    let mut decoder = AacDecoder::new();
    let mut frames: Vec<FrameDecode> = Vec::new();
    let mut decoded: bool = false;
    let mut pos: usize = first;
    let mut more: bool = true;
    proof {
        assert(starts + frame_starts(data@, pos as int) =~= goal);
    }
    while more
        invariant
            more ==> pos < data@.len(),
            more ==> starts + frame_starts(data@, pos as int) == goal,
            !more ==> starts == goal,
            frames@.len() == starts.len(),
            forall|i: int|
                0 <= i < starts.len() ==> (#[trigger] frames@[i]).holds(
                    frame_at(data@.skip(starts[i])),
                ),
            decoded == (exists|i: int|
                0 <= i < starts.len() && (#[trigger] frame_at(data@.skip(starts[i]))).error is None),
            starts.len() == 0 ==> decoder@.sample_rate is None,
            starts.len() > 0 ==> (adts_header(data@.skip(starts[0])) matches Ok(h)
                && decoder@.sample_rate == Some(h.sample_rate) && decoder@.channels == Some(
                h.channels,
            )),
        decreases
            data@.len() - pos + (if more {
                1int
            } else {
                0
            }),
    {
        let slice: &[u8] = rest_of(data, pos);
        proof {
            assert(data@.len() == data.len());
            lemma_sync_skip(data@, pos + 1, 0);
            lemma_sync_from(data@, pos + 1);
            lemma_header_length(slice@);
        }
        match parse_adts_header(slice) {
            Err(_) => {
                match find_adts_sync(rest_of(data, pos + 1)) {
                    Some(n) => {
                        pos = pos + 1 + n;
                    },
                    None => {
                        more = false;
                        proof {
                            assert(starts + Seq::<int>::empty() =~= starts);
                        }
                    },
                }
            },
            Ok(_) => {
                let length: usize = (slice[3] % 4) as usize * 2048 + slice[4] as usize * 8
                    + slice[5] as usize / 32;
                let frame: FrameDecode = decoder.decode_frame(slice);
                let ghost before = starts;
                let ghost was = decoded;
                if frame.error.is_none() {
                    decoded = true;
                }
                frames.push(frame);
                proof {
                    starts = starts.push(pos as int);
                    assert(frame_at(data@.skip(pos as int)) == frame_at(slice@));
                    assert(starts[before.len() as int] == pos);
                    assert forall|i: int| 0 <= i < before.len() implies starts[i] == before[i] by {}
                    if was {
                        let i = choose|i: int|
                            0 <= i < before.len() && (#[trigger] frame_at(
                                data@.skip(before[i]),
                            )).error is None;
                        assert(frame_at(data@.skip(starts[i])).error is None);
                    }
                    if decoded && !was {
                        assert(frame_at(data@.skip(starts[before.len() as int])).error is None);
                    }
                    if !decoded {
                        assert forall|i: int| 0 <= i < starts.len() implies (#[trigger] frame_at(
                            data@.skip(starts[i]),
                        )).error is Some by {
                            if i < before.len() {
                                assert(frame_at(data@.skip(before[i])).error is Some);
                            }
                        }
                    }
                }
                let next: usize = pos + length;
                proof {
                    lemma_sync_from(data@, next as int);
                    lemma_sync_skip(data@, next as int, 0);
                }
                let found: Option<usize> = find_adts_sync(rest_of(data, next));
                match found {
                    Some(n) => {
                        proof {
                            assert(before + (seq![pos as int] + frame_starts(
                                data@,
                                (next + n) as int,
                            )) =~= starts + frame_starts(data@, (next + n) as int));
                        }
                        pos = next + n;
                    },
                    None => {
                        more = false;
                        proof {
                            assert(before + (seq![pos as int] + Seq::<int>::empty()) =~= starts);
                        }
                    },
                }
            },
        }
    }
    proof {
        let all = stream_frames(data@);
        assert(all.len() == starts.len());
        assert forall|i: int| 0 <= i < all.len() implies (#[trigger] frames@[i]).holds(all[i]) by {
            assert(all[i] == frame_at(data@.skip(starts[i])));
        }
        if decoded {
            let i = choose|i: int|
                0 <= i < starts.len() && (#[trigger] frame_at(data@.skip(starts[i]))).error is None;
            assert(all[i].error is None);
        } else {
            assert forall|i: int| 0 <= i < all.len() implies (#[trigger] all[i]).error is Some by {
                assert(frame_at(data@.skip(starts[i])).error is Some);
            }
        }
    }
    if !decoded {
        return Err(AacError::NoFrames);
    }
    let sample_rate: u32 = match decoder.sample_rate() {
        Some(r) => r,
        None => 44100,
    };
    let channels: u8 = match decoder.channels() {
        Some(c) => c,
        None => 2,
    };
    Ok(AacStream { frames, sample_rate, channels })
}

/// Frames do not overlap: each starts where the one before it ends or later,
/// with a valid header that keeps it within the data.
pub proof fn law_frames_do_not_overlap(data: Seq<u8>, pos: int, i: int)
    requires
        0 <= pos,
        0 <= i < frame_starts(data, pos).len(),
    ensures
        ({
            let starts = frame_starts(data, pos);
            &&& pos <= starts[i]
            &&& adts_header(data.skip(starts[i])) matches Ok(h) && starts[i] + h.length <= data.len()
                && (i + 1 < starts.len() ==> starts[i] + h.length <= starts[i + 1])
        }),
    decreases data.len() - pos,
{
    if pos < data.len() {
        let rest = data.skip(pos);
        lemma_header_length(rest);
        match adts_header(rest) {
            Err(_) => {
                lemma_sync_from(data, pos + 1);
                let n = sync_from(data, pos + 1)->0;
                law_frames_do_not_overlap(data, n, i);
            },
            Ok(h) => {
                lemma_sync_from(data, pos + h.length);
                if let Some(n) = sync_from(data, pos + h.length) {
                    if pos < n < data.len() {
                        let later = frame_starts(data, n);
                        if i > 0 {
                            law_frames_do_not_overlap(data, n, i - 1);
                        } else if later.len() > 0 {
                            law_frames_do_not_overlap(data, n, 0);
                        }
                    }
                }
            },
        }
    }
}

} // verus!
