//! Opus packets in an Ogg stream: the two header packets, then one
//! packet of 20 ms per page.
use crate::ogg;
use crate::ogg::{push_le32, push_slice, OggStream, Packet, Stream};
use vstd::prelude::*;

verus! {

/// The sample rate that the encoder works at.
pub const OPUS_SAMPLE_RATE: u32 = 48_000;

/// Frame size in samples per channel: 20 ms at 48 kHz.
pub const FRAME_SIZE: usize = 960;

/// Samples to skip at the start, 80 ms at 48 kHz.
pub const PRE_SKIP: u16 = 3840;

/// The serial number of a stream that is encoded in one go.
pub const OPUS_SERIAL: u32 = 0x1234_5678;

/// `OpusHead`.
pub const HEAD_MAGIC: [u8; 8] = [0x4F, 0x70, 0x75, 0x73, 0x48, 0x65, 0x61, 0x64];

/// `OpusTags`.
pub const TAGS_MAGIC: [u8; 8] = [0x4F, 0x70, 0x75, 0x73, 0x54, 0x61, 0x67, 0x73];

/// `vorbis`, behind the type byte of a comment header.
pub const VORBIS_COMMENT_MAGIC: [u8; 7] = [0x03, 0x76, 0x6F, 0x72, 0x62, 0x69, 0x73];

/// `OxiAudio 0.1.0`.
pub const OPUS_VENDOR: [u8; 14] = [
    0x4F, 0x78, 0x69, 0x41, 0x75, 0x64, 0x69, 0x6F, 0x20, 0x30, 0x2E, 0x31, 0x2E, 0x30,
];

/// Why audio could not be encoded.
#[derive(Clone, Copy, Debug, PartialEq, Eq, Structural)]
pub enum OpusEncodeError {
    /// Other than one or two channels.
    UnsupportedChannels(usize),
    /// Another sample rate than 48 kHz.
    UnsupportedSampleRate(u32),
    /// A frame with another number of samples than expected.
    FrameLength {
        /// Samples that a frame has.
        expected: usize,
        /// Samples that were given.
        got: usize,
    },
}

/// Which frames an encoder writes.
#[derive(Clone, Copy, Debug, PartialEq, Eq, Structural)]
pub enum OpusConformantMode {
    /// CELT-only fullband frames (TOC `0xF8`), which carry the spectrum.
    Celt,
    /// SILK-only narrowband frames (TOC `0x08`) of silence.
    Silk,
    /// Hybrid fullband frames (TOC `0x78`): SILK silence below, CELT bands 17
    /// to 20 above.
    Hybrid,
}

/// Settings of an encoder.
#[derive(Clone, Debug)]
pub struct OpusEncodeConfig {
    /// Bit rate in kbps (6 to 510).
    pub target_bitrate_kbps: u32,
    /// Frame size in samples per channel at 48 kHz.
    pub frame_size: usize,
}

impl Default for OpusEncodeConfig {
    fn default() -> (r: Self)
        ensures
            r.target_bitrate_kbps == 128,
            r.frame_size == FRAME_SIZE,
    {
        OpusEncodeConfig { target_bitrate_kbps: 128, frame_size: FRAME_SIZE }
    }
}

impl OpusEncodeConfig {
    /// The default settings with another bit rate.
    pub fn with_bitrate(kbps: u32) -> (r: Self)
        ensures
            r.target_bitrate_kbps == kbps,
            r.frame_size == FRAME_SIZE,
    {
        OpusEncodeConfig { target_bitrate_kbps: kbps, ..OpusEncodeConfig::default() }
    }
}

/// The identification header: magic, version 1, channels, pre-skip, sample
/// rate, no gain, mapping family 0.
pub open spec fn opus_head(channels: u8, pre_skip: u16, sample_rate: u32) -> Seq<u8> {
    HEAD_MAGIC@ + seq![1u8, channels] + ogg::le_bytes(pre_skip as nat, 2) + ogg::le_bytes(
        sample_rate as nat,
        4,
    ) + seq![0u8, 0u8, 0u8]
}

/// Length-prefixed comments.
pub open spec fn comment_list(comments: Seq<Seq<u8>>) -> Seq<u8>
    decreases comments.len(),
{
    if comments.len() == 0 {
        Seq::empty()
    } else {
        comment_list(comments.drop_last()) + ogg::le_bytes(comments.last().len(), 4)
            + comments.last()
    }
}

/// A comment header: magic, vendor, comments, and for Vorbis a framing bit.
pub open spec fn comment_packet(vendor: Seq<u8>, comments: Seq<Seq<u8>>, opus: bool) -> Seq<u8> {
    (if opus {
        TAGS_MAGIC@
    } else {
        VORBIS_COMMENT_MAGIC@
    }) + ogg::le_bytes(vendor.len(), 4) + vendor + ogg::le_bytes(comments.len(), 4) + comment_list(
        comments,
    ) + (if opus {
        Seq::empty()
    } else {
        seq![1u8]
    })
}

/// The TOC byte of a CELT fullband 20 ms packet with one frame: configuration 28
/// for mono; 29 and the stereo bit for stereo.
pub open spec fn celt_toc(channels: int) -> u8 {
    if channels == 2 {
        0xEC
    } else {
        0xE0
    }
}

/// The tags of every stream.
pub open spec fn opus_tags() -> Seq<u8> {
    comment_packet(OPUS_VENDOR@, Seq::empty(), true)
}

/// A stream with its two header packets.
pub open spec fn opened(serial: u32, channels: int, sample_rate: u32) -> Stream {
    Stream::start(serial).with_packet(
        opus_head(channels as u8, PRE_SKIP, sample_rate),
        0,
        false,
    ).with_packet(opus_tags(), 0, false)
}

/// One packet for each frame.
pub open spec fn audio_packets(packets: Seq<Vec<u8>>) -> Seq<Packet> {
    Seq::new(packets.len(), |i: int| Packet { bytes: packets[i]@, delta: FRAME_SIZE as int })
}

/// The identification header of a stream.
pub fn write_opus_head(channels: u8, pre_skip: u16, sample_rate: u32) -> (r: Vec<u8>)
    ensures
        r@ == opus_head(channels, pre_skip, sample_rate),
        r@.len() == 19,
{
    let mut head: Vec<u8> = Vec::new();
    push_slice(&mut head, &HEAD_MAGIC);
    head.push(1);
    head.push(channels);
    proof {
        reveal_with_fuel(ogg::le_bytes, 3);
    }
    head.push((pre_skip % 256) as u8);
    head.push((pre_skip / 256) as u8);
    proof {
        assert(head@ =~= HEAD_MAGIC@ + seq![1u8, channels] + ogg::le_bytes(pre_skip as nat, 2));
        crate::ogg_laws::lemma_le_bytes_len(sample_rate as nat, 4);
    }
    push_le32(&mut head, sample_rate);
    head.push(0);
    head.push(0);
    head.push(0);
    proof {
        assert(head@ =~= opus_head(channels, pre_skip, sample_rate));
    }
    head
}

/// A comment header, for Opus or for Vorbis.
pub fn write_vorbis_comment_packet(vendor: &[u8], comments: &[Vec<u8>], opus: bool) -> (r: Vec<u8>)
    requires
        vendor@.len() <= u32::MAX,
        comments@.len() <= u32::MAX,
        forall|i: int| 0 <= i < comments@.len() ==> #[trigger] comments@[i]@.len() <= u32::MAX,
    ensures
        r@ == comment_packet(
            vendor@,
            Seq::new(comments@.len(), |i: int| comments@[i]@),
            opus,
        ),
{
    let ghost all = Seq::new(comments@.len(), |i: int| comments@[i]@);
    let mut out: Vec<u8> = Vec::new();
    if opus {
        push_slice(&mut out, &TAGS_MAGIC);
    } else {
        push_slice(&mut out, &VORBIS_COMMENT_MAGIC);
    }
    push_le32(&mut out, vendor.len() as u32);
    push_slice(&mut out, vendor);
    push_le32(&mut out, comments.len() as u32);
    let ghost front = out@;
    let mut i: usize = 0;
    proof {
        assert(front + comment_list(all.take(0)) =~= front);
    }
    while i < comments.len()
        invariant
            i <= comments@.len(),
            all == Seq::new(comments@.len(), |i: int| comments@[i]@),
            forall|i: int| 0 <= i < comments@.len() ==> #[trigger] comments@[i]@.len() <= u32::MAX,
            out@ == front + comment_list(all.take(i as int)),
        decreases comments@.len() - i,
    {
        let ghost before = out@;
        push_le32(&mut out, comments[i].len() as u32);
        push_slice(&mut out, comments[i].as_slice());
        proof {
            let next = all.take(i + 1);
            assert(next.drop_last() =~= all.take(i as int));
            assert(next.last() == comments@[i as int]@);
            assert(out@ =~= front + comment_list(next));
        }
        i = i + 1;
    }
    proof {
        assert(all.take(i as int) =~= all);
    }
    if !opus {
        out.push(1);
    }
    proof {
        assert(out@ =~= comment_packet(vendor@, all, opus));
    }
    out
}

/// Whether audio can be encoded: one or two channels, and a sample rate of
/// 48 kHz.
pub fn check_opus_input(channels: usize, sample_rate: u32) -> (r: Result<(), OpusEncodeError>)
    ensures
        match r {
            Ok(_) => 1 <= channels <= 2 && sample_rate == OPUS_SAMPLE_RATE,
            Err(OpusEncodeError::UnsupportedChannels(n)) => n == channels && !(1 <= channels <= 2),
            Err(OpusEncodeError::UnsupportedSampleRate(n)) => n == sample_rate && 1 <= channels <= 2
                && sample_rate != OPUS_SAMPLE_RATE,
            Err(_) => false,
        },
{
    if channels == 0 || channels > 2 {
        return Err(OpusEncodeError::UnsupportedChannels(channels));
    }
    if sample_rate != OPUS_SAMPLE_RATE {
        return Err(OpusEncodeError::UnsupportedSampleRate(sample_rate));
    }
    Ok(())
}

/// How many whole frames `samples` interleaved samples hold.
pub open spec fn frames_in(samples: int, channels: int) -> int {
    if channels == 0 {
        0
    } else {
        samples / (FRAME_SIZE * channels)
    }
}

/// How many whole frames `samples` interleaved samples hold.
pub fn frame_count(samples: usize, channels: usize) -> (r: usize)
    requires
        channels <= 2,
    ensures
        r == frames_in(samples as int, channels as int),
{
    if channels == 0 {
        0
    } else {
        samples / (FRAME_SIZE * channels)
    }
}

/// A CELT packet: the TOC byte and the frame.
pub fn celt_frame_packet(channels: usize, frame: &[u8]) -> (r: Vec<u8>)
    ensures
        r@ == seq![celt_toc(channels as int)] + frame@,
{
    let toc: u8 = if channels == 2 {
        0xEC
    } else {
        0xE0
    };
    let mut packet: Vec<u8> = Vec::new();
    packet.push(toc);
    push_slice(&mut packet, frame);
    proof {
        assert(packet@ =~= seq![celt_toc(channels as int)] + frame@);
    }
    packet
}

/// Open a stream with its two header packets.
fn open_stream(serial: u32, channels: usize, sample_rate: u32) -> (r: OggStream)
    requires
        channels <= 2,
    ensures
        r@ == opened(serial, channels as int, sample_rate),
        r@.granule == 0,
        !r@.finished,
{
    let mut stream = OggStream::new(serial);
    let head: Vec<u8> = write_opus_head(channels as u8, PRE_SKIP, sample_rate);
    proof {
        crate::ogg_laws::lemma_packet_state(stream@, head@, 0, false);
    }
    stream.write_packet(head.as_slice(), 0, false);
    let none: Vec<Vec<u8>> = Vec::new();
    let tags: Vec<u8> = write_vorbis_comment_packet(&OPUS_VENDOR, none.as_slice(), true);
    proof {
        assert(Seq::new(none@.len(), |i: int| none@[i]@) =~= Seq::<Seq<u8>>::empty());
        crate::ogg_laws::lemma_packet_state(stream@, tags@, 0, false);
    }
    stream.write_packet(tags.as_slice(), 0, false);
    stream
}

/// The Ogg stream of some Opus packets of 20 ms.
pub open spec fn muxed(channels: int, packets: Seq<Vec<u8>>) -> Seq<u8> {
    ogg::with_packets(
        opened(OPUS_SERIAL, channels, OPUS_SAMPLE_RATE),
        audio_packets(packets),
        true,
    ).ended().out
}

/// Join Opus packets of 20 ms into a whole Ogg stream: the header packets, a
/// page for each packet, the last of which ends the stream. Without packets a
/// page of its own ends it.
pub fn mux_opus(channels: usize, sample_rate: u32, packets: &[Vec<u8>]) -> (r: Result<
    Vec<u8>,
    OpusEncodeError,
>)
    requires
        packets@.len() * 960 <= i64::MAX,
    ensures
        match r {
            Ok(bytes) => {
                &&& 1 <= channels <= 2
                &&& sample_rate == OPUS_SAMPLE_RATE
                &&& bytes@ == muxed(channels as int, packets@)
            },
            Err(OpusEncodeError::UnsupportedChannels(n)) => n == channels && !(1 <= channels <= 2),
            Err(OpusEncodeError::UnsupportedSampleRate(n)) => n == sample_rate && 1 <= channels <= 2
                && sample_rate != OPUS_SAMPLE_RATE,
            Err(_) => false,
        },
{
    match check_opus_input(channels, sample_rate) {
        Err(e) => {
            return Err(e);
        },
        Ok(_) => {},
    }
    let mut stream = open_stream(OPUS_SERIAL, channels, sample_rate);
    let ghost all = audio_packets(packets@);
    let ghost goal = ogg::with_packets(stream@, all, true);
    let n: usize = packets.len();
    let mut i: usize = 0;
    proof {
        assert(all.skip(0) =~= all);
    }
    while i < n
        invariant
            n == packets@.len(),
            i <= n,
            n * 960 <= i64::MAX,
            all == audio_packets(packets@),
            stream@.granule == i * 960,
            goal == ogg::with_packets(stream@, all.skip(i as int), true),
        decreases n - i,
    {
        proof {
            let rest = all.skip(i as int);
            assert(rest[0] == all[i as int]);
            assert(rest.skip(1) =~= all.skip(i + 1));
            crate::ogg_laws::lemma_packet_state(
                stream@,
                packets@[i as int]@,
                FRAME_SIZE as int,
                i == n - 1,
            );
        }
        stream.write_packet(packets[i].as_slice(), FRAME_SIZE as i64, i == n - 1);
        i = i + 1;
    }
    stream.finish();
    Ok(stream.take_bytes())
}

/// One packet for each of the first `n` frames: the TOC byte and the frame.
pub open spec fn framed_packets(channels: int, frames: Seq<Vec<u8>>, n: int) -> Seq<Packet> {
    Seq::new(
        n as nat,
        |i: int|
            Packet { bytes: seq![celt_toc(channels)] + frames[i]@, delta: FRAME_SIZE as int },
    )
}

/// The Ogg stream of `samples` interleaved samples whose frames are `frames`.
pub open spec fn plain_stream(samples: int, channels: int, frames: Seq<Vec<u8>>) -> Seq<u8> {
    ogg::with_packets(
        opened(OPUS_SERIAL, channels, OPUS_SAMPLE_RATE),
        framed_packets(channels, frames, frames_in(samples, channels)),
        true,
    ).ended().out
}

/// Make the stream of `samples` interleaved samples, given each whole frame of
/// them in coded form. The bit rate is accepted and changes no byte; samples that
/// do not fill a frame are left out. The position behind the last frame has to fit
/// 64 bits: see [`law_positions_fit`].
pub fn encode_opus(
    samples: usize,
    channels: usize,
    sample_rate: u32,
    frames: &[Vec<u8>],
    _target_bitrate_kbps: u32,
) -> (r: Result<Vec<u8>, OpusEncodeError>)
    requires
        1 <= channels <= 2 && sample_rate == OPUS_SAMPLE_RATE ==> {
            &&& frames_in(samples as int, channels as int) <= frames@.len()
            &&& frames_in(samples as int, channels as int) * 960 <= i64::MAX
        },
    ensures
        match r {
            Ok(bytes) => {
                &&& 1 <= channels <= 2
                &&& sample_rate == OPUS_SAMPLE_RATE
                &&& bytes@ == plain_stream(samples as int, channels as int, frames@)
            },
            Err(OpusEncodeError::UnsupportedChannels(n)) => n == channels && !(1 <= channels <= 2),
            Err(OpusEncodeError::UnsupportedSampleRate(n)) => n == sample_rate && 1 <= channels <= 2
                && sample_rate != OPUS_SAMPLE_RATE,
            Err(_) => false,
        },
{
    match check_opus_input(channels, sample_rate) {
        Ok(_) => {},
        Err(e) => {
            return Err(e);
        },
    }
    let n: usize = frame_count(samples, channels);
    let mut packets: Vec<Vec<u8>> = Vec::new();
    let mut i: usize = 0;
    while i < n
        invariant
            i <= n <= frames@.len(),
            packets@.len() == i,
            forall|j: int|
                0 <= j < i ==> #[trigger] packets@[j]@ == seq![celt_toc(channels as int)]
                    + frames@[j]@,
        decreases n - i,
    {
        packets.push(celt_frame_packet(channels, frames[i].as_slice()));
        i = i + 1;
    }
    proof {
        assert(audio_packets(packets@) =~= framed_packets(channels as int, frames@, n as int));
    }
    mux_opus(channels, sample_rate, packets.as_slice())
}

/// What a streaming encoder has written and not handed out yet, and how far it
/// is.
#[verifier::ext_equal]
pub struct Streaming {
    /// The Ogg stream.
    pub stream: Stream,
    /// Number of channels.
    pub channels: int,
    /// Frames written.
    pub frames: nat,
}

impl Streaming {
    /// With one more frame: its packet, and 20 ms more.
    pub open spec fn with_frame(self, frame: Seq<u8>) -> Streaming {
        Streaming {
            stream: self.stream.with_packet(seq![celt_toc(self.channels)] + frame, 960, false),
            channels: self.channels,
            frames: self.frames + 1,
        }
    }
}

/// Opus encoder that takes frames one at a time and turns them into Ogg pages.
pub struct OpusStreamEncoder {
    stream: OggStream,
    channels: usize,
    granule_pos: i64,
}

impl View for OpusStreamEncoder {
    type V = Streaming;

    closed spec fn view(&self) -> Streaming {
        Streaming {
            stream: self.stream@,
            channels: self.channels as int,
            frames: (self.granule_pos / 960) as nat,
        }
    }
}

impl OpusStreamEncoder {
    /// The encoder's invariant: the position counts the frames.
    pub closed spec fn wf(&self) -> bool {
        &&& 1 <= self.channels <= 2
        &&& self.granule_pos >= 0
        &&& self.granule_pos % 960 == 0
        &&& self.stream@.granule == self.granule_pos
        &&& !self.stream@.finished
    }

    /// A new encoder with the header packets written.
    pub fn new(channels: usize, serial: u32) -> (r: Result<OpusStreamEncoder, OpusEncodeError>)
        ensures
            match r {
                Ok(enc) => {
                    &&& 1 <= channels <= 2
                    &&& enc.wf()
                    &&& enc@ == (Streaming {
                        stream: opened(serial, channels as int, OPUS_SAMPLE_RATE),
                        channels: channels as int,
                        frames: 0,
                    })
                },
                Err(OpusEncodeError::UnsupportedChannels(n)) => n == channels && !(1 <= channels
                    <= 2),
                Err(_) => false,
            },
    {
        if channels == 0 || channels > 2 {
            return Err(OpusEncodeError::UnsupportedChannels(channels));
        }
        let stream = open_stream(serial, channels, OPUS_SAMPLE_RATE);
        Ok(OpusStreamEncoder { stream, channels, granule_pos: 0 })
    }

    /// Write the frame coded from `samples` interleaved samples, which must be
    /// 20 ms of audio.
    pub fn encode_frame(&mut self, samples: usize, frame: &[u8]) -> (r: Result<
        (),
        OpusEncodeError,
    >)
        requires
            old(self).wf(),
            (old(self)@.frames + 1) * 960 <= i64::MAX,
        ensures
            final(self).wf(),
            match r {
                Ok(_) => {
                    &&& samples == 960 * old(self)@.channels
                    &&& final(self)@ == old(self)@.with_frame(frame@)
                },
                Err(e) => {
                    &&& samples != 960 * old(self)@.channels
                    &&& e == (OpusEncodeError::FrameLength {
                        expected: (960 * old(self)@.channels) as usize,
                        got: samples,
                    })
                    &&& final(self)@ == old(self)@
                },
            },
    {
        let expected: usize = FRAME_SIZE * self.channels;
        if samples != expected {
            return Err(OpusEncodeError::FrameLength { expected, got: samples });
        }
        let packet: Vec<u8> = celt_frame_packet(self.channels, frame);
        proof {
            crate::ogg_laws::lemma_packet_state(self.stream@, packet@, 960, false);
        }
        self.granule_pos = self.granule_pos + FRAME_SIZE as i64;
        self.stream.write_packet(packet.as_slice(), FRAME_SIZE as i64, false);
        Ok(())
    }

    /// Take the bytes written since the last call.
    pub fn take_bytes(&mut self) -> (r: Vec<u8>)
        requires
            old(self).wf(),
        ensures
            final(self).wf(),
            r@ == old(self)@.stream.out,
            final(self)@ == (Streaming {
                stream: (Stream { out: Seq::empty(), ..old(self)@.stream }),
                ..old(self)@
            }),
    {
        self.stream.take_bytes()
    }

    /// End the stream with a last page and return the bytes not taken yet.
    pub fn finalize(self) -> (r: Vec<u8>)
        requires
            self.wf(),
        ensures
            r@ == self@.stream.ended().out,
    {
        let mut stream = self.stream;
        stream.finish();
        stream.take_bytes()
    }

    /// The position behind the last frame: 960 for each.
    pub fn granule_pos(&self) -> (r: i64)
        requires
            self.wf(),
        ensures
            r == 960 * self@.frames,
            r == self@.stream.granule,
    {
        self.granule_pos
    }

    /// The number of frames written.
    pub fn frames_encoded(&self) -> (r: u64)
        requires
            self.wf(),
        ensures
            r == self@.frames,
    {
        (self.granule_pos as u64) / 960
    }
}

/// The streams of [`mux_opus`] and [`encode_opus`] are read back packet by
/// packet: the two headers, then every audio packet.
pub proof fn law_opus_stream_is_read_back(channels: int, audio: Seq<Packet>)
    ensures
        crate::ogg_laws::reads(
            crate::ogg_reader::Reader::start(
                ogg::with_packets(
                    opened(OPUS_SERIAL, channels, OPUS_SAMPLE_RATE),
                    audio,
                    true,
                ).ended().out,
            ),
            seq![
                Packet {
                    bytes: opus_head(channels as u8, PRE_SKIP, OPUS_SAMPLE_RATE),
                    delta: 0,
                },
                Packet { bytes: opus_tags(), delta: 0 },
            ] + audio,
        ),
{
    lemma_headers_first(OPUS_SERIAL, channels, audio, true);
    let close = audio.len() > 0;
    crate::ogg_laws::law_packets_are_read_back(OPUS_SERIAL, with_headers(channels, audio), close);
}

/// The packets of a stream: its two headers and the audio.
pub open spec fn with_headers(channels: int, audio: Seq<Packet>) -> Seq<Packet> {
    seq![
        Packet { bytes: opus_head(channels as u8, PRE_SKIP, OPUS_SAMPLE_RATE), delta: 0 },
        Packet { bytes: opus_tags(), delta: 0 },
    ] + audio
}

/// The headers are packets like the others.
pub proof fn lemma_headers_first(serial: u32, channels: int, audio: Seq<Packet>, close: bool)
    ensures
        ogg::with_packets(opened(serial, channels, OPUS_SAMPLE_RATE), audio, close)
            == ogg::with_packets(
            Stream::start(serial),
            with_headers(channels, audio),
            close && audio.len() > 0,
        ),
{
    let all = with_headers(channels, audio);
    let (head, tags) = (all[0], all[1]);
    let last = close && audio.len() > 0;
    let s = Stream::start(serial);
    assert(all.skip(1).skip(1) =~= audio);
    assert(all.skip(1)[0] == tags);
    let s1 = s.with_packet(head.bytes, 0, false);
    assert(ogg::with_packets(s, all, last) == ogg::with_packets(s1, all.skip(1), last));
    assert(ogg::with_packets(s1, all.skip(1), last) == ogg::with_packets(
        s1.with_packet(tags.bytes, 0, false),
        audio,
        last,
    ));
}

/// Samples appended within the last, incomplete frame change nothing: neither
/// the number of frames nor any byte of the stream.
pub proof fn law_incomplete_frames_are_left_out(
    samples: int,
    extra: int,
    channels: int,
    frames: Seq<Vec<u8>>,
)
    requires
        0 <= samples,
        1 <= channels <= 2,
        0 <= extra < FRAME_SIZE * channels - samples % (FRAME_SIZE * channels),
    ensures
        frames_in(samples + extra, channels) == frames_in(samples, channels),
        plain_stream(samples + extra, channels, frames) == plain_stream(samples, channels, frames),
{
    let size = FRAME_SIZE * channels;
    vstd::arithmetic::div_mod::lemma_fundamental_div_mod(samples, size);
    let q = samples / size;
    vstd::arithmetic::div_mod::lemma_fundamental_div_mod_converse(
        samples + extra,
        size,
        q,
        samples % size + extra,
    );
}

/// The stream of [`encode_opus`] is read back as its two headers and one packet
/// for each whole frame of the samples.
pub proof fn law_encoded_frames_are_read_back(samples: int, channels: int, frames: Seq<Vec<u8>>)
    ensures
        crate::ogg_laws::reads(
            crate::ogg_reader::Reader::start(plain_stream(samples, channels, frames)),
            seq![
                Packet {
                    bytes: opus_head(channels as u8, PRE_SKIP, OPUS_SAMPLE_RATE),
                    delta: 0,
                },
                Packet { bytes: opus_tags(), delta: 0 },
            ] + framed_packets(channels, frames, frames_in(samples, channels)),
        ),
{
    law_opus_stream_is_read_back(
        channels,
        framed_packets(channels, frames, frames_in(samples, channels)),
    );
}

/// The position behind the last frame fits 64 bits wherever the number of samples
/// of a channel does.
pub proof fn law_positions_fit(samples: int, channels: int)
    requires
        0 <= samples <= channels * i64::MAX,
        1 <= channels,
    ensures
        frames_in(samples, channels) * 960 <= i64::MAX,
{
    let size = FRAME_SIZE * channels;
    let q = frames_in(samples, channels);
    vstd::arithmetic::div_mod::lemma_fundamental_div_mod(samples, size);
    assert(q * 960 <= i64::MAX) by (nonlinear_arith)
        requires
            (960 * channels) * q <= channels * i64::MAX,
            1 <= channels,
    ;
}

} // verus!
