//! What a reader finds in the Ogg streams of the Opus encoders: the headers, and
//! behind them the frames that were given, in the order in which they were given.
use crate::ogg;
use crate::ogg::{Packet, Stream};
use crate::ogg_laws;
use crate::ogg_page_laws::{deltas_of, law_pages_are_in_order, pages_follow};
use crate::ogg_reader::{le_value, Outcome, Reader};
use crate::opus_encoder;
use crate::opus_encoder::{Streaming, OPUS_SAMPLE_RATE, OPUS_SERIAL, PRE_SKIP};
use vstd::prelude::*;

verus! {

/// Packet `i` that a reader hands out, if it gets that far.
pub open spec fn nth_packet(r: Reader, i: nat) -> Option<Seq<u8>>
    decreases i,
{
    match r.next() {
        (Outcome::Packet(p), next) => if i == 0 {
            Some(p)
        } else {
            nth_packet(next, (i - 1) as nat)
        },
        _ => None,
    }
}

/// A reader that finds some packets hands them out one by one.
pub proof fn lemma_nth_packet(r: Reader, packets: Seq<Packet>, i: nat)
    requires
        ogg_laws::reads(r, packets),
        i <= packets.len(),
    ensures
        nth_packet(r, i) == (if i < packets.len() {
            Some(packets[i as int].bytes)
        } else {
            None
        }),
    decreases i,
{
    if packets.len() > 0 && i > 0 {
        lemma_nth_packet(r.next().1, packets.skip(1), (i - 1) as nat);
    }
}

/// All packets behind some headers, and the end behind them.
pub proof fn lemma_packets_behind_headers(r: Reader, packets: Seq<Packet>, headers: nat)
    requires
        ogg_laws::reads(r, packets),
        headers <= packets.len(),
    ensures
        forall|i: int|
            0 <= i < packets.len() - headers ==> #[trigger] nth_packet(r, (i + headers) as nat)
                == Some(packets[i + headers].bytes),
        nth_packet(r, packets.len()) is None,
{
    assert forall|i: int| 0 <= i < packets.len() - headers implies #[trigger] nth_packet(
        r,
        (i + headers) as nat,
    ) == Some(packets[i + headers].bytes) by {
        lemma_nth_packet(r, packets, (i + headers) as nat);
    }
    lemma_nth_packet(r, packets, packets.len());
}

/// The Opus packet of a CELT frame: a TOC byte that says how many channels it has,
/// and the frame.
pub open spec fn is_packet_of(packet: Option<Seq<u8>>, channels: int, frame: Seq<u8>) -> bool {
    packet matches Some(p) && {
        &&& p.len() == frame.len() + 1
        &&& p[0] == (if channels == 2 {
            0xECu8
        } else {
            0xE0u8
        })
        &&& forall|j: int| 0 <= j < frame.len() ==> p[j + 1] == #[trigger] frame[j]
    }
}

/// A reader of the stream of [`encode_opus`](opus_encoder::encode_opus) finds, behind
/// the two headers, one packet for each 20 ms of audio: packet `i` is that of frame
/// `i`, and nothing follows the last one.
pub proof fn law_frames_are_read_in_order(samples: int, channels: int, frames: Seq<Vec<u8>>)
    requires
        0 <= samples,
        1 <= channels <= 2,
    ensures
        ({
            let r = Reader::start(opus_encoder::plain_stream(samples, channels, frames));
            let n = samples / (960 * channels);
            &&& forall|i: int|
                0 <= i < n ==> is_packet_of(
                    nth_packet(r, (i + 2) as nat),
                    channels,
                    #[trigger] frames[i]@,
                )
            &&& nth_packet(r, (n + 2) as nat) is None
        }),
{
    let r = Reader::start(opus_encoder::plain_stream(samples, channels, frames));
    let n = samples / (960 * channels);
    assert(0 <= n) by {
        vstd::arithmetic::div_mod::lemma_div_pos_is_pos(samples, 960 * channels);
    }
    let audio = opus_encoder::framed_packets(channels, frames, n);
    opus_encoder::law_encoded_frames_are_read_back(samples, channels, frames);
    let all = seq![
        Packet {
            bytes: opus_encoder::opus_head(channels as u8, PRE_SKIP, OPUS_SAMPLE_RATE),
            delta: 0,
        },
        Packet { bytes: opus_encoder::opus_tags(), delta: 0 },
    ] + audio;
    assert forall|i: int| 0 <= i < n implies is_packet_of(
        nth_packet(r, (i + 2) as nat),
        channels,
        #[trigger] frames[i]@,
    ) by {
        lemma_nth_packet(r, all, (i + 2) as nat);
        assert(all[i + 2] == audio[i]);
    }
    lemma_nth_packet(r, all, (n + 2) as nat);
}

/// Appending one frame of audio appends one packet: that of the frame. The packets
/// before it stay as they are.
pub proof fn law_one_more_frame_is_one_more_packet(
    samples: int,
    channels: int,
    frames: Seq<Vec<u8>>,
    frame: Vec<u8>,
)
    requires
        1 <= channels <= 2,
        samples == 960 * channels * frames.len(),
    ensures
        ({
            let a = Reader::start(opus_encoder::plain_stream(samples, channels, frames));
            let b = Reader::start(
                opus_encoder::plain_stream(samples + 960 * channels, channels, frames.push(frame)),
            );
            let n = frames.len();
            &&& forall|i: nat| i < n + 2 ==> #[trigger] nth_packet(a, i) == nth_packet(b, i)
            &&& nth_packet(a, n + 2) is None
            &&& is_packet_of(nth_packet(b, n + 2), channels, frame@)
            &&& nth_packet(b, n + 3) is None
        }),
{
    let more = frames.push(frame);
    let n = frames.len() as int;
    let size = 960 * channels;
    assert(samples / size == n && (samples + size) / size == n + 1) by {
        vstd::arithmetic::div_mod::lemma_div_multiples_vanish(n, size);
        assert(samples + size == size * (n + 1)) by (nonlinear_arith)
            requires
                samples == size * n,
        ;
        vstd::arithmetic::div_mod::lemma_div_multiples_vanish(n + 1, size);
    }
    assert(0 <= samples) by (nonlinear_arith)
        requires
            samples == size * n,
            0 <= size,
            0 <= n,
    ;
    let a = Reader::start(opus_encoder::plain_stream(samples, channels, frames));
    let b = Reader::start(opus_encoder::plain_stream(samples + size, channels, more));
    law_frames_are_read_in_order(samples, channels, frames);
    law_frames_are_read_in_order(samples + size, channels, more);
    opus_encoder::law_encoded_frames_are_read_back(samples, channels, frames);
    opus_encoder::law_encoded_frames_are_read_back(samples + size, channels, more);
    let headers = seq![
        Packet {
            bytes: opus_encoder::opus_head(channels as u8, PRE_SKIP, OPUS_SAMPLE_RATE),
            delta: 0,
        },
        Packet { bytes: opus_encoder::opus_tags(), delta: 0 },
    ];
    let pa = headers + opus_encoder::framed_packets(channels, frames, n);
    let pb = headers + opus_encoder::framed_packets(channels, more, n + 1);
    assert forall|i: nat| i < n + 2 implies #[trigger] nth_packet(a, i) == nth_packet(b, i) by {
        lemma_nth_packet(a, pa, i);
        lemma_nth_packet(b, pb, i);
        if i >= 2 {
            assert(more[i - 2] == frames[i - 2]);
            assert(pa[i as int] == opus_encoder::framed_packets(channels, frames, n)[i - 2]);
            assert(pb[i as int] == opus_encoder::framed_packets(channels, more, n + 1)[i - 2]);
        }
    }
    assert(more[n] == frame);
}

/// The pages of the stream of [`encode_opus`](opus_encoder::encode_opus) are in order: no
/// audio before the headers end, and 960 samples more behind each packet.
pub proof fn law_positions_count_the_samples(samples: int, channels: int, frames: Seq<Vec<u8>>)
    requires
        0 <= samples,
        1 <= channels <= 2,
    ensures
        pages_follow(
            opus_encoder::plain_stream(samples, channels, frames),
            0,
            0x1234_5678,
            0,
            false,
            0,
            seq![0int, 0] + Seq::new(
                (samples / (960 * channels)) as nat,
                |i: int| 960int,
            ),
        ),
{
    let n = samples / (960 * channels);
    let audio = opus_encoder::framed_packets(channels, frames, n);
    let all = opus_encoder::with_headers(channels, audio);
    opus_encoder::lemma_headers_first(OPUS_SERIAL, channels, audio, true);
    law_pages_are_in_order(OPUS_SERIAL, all, audio.len() > 0);
    assert(deltas_of(all) =~= seq![0int, 0] + Seq::new(n as nat, |i: int| 960int));
}

/// The fields of an identification header: the magic, version 1, the channels, the
/// pre-skip, the sample rate, no gain, mapping family 0.
pub proof fn law_head_fields(channels: u8, pre_skip: u16, sample_rate: u32)
    ensures
        ({
            let h = opus_encoder::opus_head(channels, pre_skip, sample_rate);
            &&& h.len() == 19
            &&& h.take(8) == seq![0x4Fu8, 0x70, 0x75, 0x73, 0x48, 0x65, 0x61, 0x64]
            &&& h[8] == 1
            &&& h[9] == channels
            &&& le_value(h.skip(10), 2) == pre_skip
            &&& le_value(h.skip(12), 4) == sample_rate
            &&& le_value(h.skip(16), 2) == 0
            &&& h[18] == 0
        }),
{
    let h = opus_encoder::opus_head(channels, pre_skip, sample_rate);
    let (p, r) = (ogg::le_bytes(pre_skip as nat, 2), ogg::le_bytes(sample_rate as nat, 4));
    reveal_with_fuel(crate::radix::pow256, 5);
    ogg_laws::lemma_le_round_trip(pre_skip as nat, 2, r + seq![0u8, 0u8, 0u8]);
    ogg_laws::lemma_le_round_trip(sample_rate as nat, 4, seq![0u8, 0u8, 0u8]);
    assert(h.take(8) =~= seq![0x4Fu8, 0x70, 0x75, 0x73, 0x48, 0x65, 0x61, 0x64]);
    assert(h.skip(10) =~= p + (r + seq![0u8, 0u8, 0u8]));
    assert(h.skip(12) =~= r + seq![0u8, 0u8, 0u8]);
    assert(le_value(h.skip(16), 2) == 0) by {
        reveal_with_fuel(le_value, 3);
        assert(h.skip(16)[0] == 0 && h.skip(16).skip(1)[0] == 0);
    }
}

/// A string with its length in front, at the start of `s`.
pub open spec fn string_at(s: Seq<u8>) -> Option<Seq<u8>> {
    let n = le_value(s, 4);
    if s.len() >= 4 && s.len() >= 4 + n {
        Some(s.subrange(4, 4 + n as int))
    } else {
        None
    }
}

/// What follows that string.
pub open spec fn behind_string(s: Seq<u8>) -> Seq<u8> {
    s.skip(4 + le_value(s, 4) as int)
}

/// The first of `comments` stands at the start of `s`, then the next, and behind the last
/// one only `end`.
pub open spec fn lists_comments(s: Seq<u8>, comments: Seq<Seq<u8>>, end: Seq<u8>) -> bool
    decreases comments.len(),
{
    if comments.len() == 0 {
        s == end
    } else {
        string_at(s) == Some(comments[0]) && lists_comments(
            behind_string(s),
            comments.skip(1),
            end,
        )
    }
}

/// A string is read back.
proof fn lemma_string(text: Seq<u8>, rest: Seq<u8>)
    requires
        text.len() <= u32::MAX,
    ensures
        ({
            let s = ogg::le_bytes(text.len(), 4) + text + rest;
            string_at(s) == Some(text) && behind_string(s) == rest
        }),
{
    let s = ogg::le_bytes(text.len(), 4) + text + rest;
    reveal_with_fuel(crate::radix::pow256, 5);
    ogg_laws::lemma_le_round_trip(text.len(), 4, text + rest);
    assert(s =~= ogg::le_bytes(text.len(), 4) + (text + rest));
    assert(s.subrange(4, 4 + text.len() as int) =~= text);
    assert(behind_string(s) =~= rest);
}

/// Comments are listed from the front.
proof fn lemma_comment_list(comments: Seq<Seq<u8>>)
    requires
        comments.len() > 0,
    ensures
        opus_encoder::comment_list(comments) == ogg::le_bytes(comments[0].len(), 4) + comments[0]
            + opus_encoder::comment_list(comments.skip(1)),
    decreases comments.len(),
{
    let tail = comments.skip(1);
    let none = Seq::<Seq<u8>>::empty();
    if comments.len() == 1 {
        assert(comments.drop_last() =~= none && tail =~= none);
        assert(opus_encoder::comment_list(none) =~= Seq::<u8>::empty());
        assert(opus_encoder::comment_list(comments) =~= ogg::le_bytes(comments[0].len(), 4)
            + comments[0] + opus_encoder::comment_list(tail));
    } else {
        lemma_comment_list(comments.drop_last());
        assert(comments.drop_last().skip(1) =~= tail.drop_last());
        assert(comments.drop_last()[0] == comments[0]);
        assert(tail.last() == comments.last());
        assert(opus_encoder::comment_list(comments) =~= ogg::le_bytes(comments[0].len(), 4)
            + comments[0] + opus_encoder::comment_list(tail));
    }
}

proof fn lemma_comments(comments: Seq<Seq<u8>>, end: Seq<u8>)
    requires
        forall|i: int| 0 <= i < comments.len() ==> (#[trigger] comments[i]).len() <= u32::MAX,
    ensures
        lists_comments(opus_encoder::comment_list(comments) + end, comments, end),
    decreases comments.len(),
{
    if comments.len() == 0 {
        assert(opus_encoder::comment_list(comments) + end =~= end);
    } else {
        let rest = opus_encoder::comment_list(comments.skip(1)) + end;
        assert(comments[0].len() <= u32::MAX);
        lemma_comment_list(comments);
        lemma_string(comments[0], rest);
        assert(opus_encoder::comment_list(comments) + end =~= ogg::le_bytes(comments[0].len(), 4)
            + comments[0] + rest);
        assert forall|i: int| 0 <= i < comments.skip(1).len() implies (#[trigger] comments.skip(
            1,
        )[i]).len() <= u32::MAX by {
            assert(comments.skip(1)[i] == comments[i + 1]);
        }
        lemma_comments(comments.skip(1), end);
    }
}

/// A comment header is read back: the magic of its codec, the vendor, the number of
/// comments, the comments in order, and for Vorbis the framing bit.
pub proof fn law_comments_are_read_back(vendor: Seq<u8>, comments: Seq<Seq<u8>>, opus: bool)
    requires
        vendor.len() <= u32::MAX,
        comments.len() <= u32::MAX,
        forall|i: int| 0 <= i < comments.len() ==> (#[trigger] comments[i]).len() <= u32::MAX,
    ensures
        ({
            let p = opus_encoder::comment_packet(vendor, comments, opus);
            let magic = if opus {
                seq![0x4Fu8, 0x70, 0x75, 0x73, 0x54, 0x61, 0x67, 0x73]
            } else {
                seq![3u8, 0x76, 0x6F, 0x72, 0x62, 0x69, 0x73]
            };
            let s = p.skip(magic.len() as int);
            let t = behind_string(s);
            &&& p.take(magic.len() as int) == magic
            &&& string_at(s) == Some(vendor)
            &&& t.len() >= 4
            &&& le_value(t, 4) == comments.len()
            &&& lists_comments(
                t.skip(4),
                comments,
                if opus {
                    Seq::empty()
                } else {
                    seq![1u8]
                },
            )
        }),
{
    let p = opus_encoder::comment_packet(vendor, comments, opus);
    let magic = if opus {
        seq![0x4Fu8, 0x70, 0x75, 0x73, 0x54, 0x61, 0x67, 0x73]
    } else {
        seq![3u8, 0x76, 0x6F, 0x72, 0x62, 0x69, 0x73]
    };
    let end = if opus {
        Seq::<u8>::empty()
    } else {
        seq![1u8]
    };
    let list = opus_encoder::comment_list(comments) + end;
    let count = ogg::le_bytes(comments.len(), 4);
    ogg_laws::lemma_le_bytes_len(vendor.len(), 4);
    ogg_laws::lemma_le_bytes_len(comments.len(), 4);
    assert(p.take(magic.len() as int) =~= magic);
    let s = p.skip(magic.len() as int);
    assert(s =~= ogg::le_bytes(vendor.len(), 4) + vendor + (count + list));
    lemma_string(vendor, count + list);
    reveal_with_fuel(crate::radix::pow256, 5);
    ogg_laws::lemma_le_round_trip(comments.len(), 4, list);
    assert((count + list).skip(4) =~= list);
    lemma_comments(comments, end);
}

/// A streaming encoder that got `frames`, one after the other.
pub open spec fn streamed(serial: u32, channels: int, frames: Seq<Seq<u8>>) -> Streaming
    decreases frames.len(),
{
    if frames.len() == 0 {
        Streaming {
            stream: opus_encoder::opened(serial, channels, OPUS_SAMPLE_RATE),
            channels,
            frames: 0,
        }
    } else {
        streamed(serial, channels, frames.drop_last()).with_frame(frames.last())
    }
}

/// Packets are written one after the other.
proof fn lemma_one_more_packet(s: Stream, packets: Seq<Packet>, p: Packet)
    ensures
        ogg::with_packets(s, packets.push(p), false) == ogg::with_packets(
            s,
            packets,
            false,
        ).with_packet(p.bytes, p.delta, false),
    decreases packets.len(),
{
    let all = packets.push(p);
    if packets.len() == 0 {
        let next = s.with_packet(p.bytes, p.delta, false);
        assert(all.skip(1).len() == 0);
        assert(ogg::with_packets(next, all.skip(1), false) == next);
    } else {
        lemma_one_more_packet(
            s.with_packet(packets[0].bytes, packets[0].delta, false),
            packets.skip(1),
            p,
        );
        assert(all.skip(1) =~= packets.skip(1).push(p));
    }
}

/// The packets of some frames.
spec fn frame_packets(channels: int, frames: Seq<Seq<u8>>) -> Seq<Packet> {
    Seq::new(
        frames.len(),
        |i: int| Packet { bytes: seq![opus_encoder::celt_toc(channels)] + frames[i], delta: 960 },
    )
}

proof fn lemma_streamed(serial: u32, channels: int, frames: Seq<Seq<u8>>)
    ensures
        streamed(serial, channels, frames).channels == channels,
        streamed(serial, channels, frames).frames == frames.len(),
        streamed(serial, channels, frames).stream == ogg::with_packets(
            opus_encoder::opened(serial, channels, OPUS_SAMPLE_RATE),
            frame_packets(channels, frames),
            false,
        ),
    decreases frames.len(),
{
    if frames.len() > 0 {
        let front = frames.drop_last();
        lemma_streamed(serial, channels, front);
        let p = Packet {
            bytes: seq![opus_encoder::celt_toc(channels)] + frames.last(),
            delta: 960,
        };
        lemma_one_more_packet(
            opus_encoder::opened(serial, channels, OPUS_SAMPLE_RATE),
            frame_packets(channels, front),
            p,
        );
        assert(frame_packets(channels, frames) =~= frame_packets(channels, front).push(p));
    }
}

/// A reader of a stream that was encoded frame by frame finds, behind the two headers,
/// the packet of each frame in order, and its pages are in order with 960 samples behind
/// each packet.
pub proof fn law_streamed_frames_are_read_in_order(
    serial: u32,
    channels: int,
    frames: Seq<Seq<u8>>,
)
    requires
        1 <= channels <= 2,
    ensures
        ({
            let bytes = streamed(serial, channels, frames).stream.ended().out;
            let r = Reader::start(bytes);
            let n = frames.len();
            &&& forall|i: int|
                0 <= i < n ==> is_packet_of(
                    nth_packet(r, (i + 2) as nat),
                    channels,
                    #[trigger] frames[i],
                )
            &&& nth_packet(r, n + 2) is None
            &&& streamed(serial, channels, frames).frames == n
            &&& pages_follow(
                bytes,
                0,
                serial as nat,
                0,
                false,
                0,
                seq![0int, 0] + Seq::new(n, |i: int| 960int),
            )
        }),
{
    let audio = frame_packets(channels, frames);
    let all = opus_encoder::with_headers(channels, audio);
    lemma_streamed(serial, channels, frames);
    opus_encoder::lemma_headers_first(serial, channels, audio, false);
    ogg_laws::law_packets_are_read_back(serial, all, false);
    law_pages_are_in_order(serial, all, false);
    assert(deltas_of(all) =~= seq![0int, 0] + Seq::new(frames.len(), |i: int| 960int));
    let r = Reader::start(streamed(serial, channels, frames).stream.ended().out);
    lemma_packets_behind_headers(r, all, 2);
    assert forall|i: int| 0 <= i < frames.len() implies is_packet_of(
        nth_packet(r, (i + 2) as nat),
        channels,
        #[trigger] frames[i],
    ) by {
        assert(all[i + 2] == audio[i]);
    }
}

/// Taking bytes out of a stream changes nothing of what is written later: the bytes
/// taken, followed by the later ones, are those of a stream that was left alone.
pub proof fn law_taking_bytes_changes_nothing(
    s: Stream,
    taken: Seq<u8>,
    packet: Seq<u8>,
    delta: int,
    last: bool,
)
    ensures
        ({
            let alone = Stream { out: taken + s.out, ..s };
            let a = alone.with_packet(packet, delta, last);
            let b = s.with_packet(packet, delta, last);
            &&& a == (Stream { out: taken + b.out, ..b })
            &&& alone.ended() == (Stream { out: taken + s.ended().out, ..s.ended() })
        }),
{
    let moved = Stream { granule: (s.granule + delta) as i64, ..s };
    lemma_taken_rest(moved, taken, packet, false, last);
    let alone = Stream { out: taken + s.out, ..s };
    assert(alone.ended().out =~= taken + s.ended().out);
}

proof fn lemma_taken_rest(
    s: Stream,
    taken: Seq<u8>,
    rest: Seq<u8>,
    continued: bool,
    last: bool,
)
    ensures
        (Stream { out: taken + s.out, ..s }).with_rest(rest, continued, last) == (Stream {
            out: taken + s.with_rest(rest, continued, last).out,
            ..s.with_rest(rest, continued, last)
        }),
    decreases rest.len(),
{
    let alone = Stream { out: taken + s.out, ..s };
    if rest.len() >= 65025 {
        let table = ogg::full_segments(255);
        let part = rest.take(65025);
        let next = s.with_page(continued, false, u64::MAX as nat, table, part);
        let next_alone = alone.with_page(continued, false, u64::MAX as nat, table, part);
        assert(next_alone.out =~= taken + next.out);
        lemma_taken_rest(next, taken, rest.skip(65025), true, last);
    } else {
        assert(alone.with_rest(rest, continued, last).out =~= taken + s.with_rest(
            rest,
            continued,
            last,
        ).out);
    }
}

/// A reader of the stream of [`mux_opus`](opus_encoder::mux_opus) finds two headers and
/// behind them the packets that were given, in order, 20 ms each.
pub proof fn law_packets_are_muxed_in_order(channels: int, packets: Seq<Vec<u8>>)
    ensures
        ({
            let bytes = opus_encoder::muxed(channels, packets);
            let r = Reader::start(bytes);
            &&& forall|i: int|
                0 <= i < packets.len() ==> nth_packet(r, (i + 2) as nat) == Some(
                    #[trigger] packets[i]@,
                )
            &&& nth_packet(r, packets.len() + 2) is None
            &&& pages_follow(
                bytes,
                0,
                0x1234_5678,
                0,
                false,
                0,
                seq![0int, 0] + Seq::new(packets.len(), |i: int| 960int),
            )
        }),
{
    let audio = opus_encoder::audio_packets(packets);
    let all = opus_encoder::with_headers(channels, audio);
    opus_encoder::lemma_headers_first(OPUS_SERIAL, channels, audio, true);
    ogg_laws::law_packets_are_read_back(OPUS_SERIAL, all, audio.len() > 0);
    law_pages_are_in_order(OPUS_SERIAL, all, audio.len() > 0);
    assert(deltas_of(all) =~= seq![0int, 0] + Seq::new(packets.len(), |i: int| 960int));
    let r = Reader::start(opus_encoder::muxed(channels, packets));
    lemma_packets_behind_headers(r, all, 2);
    assert forall|i: int| 0 <= i < packets.len() implies nth_packet(r, (i + 2) as nat) == Some(
        #[trigger] packets[i]@,
    ) by {
        assert(all[i + 2] == audio[i]);
    }
}

/// The first packet of every stream says how many channels it has, 312 samples of
/// pre-skip and 48 kHz; the second names the encoder and has no comments.
pub proof fn law_streams_start_with_their_headers(
    samples: int,
    channels: int,
    frames: Seq<Vec<u8>>,
)
    requires
        0 <= samples,
        1 <= channels <= 2,
    ensures
        ({
            let r = Reader::start(opus_encoder::plain_stream(samples, channels, frames));
            &&& nth_packet(r, 0) matches Some(h) && {
                &&& h.len() == 19
                &&& h.take(8) == seq![0x4Fu8, 0x70, 0x75, 0x73, 0x48, 0x65, 0x61, 0x64]
                &&& h[8] == 1
                &&& h[9] == channels
                &&& le_value(h.skip(10), 2) == PRE_SKIP
                &&& le_value(h.skip(12), 4) == 48000
            }
            &&& nth_packet(r, 1) matches Some(t) && {
                &&& t.take(8) == seq![0x4Fu8, 0x70, 0x75, 0x73, 0x54, 0x61, 0x67, 0x73]
                &&& string_at(t.skip(8)) == Some(opus_encoder::OPUS_VENDOR@)
                &&& le_value(behind_string(t.skip(8)), 4) == 0
                &&& behind_string(t.skip(8)).len() == 4
            }
        }),
{
    let n = samples / (960 * channels);
    vstd::arithmetic::div_mod::lemma_div_pos_is_pos(samples, 960 * channels);
    let audio = opus_encoder::framed_packets(channels, frames, n);
    let all = opus_encoder::with_headers(channels, audio);
    let r = Reader::start(opus_encoder::plain_stream(samples, channels, frames));
    opus_encoder::law_encoded_frames_are_read_back(samples, channels, frames);
    assert(ogg_laws::reads(r, all));
    lemma_nth_packet(r, all, 0);
    lemma_nth_packet(r, all, 1);
    law_head_fields(channels as u8, PRE_SKIP, OPUS_SAMPLE_RATE);
    law_comments_are_read_back(opus_encoder::OPUS_VENDOR@, Seq::empty(), true);
    let t = opus_encoder::opus_tags();
    let rest = behind_string(t.skip(8));
    assert(rest.skip(4) == Seq::<u8>::empty());
    assert(rest.len() == 4);
}

} // verus!
