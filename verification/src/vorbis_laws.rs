//! What a Vorbis decoder finds in the packets: every field at its place in the bytes.
use crate::bits;
use crate::ogg;
use crate::ogg::{Packet, Stream};
use crate::ogg_laws;
use crate::ogg_page_laws::{deltas_of, law_pages_are_in_order, pages_follow};
use crate::ogg_reader::{le_value, Reader};
use crate::opus_stream_laws::nth_packet;
use crate::vorbis;
use crate::vorbis::ChannelBlock;
use vstd::arithmetic::power2::*;
use vstd::prelude::*;

verus! {

/// The field of `n` bits that a decoder reads at bit `pos`: bits are taken from the low
/// end of each byte, and the first is the least significant.
pub open spec fn field(bytes: Seq<u8>, pos: int, n: nat) -> nat
    decreases n,
{
    if n == 0 {
        0
    } else {
        (bytes[pos / 8] as nat / pow2((pos % 8) as nat)) % 2 + 2 * field(
            bytes,
            pos + 1,
            (n - 1) as nat,
        )
    }
}

/// The bits of `s` from `pos` on are those of `v`.
spec fn has_field(s: Seq<bool>, pos: int, v: nat, n: nat) -> bool {
    &&& 0 <= pos
    &&& pos + n <= s.len()
    &&& forall|i: int| 0 <= i < n ==> #[trigger] s[pos + i] == bits::bit_of(v, i as nat)
}

/// A field is read from the packed bits.
proof fn lemma_field_read(s: Seq<bool>, pos: int, v: nat, n: nat)
    requires
        has_field(s, pos, v, n),
        v < pow2(n),
    ensures
        field(bits::pack_bits(s), pos, n) == v,
    decreases n,
{
    lemma2_to64();
    if n > 0 {
        let m = (n - 1) as nat;
        lemma_pow2_unfold(n);
        bits::lemma_packed_bit(s, pos);
        assert(s[pos + 0] == bits::bit_of(v, 0));
        assert(v / 1 == v);
        assert forall|i: int| 0 <= i < m implies #[trigger] s[pos + 1 + i] == bits::bit_of(
            v / 2,
            i as nat,
        ) by {
            assert(s[pos + (1 + i)] == bits::bit_of(v, (1 + i) as nat));
            bits::lemma_bit_of_shift(v, 1, i as nat);
        }
        lemma_field_read(s, pos + 1, v / 2, m);
    }
}

/// What is written stays where it is when more is appended.
proof fn lemma_field_stays(s: Seq<bool>, t: Seq<bool>, pos: int, v: nat, n: nat)
    requires
        has_field(s, pos, v, n),
        s.is_prefix_of(t),
    ensures
        has_field(t, pos, v, n),
{
    assert forall|i: int| 0 <= i < n implies #[trigger] t[pos + i] == bits::bit_of(v, i as nat) by {
        assert(s[pos + i] == t.subrange(0, s.len() as int)[pos + i]);
    }
}

/// A field behind some bits.
proof fn lemma_put(s: Seq<bool>, v: int, n: nat)
    requires
        0 <= v,
    ensures
        s.is_prefix_of(vorbis::put(s, v, n)),
        vorbis::put(s, v, n).len() == s.len() + n,
        has_field(vorbis::put(s, v, n), s.len() as int, v as nat, n),
{
    assert(s =~= vorbis::put(s, v, n).subrange(0, s.len() as int));
}

/// Parts of parts.
proof fn lemma_prefixes(a: Seq<bool>, b: Seq<bool>, c: Seq<bool>)
    requires
        a.is_prefix_of(b),
        b.is_prefix_of(c),
    ensures
        a.is_prefix_of(c),
{
    assert(a =~= c.subrange(0, a.len() as int)) by {
        assert forall|i: int| 0 <= i < a.len() implies a[i] == c[i] by {
            assert(a[i] == b.subrange(0, a.len() as int)[i]);
            assert(b[i] == c.subrange(0, b.len() as int)[i]);
        }
    }
}

/// Where the floor of channel `c` starts: behind the front of three bits and the floors
/// of the channels before, one bit for each and sixteen more if it has a curve.
pub open spec fn floor_place(blocks: Seq<ChannelBlock>, c: int) -> int
    decreases c,
{
    if c <= 0 {
        3
    } else {
        floor_place(blocks, c - 1) + (if blocks[c - 1].floor is Some {
            17int
        } else {
            1
        })
    }
}

/// Where residue entry `i` of channel `c` starts: behind all floors, 128 entries of eight
/// bits for each channel, with three bits in front.
pub open spec fn residue_place(blocks: Seq<ChannelBlock>, c: int, i: int) -> int {
    floor_place(blocks, blocks.len() as int) + 1027 * c + 3 + 8 * i
}

/// Later channels do not move the floors of earlier ones.
proof fn lemma_floor_place(blocks: Seq<ChannelBlock>, c: int)
    requires
        c < blocks.len(),
    ensures
        floor_place(blocks.drop_last(), c) == floor_place(blocks, c),
        floor_place(blocks, c) >= 3,
    decreases c,
{
    if c > 0 {
        lemma_floor_place(blocks, c - 1);
        assert(blocks.drop_last()[c - 1] == blocks[c - 1]);
    }
}

/// The bits of a channel's floor.
spec fn has_floor(s: Seq<bool>, block: ChannelBlock, pos: int) -> bool {
    &&& 0 <= pos < s.len()
    &&& s[pos] == (block.floor is Some)
    &&& block.floor matches Some((y0, y1)) ==> has_field(s, pos + 1, y0 as nat, 8) && has_field(
        s,
        pos + 9,
        y1 as nat,
        8,
    )
}

proof fn lemma_floor_stays(s: Seq<bool>, t: Seq<bool>, block: ChannelBlock, pos: int)
    requires
        has_floor(s, block, pos),
        s.is_prefix_of(t),
    ensures
        has_floor(t, block, pos),
{
    assert(s[pos] == t.subrange(0, s.len() as int)[pos]);
    if let Some((y0, y1)) = block.floor {
        lemma_field_stays(s, t, pos + 1, y0 as nat, 8);
        lemma_field_stays(s, t, pos + 9, y1 as nat, 8);
    }
}

/// The floor of one channel.
spec fn with_floor(s: Seq<bool>, block: ChannelBlock) -> Seq<bool> {
    match block.floor {
        Some((y0, y1)) => vorbis::put(vorbis::put(s.push(true), y0 as int, 8), y1 as int, 8),
        None => s.push(false),
    }
}

proof fn lemma_one_floor(s: Seq<bool>, block: ChannelBlock)
    ensures
        s.is_prefix_of(with_floor(s, block)),
        with_floor(s, block).len() == s.len() + (if block.floor is Some {
            17int
        } else {
            1
        }),
        has_floor(with_floor(s, block), block, s.len() as int),
{
    let t = with_floor(s, block);
    let end = s.len() as int;
    match block.floor {
        Some((y0, y1)) => {
            let a = s.push(true);
            let b = vorbis::put(a, y0 as int, 8);
            assert(s =~= a.subrange(0, end));
            lemma_put(a, y0 as int, 8);
            lemma_put(b, y1 as int, 8);
            lemma_prefixes(s, a, b);
            lemma_prefixes(s, b, t);
            lemma_prefixes(a, b, t);
            lemma_field_stays(b, t, end + 1, y0 as nat, 8);
            assert(a[end] == t.subrange(0, end + 1)[end]);
        },
        None => {
            assert(s =~= t.subrange(0, end));
        },
    }
}

proof fn lemma_floors_length(s: Seq<bool>, blocks: Seq<ChannelBlock>)
    requires
        s.len() == 3,
    ensures
        s.is_prefix_of(vorbis::put_floors(s, blocks)),
        vorbis::put_floors(s, blocks).len() == floor_place(blocks, blocks.len() as int),
    decreases blocks.len(),
{
    let t = vorbis::put_floors(s, blocks);
    if blocks.len() == 0 {
        assert(s =~= t.subrange(0, 3));
    } else {
        let front = vorbis::put_floors(s, blocks.drop_last());
        lemma_floors_length(s, blocks.drop_last());
        lemma_floor_place(blocks, blocks.len() - 1);
        lemma_one_floor(front, blocks.last());
        assert(t == with_floor(front, blocks.last()));
        lemma_prefixes(s, front, t);
    }
}

proof fn lemma_floor_at(s: Seq<bool>, blocks: Seq<ChannelBlock>, c: int)
    requires
        s.len() == 3,
        0 <= c < blocks.len(),
    ensures
        has_floor(vorbis::put_floors(s, blocks), blocks[c], floor_place(blocks, c)),
    decreases blocks.len(),
{
    let t = vorbis::put_floors(s, blocks);
    let front = vorbis::put_floors(s, blocks.drop_last());
    lemma_floors_length(s, blocks.drop_last());
    lemma_floor_place(blocks, c);
    lemma_floor_place(blocks, blocks.len() - 1);
    lemma_one_floor(front, blocks.last());
    assert(t == with_floor(front, blocks.last()));
    if c < blocks.len() - 1 {
        lemma_floor_at(s, blocks.drop_last(), c);
        assert(blocks.drop_last()[c] == blocks[c]);
        lemma_floor_stays(front, t, blocks[c], floor_place(blocks, c));
    }
}

proof fn lemma_bytes(s: Seq<bool>, values: Seq<u8>)
    ensures
        ({
            let t = vorbis::put_bytes(s, values);
            &&& s.is_prefix_of(t)
            &&& t.len() == s.len() + 8 * values.len()
            &&& forall|i: int|
                0 <= i < values.len() ==> has_field(
                    t,
                    s.len() + 8 * i,
                    #[trigger] values[i] as nat,
                    8,
                )
        }),
    decreases values.len(),
{
    let t = vorbis::put_bytes(s, values);
    if values.len() == 0 {
        assert(s =~= t.subrange(0, s.len() as int));
    } else {
        let front = vorbis::put_bytes(s, values.drop_last());
        lemma_bytes(s, values.drop_last());
        lemma_put(front, values.last() as int, 8);
        lemma_prefixes(s, front, t);
        assert forall|i: int| 0 <= i < values.len() implies has_field(
            t,
            s.len() + 8 * i,
            #[trigger] values[i] as nat,
            8,
        ) by {
            if i < values.len() - 1 {
                assert(values.drop_last()[i] == values[i]);
                lemma_field_stays(front, t, s.len() + 8 * i, values[i] as nat, 8);
            }
        }
    }
}

/// The residue of the channels takes 1027 bits each.
proof fn lemma_residues_length(s: Seq<bool>, blocks: Seq<ChannelBlock>)
    requires
        forall|c: int|
            0 <= c < blocks.len() ==> vorbis::residue_of(#[trigger] blocks[c]).len() == 128,
    ensures
        s.is_prefix_of(vorbis::put_residues(s, blocks)),
        vorbis::put_residues(s, blocks).len() == s.len() + 1027 * blocks.len(),
    decreases blocks.len(),
{
    let t = vorbis::put_residues(s, blocks);
    if blocks.len() == 0 {
        assert(s =~= t.subrange(0, s.len() as int));
    } else {
        let n = blocks.len() - 1;
        assert forall|c: int| 0 <= c < n implies vorbis::residue_of(
            #[trigger] blocks.drop_last()[c],
        ).len() == 128 by {
            assert(blocks.drop_last()[c] == blocks[c]);
        }
        let front = vorbis::put_residues(s, blocks.drop_last());
        lemma_residues_length(s, blocks.drop_last());
        let a = vorbis::put(front, 0, 3);
        lemma_put(front, 0, 3);
        assert(blocks.last() == blocks[n]);
        lemma_bytes(a, vorbis::residue_of(blocks.last()));
        lemma_prefixes(front, a, t);
        lemma_prefixes(s, front, t);
    }
}

/// Entry `i` of channel `c`, and the class in front of the entries.
proof fn lemma_residue_at(s: Seq<bool>, blocks: Seq<ChannelBlock>, c: int, i: int)
    requires
        forall|j: int|
            0 <= j < blocks.len() ==> vorbis::residue_of(#[trigger] blocks[j]).len() == 128,
        0 <= c < blocks.len(),
        0 <= i < 128,
    ensures
        ({
            let t = vorbis::put_residues(s, blocks);
            let pos = s.len() + 1027 * c;
            &&& has_field(t, pos, 0, 3)
            &&& has_field(t, pos + 3 + 8 * i, vorbis::residue_of(blocks[c])[i] as nat, 8)
        }),
    decreases blocks.len(),
{
    let t = vorbis::put_residues(s, blocks);
    let n = blocks.len() - 1;
    assert forall|j: int| 0 <= j < n implies vorbis::residue_of(
        #[trigger] blocks.drop_last()[j],
    ).len() == 128 by {
        assert(blocks.drop_last()[j] == blocks[j]);
    }
    let front = vorbis::put_residues(s, blocks.drop_last());
    lemma_residues_length(s, blocks.drop_last());
    let a = vorbis::put(front, 0, 3);
    lemma_put(front, 0, 3);
    assert(blocks.last() == blocks[n]);
    let values = vorbis::residue_of(blocks.last());
    lemma_bytes(a, values);
    lemma_prefixes(front, a, t);
    let pos = s.len() + 1027 * c;
    if c < n {
        assert(blocks.drop_last()[c] == blocks[c]);
        lemma_residue_at(s, blocks.drop_last(), c, i);
        lemma_field_stays(front, t, pos, 0, 3);
        lemma_field_stays(
            front,
            t,
            pos + 3 + 8 * i,
            vorbis::residue_of(blocks[c])[i] as nat,
            8,
        );
    } else {
        lemma_field_stays(a, t, pos, 0, 3);
        assert(values[i] == vorbis::residue_of(blocks[c])[i]);
    }
}

/// A decoder reads the front of an audio packet and the floors back: packet type 0, the
/// sizes of the neighbours, and for each channel in order a flag and the two ends of its
/// curve.
pub proof fn law_floors_are_read_back(prev_long: bool, next_long: bool, blocks: Seq<ChannelBlock>)
    requires
        forall|c: int|
            0 <= c < blocks.len() && vorbis::is_heard(#[trigger] blocks[c])
                ==> blocks[c].residue@.len() == 128,
    ensures
        ({
            let r = vorbis::audio_packet(prev_long, next_long, blocks);
            &&& field(r, 0, 1) == 0
            &&& field(r, 1, 1) == (if prev_long {
                1nat
            } else {
                0
            })
            &&& field(r, 2, 1) == (if next_long {
                1nat
            } else {
                0
            })
            &&& forall|c: int|
                0 <= c < blocks.len() ==> ({
                    let pos = floor_place(blocks, c);
                    match (#[trigger] blocks[c]).floor {
                        Some((y0, y1)) => field(r, pos, 1) == 1 && field(r, pos + 1, 8) == y0
                            && field(r, pos + 9, 8) == y1,
                        None => field(r, pos, 1) == 0,
                    }
                })
        }),
{
    let s = seq![false, prev_long, next_long];
    let t = vorbis::put_floors(s, blocks);
    let all = vorbis::audio_bits(prev_long, next_long, blocks);
    lemma_floors_length(s, blocks);
    assert(t.is_prefix_of(all)) by {
        if vorbis::has_audio(blocks) {
            lemma_residue_lengths(blocks);
            lemma_residues_length(t, blocks);
        } else {
            assert(t =~= all.subrange(0, t.len() as int));
        }
    }
    lemma_prefixes(s, t, all);
    lemma2_to64();
    assert forall|i: int| 0 <= i < 3 implies all[i] == s[i] by {
        assert(s[i] == all.subrange(0, 3)[i]);
    }
    lemma_flag_read(all, 0);
    lemma_flag_read(all, 1);
    lemma_flag_read(all, 2);
    assert forall|c: int| 0 <= c < blocks.len() implies ({
        let r = bits::pack_bits(all);
        let pos = floor_place(blocks, c);
        match (#[trigger] blocks[c]).floor {
            Some((y0, y1)) => field(r, pos, 1) == 1 && field(r, pos + 1, 8) == y0 && field(
                r,
                pos + 9,
                8,
            ) == y1,
            None => field(r, pos, 1) == 0,
        }
    }) by {
        let pos = floor_place(blocks, c);
        lemma_floor_at(s, blocks, c);
        lemma_floor_stays(t, all, blocks[c], pos);
        lemma_flag_read(all, pos);
        if let Some((y0, y1)) = blocks[c].floor {
            lemma_field_read(all, pos + 1, y0 as nat, 8);
            lemma_field_read(all, pos + 9, y1 as nat, 8);
        }
    }
}

/// A single bit.
proof fn lemma_flag_read(s: Seq<bool>, pos: int)
    requires
        0 <= pos < s.len(),
    ensures
        field(bits::pack_bits(s), pos, 1) == (if s[pos] {
            1nat
        } else {
            0
        }),
{
    lemma2_to64();
    let v: nat = if s[pos] {
        1
    } else {
        0
    };
    assert(has_field(s, pos, v, 1)) by {
        assert(v / 1 == v);
    }
    lemma_field_read(s, pos, v, 1);
}

/// Every channel has 128 entries.
proof fn lemma_residue_lengths(blocks: Seq<ChannelBlock>)
    requires
        forall|c: int|
            0 <= c < blocks.len() && vorbis::is_heard(#[trigger] blocks[c])
                ==> blocks[c].residue@.len() == 128,
    ensures
        forall|c: int|
            0 <= c < blocks.len() ==> vorbis::residue_of(#[trigger] blocks[c]).len() == 128,
{
    assert forall|c: int| 0 <= c < blocks.len() implies vorbis::residue_of(
        #[trigger] blocks[c],
    ).len() == 128 by {
        if vorbis::is_heard(blocks[c]) {
            assert(blocks[c].residue@.len() == 128);
        }
    }
}

proof fn lemma_residue_bits(
    prev_long: bool,
    next_long: bool,
    blocks: Seq<ChannelBlock>,
    c: int,
    i: int,
)
    requires
        forall|j: int|
            0 <= j < blocks.len() && vorbis::is_heard(#[trigger] blocks[j])
                ==> blocks[j].residue@.len() == 128,
        vorbis::has_audio(blocks),
        0 <= c < blocks.len(),
        0 <= i < 128,
    ensures
        ({
            let all = vorbis::audio_bits(prev_long, next_long, blocks);
            let v = vorbis::residue_of(blocks[c])[i] as nat;
            &&& has_field(all, residue_place(blocks, c, i), v, 8)
            &&& has_field(all, residue_place(blocks, c, 0) - 3, 0, 3)
            &&& all.len() == floor_place(blocks, blocks.len() as int) + 1027 * blocks.len()
        }),
{
    let s = seq![false, prev_long, next_long];
    let t = vorbis::put_floors(s, blocks);
    lemma_floors_length(s, blocks);
    lemma_residue_lengths(blocks);
    lemma_residues_length(t, blocks);
    lemma_residue_at(t, blocks, c, i);
}

/// In a block in which some channel has a curve, a decoder reads the residue of every
/// channel back, coefficient by coefficient: entry `i` of channel `c` stands at its place
/// with the value that was given. A channel without a curve, or with one that starts at
/// zero, has zeros there.
pub proof fn law_residues_are_read_back(
    prev_long: bool,
    next_long: bool,
    blocks: Seq<ChannelBlock>,
    c: int,
    i: int,
)
    requires
        forall|j: int|
            0 <= j < blocks.len() && vorbis::is_heard(#[trigger] blocks[j])
                ==> blocks[j].residue@.len() == 128,
        exists|j: int| 0 <= j < blocks.len() && (#[trigger] blocks[j]).floor is Some,
        0 <= c < blocks.len(),
        0 <= i < 128,
    ensures
        ({
            let r = vorbis::audio_packet(prev_long, next_long, blocks);
            let entry = field(r, residue_place(blocks, c, i), 8);
            &&& field(r, residue_place(blocks, c, 0) - 3, 3) == 0
            &&& match blocks[c].floor {
                Some((y0, _)) => entry == (if y0 != 0 {
                    blocks[c].residue@[i] as nat
                } else {
                    0
                }),
                None => entry == 0,
            }
            &&& r.len() == (floor_place(blocks, blocks.len() as int) + 1027 * blocks.len() + 7) / 8
        }),
{
    let all = vorbis::audio_bits(prev_long, next_long, blocks);
    lemma_residue_bits(prev_long, next_long, blocks, c, i);
    lemma_residue_bits(prev_long, next_long, blocks, c, 0);
    lemma2_to64();
    lemma_field_read(
        all,
        residue_place(blocks, c, i),
        vorbis::residue_of(blocks[c])[i] as nat,
        8,
    );
    lemma_field_read(all, residue_place(blocks, c, 0) - 3, 0, 3);
}

/// A reader of the stream of [`mux_vorbis`](vorbis::mux_vorbis) finds three headers and
/// behind them the packets that were given, in order; the pages are in order, with 1024
/// samples behind each packet.
pub proof fn law_packets_are_read_in_order(
    channels: int,
    sample_rate: u32,
    packets: Seq<Vec<u8>>,
)
    requires
        packets.len() > 0,
    ensures
        ({
            let bytes = vorbis::muxed(channels, sample_rate, packets);
            let r = Reader::start(bytes);
            &&& forall|i: int|
                0 <= i < packets.len() ==> nth_packet(r, (i + 3) as nat) == Some(
                    #[trigger] packets[i]@,
                )
            &&& nth_packet(r, packets.len() + 3) is None
            &&& pages_follow(
                bytes,
                0,
                0xABCD_1234,
                0,
                false,
                0,
                seq![0int, 0, 0] + Seq::new(packets.len(), |i: int| 1024int),
            )
        }),
{
    let audio = vorbis::audio_packets(packets);
    let all = vorbis::with_headers(channels, sample_rate, audio);
    vorbis::lemma_headers_first(channels, sample_rate, audio);
    vorbis::lemma_last_packet_finishes(vorbis::opened(channels, sample_rate), audio);
    lemma_packets_in_order(all, packets);
}

/// Packets behind three headers.
proof fn lemma_packets_in_order(all: Seq<Packet>, packets: Seq<Vec<u8>>)
    requires
        packets.len() > 0,
        all.len() == packets.len() + 3,
        all[0].delta == 0,
        all[1].delta == 0,
        all[2].delta == 0,
        forall|i: int|
            0 <= i < packets.len() ==> #[trigger] all[i + 3] == (Packet {
                bytes: packets[i]@,
                delta: 1024,
            }),
        ogg::with_packets(Stream::start(0xABCD_1234), all, true).finished,
    ensures
        ({
            let bytes = ogg::with_packets(Stream::start(0xABCD_1234), all, true).out;
            let r = Reader::start(bytes);
            &&& forall|i: int|
                0 <= i < packets.len() ==> nth_packet(r, (i + 3) as nat) == Some(
                    #[trigger] packets[i]@,
                )
            &&& nth_packet(r, packets.len() + 3) is None
            &&& pages_follow(
                bytes,
                0,
                0xABCD_1234,
                0,
                false,
                0,
                seq![0int, 0, 0] + Seq::new(packets.len(), |i: int| 1024int),
            )
        }),
{
    ogg_laws::law_packets_are_read_back(0xABCD_1234, all, true);
    law_pages_are_in_order(0xABCD_1234, all, true);
    let deltas = seq![0int, 0, 0] + Seq::new(packets.len(), |i: int| 1024int);
    assert forall|i: int| 0 <= i < all.len() implies #[trigger] deltas_of(all)[i] == deltas[i] by {
        if i >= 3 {
            assert(all[(i - 3) + 3].delta == 1024);
        }
    }
    assert(deltas_of(all) =~= deltas);
    let r = Reader::start(ogg::with_packets(Stream::start(0xABCD_1234), all, true).out);
    crate::opus_stream_laws::lemma_packets_behind_headers(r, all, 3);
    assert forall|i: int| 0 <= i < packets.len() implies nth_packet(r, (i + 3) as nat) == Some(
        #[trigger] packets[i]@,
    ) by {
        assert(all[i + 3].bytes == packets[i]@);
    }
}

/// The fields of an identification header: the magic, version 0, the channels, the sample
/// rate, no bit rates, blocks of `2^8` and `2^11` samples, the framing bit.
pub proof fn law_ident_fields(channels: u8, sample_rate: u32)
    ensures
        ({
            let h = vorbis::ident_header(channels, sample_rate);
            &&& h.len() == 30
            &&& h.take(7) == seq![1u8, 0x76, 0x6F, 0x72, 0x62, 0x69, 0x73]
            &&& le_value(h.skip(7), 4) == 0
            &&& h[11] == channels
            &&& le_value(h.skip(12), 4) == sample_rate
            &&& le_value(h.skip(16), 4) == 0
            &&& le_value(h.skip(20), 4) == 0
            &&& le_value(h.skip(24), 4) == 0
            &&& h[28] % 16 == 8
            &&& h[28] / 16 == 11
            &&& h[29] == 1
        }),
{
    let h = vorbis::ident_header(channels, sample_rate);
    lemma2_to64();
    crate::radix::lemma_bit_len_unique(256, 9);
    crate::radix::lemma_bit_len_unique(2048, 12);
    reveal_with_fuel(crate::radix::pow256, 5);
    let z = ogg::le_bytes(0, 4);
    let r = ogg::le_bytes(sample_rate as nat, 4);
    let end = seq![vorbis::block_sizes() as u8, 1u8];
    ogg_laws::lemma_le_round_trip(0, 4, seq![channels] + r + z + z + z + end);
    ogg_laws::lemma_le_round_trip(sample_rate as nat, 4, z + z + z + end);
    ogg_laws::lemma_le_round_trip(0, 4, z + z + end);
    ogg_laws::lemma_le_round_trip(0, 4, z + end);
    ogg_laws::lemma_le_round_trip(0, 4, end);
    assert(h.take(7) =~= seq![1u8, 0x76, 0x6F, 0x72, 0x62, 0x69, 0x73]);
    assert(h.skip(7) =~= z + (seq![channels] + r + z + z + z + end));
    assert(h.skip(12) =~= r + (z + z + z + end));
    assert(h.skip(16) =~= z + (z + z + end));
    assert(h.skip(20) =~= z + (z + end));
    assert(h.skip(24) =~= z + end);
}

/// A run of fields: the value of each and its width in bits.
pub struct Field {
    pub value: int,
    pub width: nat,
}

/// Where field `k` starts.
pub open spec fn place_of(fields: Seq<Field>, k: int) -> int
    decreases k,
{
    if k <= 0 {
        0
    } else {
        place_of(fields, k - 1) + fields[k - 1].width
    }
}

/// Fields `i` and up behind `s`.
spec fn spelled(s: Seq<bool>, fields: Seq<Field>, i: int) -> Seq<bool>
    decreases fields.len() - i,
{
    if i >= fields.len() {
        s
    } else {
        spelled(vorbis::put(s, fields[i].value, fields[i].width), fields, i + 1)
    }
}

/// Every value fits its width.
spec fn fit(fields: Seq<Field>) -> bool {
    forall|k: int|
        0 <= k < fields.len() ==> 0 <= (#[trigger] fields[k]).value < pow2(fields[k].width)
}

/// Runs of fields behind each other.
proof fn lemma_joined(s: Seq<bool>, a: Seq<Field>, b: Seq<Field>, i: int)
    requires
        0 <= i <= a.len(),
    ensures
        spelled(s, a + b, i) == spelled(spelled(s, a, i), b, 0),
    decreases a.len() - i,
{
    if i < a.len() {
        lemma_joined(vorbis::put(s, a[i].value, a[i].width), a, b, i + 1);
        assert((a + b)[i] == a[i]);
    } else {
        lemma_second(s, a, b, 0);
    }
}

proof fn lemma_second(s: Seq<bool>, a: Seq<Field>, b: Seq<Field>, j: int)
    requires
        0 <= j <= b.len(),
    ensures
        spelled(s, a + b, a.len() + j) == spelled(s, b, j),
    decreases b.len() - j,
{
    if j < b.len() {
        assert((a + b)[a.len() + j] == b[j]);
        lemma_second(vorbis::put(s, b[j].value, b[j].width), a, b, j + 1);
    }
}

/// Each field of a run is at its place.
proof fn lemma_spelled(s: Seq<bool>, fields: Seq<Field>, i: int, k: int)
    requires
        0 <= i <= fields.len(),
        s.len() == place_of(fields, i),
        fit(fields),
        i <= k < fields.len() || k == -1,
    ensures
        s.is_prefix_of(spelled(s, fields, i)),
        spelled(s, fields, i).len() == place_of(fields, fields.len() as int),
        k >= 0 ==> has_field(
            spelled(s, fields, i),
            place_of(fields, k),
            fields[k].value as nat,
            fields[k].width,
        ),
    decreases fields.len() - i,
{
    if i < fields.len() {
        let t = vorbis::put(s, fields[i].value, fields[i].width);
        assert(0 <= fields[i].value);
        lemma_put(s, fields[i].value, fields[i].width);
        lemma_spelled(
            t,
            fields,
            i + 1,
            if k > i {
                k
            } else {
                -1
            },
        );
        let all = spelled(s, fields, i);
        lemma_prefixes(s, t, all);
        if k == i {
            lemma_field_stays(t, all, place_of(fields, k), fields[k].value as nat, fields[k].width);
        }
    } else {
        assert(s =~= s.subrange(0, s.len() as int));
    }
}

/// `count` fields with the value `value`.
pub open spec fn repeated(value: int, width: nat, count: nat) -> Seq<Field> {
    Seq::new(count, |i: int| Field { value, width })
}

/// The numbers below `count`, in order.
pub open spec fn counting(width: nat, count: nat) -> Seq<Field> {
    Seq::new(count, |i: int| Field { value: i, width })
}

proof fn lemma_one_more_field(s: Seq<bool>, fields: Seq<Field>, f: Field)
    ensures
        spelled(s, fields.push(f), 0) == vorbis::put(spelled(s, fields, 0), f.value, f.width),
{
    let one = seq![f];
    assert(fields.push(f) =~= fields + one);
    lemma_joined(s, fields, one, 0);
    reveal_with_fuel(spelled, 3);
}

proof fn lemma_repeated(s: Seq<bool>, value: int, width: nat, count: nat)
    ensures
        spelled(s, repeated(value, width, count), 0) == vorbis::put_times(s, value, width, count),
    decreases count,
{
    if count > 0 {
        let m = (count - 1) as nat;
        lemma_repeated(s, value, width, m);
        lemma_one_more_field(s, repeated(value, width, m), Field { value, width });
        assert(repeated(value, width, count) =~= repeated(value, width, m).push(
            Field { value, width },
        ));
    }
}

proof fn lemma_counting(s: Seq<bool>, width: nat, count: nat)
    ensures
        spelled(s, counting(width, count), 0) == vorbis::put_ramp(s, width, count),
    decreases count,
{
    if count > 0 {
        let m = (count - 1) as nat;
        lemma_counting(s, width, m);
        lemma_one_more_field(s, counting(width, m), Field { value: m as int, width });
        assert(counting(width, count) =~= counting(width, m).push(
            Field { value: m as int, width },
        ));
    }
}

/// A codebook of one dimension: the sync pattern `BCV`, the dimension, the number of
/// entries, neither ordered nor sparse, and the length of each codeword less one.
pub open spec fn book_fields(entries: nat, length: int) -> Seq<Field> {
    seq![
        Field { value: 0x42, width: 8 },
        Field { value: 0x43, width: 8 },
        Field { value: 0x56, width: 8 },
        Field { value: 1, width: 16 },
        Field { value: entries as int, width: 24 },
        Field { value: 0, width: 1 },
        Field { value: 0, width: 1 },
    ] + repeated(length - 1, 5, entries)
}

/// The values of the residue book: its least one and its step as packed floats, eight
/// bits for each multiplicand, none built on the one before, and the multiplicands.
pub open spec fn value_fields() -> Seq<Field> {
    seq![
        Field { value: 1, width: 4 },
        Field { value: 0xE2F8_0000, width: 32 },
        Field { value: 0x6218_1818, width: 32 },
        Field { value: 7, width: 4 },
        Field { value: 0, width: 1 },
    ] + counting(8, 256)
}

/// One time transform; one floor of type 1 with positions 0, 1024, 341 and 682; one
/// residue of type 0 for the coefficients from 0 to 128 in partitions of 32, with class
/// book 0 and value book 1; one mapping without coupling; one mode with long blocks; the
/// framing bit.
pub open spec fn part_fields() -> Seq<Field> {
    seq![
        Field { value: 0, width: 6 },
        Field { value: 0, width: 16 },
    ] + seq![
        Field { value: 0, width: 6 },
        Field { value: 1, width: 16 },
        Field { value: 1, width: 5 },
        Field { value: 0, width: 4 },
        Field { value: 1, width: 3 },
        Field { value: 0, width: 2 },
        Field { value: 0, width: 1 },
        Field { value: 0, width: 2 },
        Field { value: 10, width: 4 },
        Field { value: 341, width: 10 },
        Field { value: 682, width: 10 },
    ] + seq![
        Field { value: 0, width: 6 },
        Field { value: 0, width: 16 },
        Field { value: 0, width: 24 },
        Field { value: 128, width: 24 },
        Field { value: 31, width: 24 },
        Field { value: 0, width: 6 },
        Field { value: 0, width: 8 },
        Field { value: 1, width: 3 },
        Field { value: 0, width: 1 },
        Field { value: 1, width: 8 },
    ] + seq![
        Field { value: 0, width: 6 },
        Field { value: 0, width: 16 },
        Field { value: 0, width: 1 },
        Field { value: 0, width: 1 },
        Field { value: 0, width: 2 },
        Field { value: 0, width: 8 },
        Field { value: 0, width: 8 },
        Field { value: 0, width: 8 },
    ] + seq![
        Field { value: 0, width: 6 },
        Field { value: 1, width: 1 },
        Field { value: 0, width: 16 },
        Field { value: 0, width: 16 },
        Field { value: 0, width: 8 },
        Field { value: 1, width: 1 },
    ]
}

/// All fields of the setup header: two codebooks, eight classes in three bits without
/// values and 256 residue values in eight bits, and the other parts.
pub open spec fn setup_fields() -> Seq<Field> {
    seq![Field { value: 1, width: 8 }] + book_fields(8, 3) + seq![Field { value: 0, width: 4 }]
        + book_fields(256, 8) + value_fields() + part_fields()
}

/// A single bit is a field.
proof fn lemma_bit(s: Seq<bool>, b: bool)
    ensures
        s.push(b) == vorbis::put(
            s,
            if b {
                1
            } else {
                0
            },
            1,
        ),
{
    lemma2_to64();
    let v: nat = if b {
        1
    } else {
        0
    };
    assert(v / 1 == v);
    assert(s.push(b) =~= s + bits::value_bits(v, 1));
}

proof fn lemma_book(s: Seq<bool>, entries: nat, length: int)
    ensures
        spelled(s, book_fields(entries, length), 0) == vorbis::put_codebook(s, entries, length),
{
    let head = seq![
        Field { value: 0x42, width: 8 },
        Field { value: 0x43, width: 8 },
        Field { value: 0x56, width: 8 },
        Field { value: 1, width: 16 },
        Field { value: entries as int, width: 24 },
        Field { value: 0, width: 1 },
        Field { value: 0, width: 1 },
    ];
    let s1 = vorbis::put(s, 0x42, 8);
    let s2 = vorbis::put(s1, 0x43, 8);
    let s3 = vorbis::put(s2, 0x56, 8);
    let s4 = vorbis::put(s3, 1, 16);
    let s5 = vorbis::put(s4, entries as int, 24);
    let s6 = s5.push(false);
    let s7 = s6.push(false);
    lemma_bit(s5, false);
    lemma_bit(s6, false);
    reveal_with_fuel(spelled, 8);
    assert(spelled(s, head, 0) == s7);
    lemma_joined(s, head, repeated(length - 1, 5, entries), 0);
    lemma_repeated(s7, length - 1, 5, entries);
}

proof fn lemma_values(s: Seq<bool>)
    ensures
        ({
            let s1 = vorbis::put(s, 1, 4);
            let s2 = vorbis::put(s1, vorbis::packed_float(vorbis::RESIDUE_MINIMUM), 32);
            let s3 = vorbis::put(s2, vorbis::packed_float(vorbis::RESIDUE_STEP), 32);
            let s4 = vorbis::put(s3, 7, 4);
            spelled(s, value_fields(), 0) == vorbis::put_ramp(s4.push(false), 8, 256)
        }),
{
    let head = seq![
        Field { value: 1, width: 4 },
        Field { value: 0xE2F8_0000, width: 32 },
        Field { value: 0x6218_1818, width: 32 },
        Field { value: 7, width: 4 },
        Field { value: 0, width: 1 },
    ];
    lemma2_to64();
    assert(vorbis::packed_float(vorbis::RESIDUE_MINIMUM) == 0xE2F8_0000);
    assert(vorbis::packed_float(vorbis::RESIDUE_STEP) == 0x6218_1818);
    let s1 = vorbis::put(s, 1, 4);
    let s2 = vorbis::put(s1, 0xE2F8_0000, 32);
    let s3 = vorbis::put(s2, 0x6218_1818, 32);
    let s4 = vorbis::put(s3, 7, 4);
    lemma_bit(s4, false);
    reveal_with_fuel(spelled, 6);
    assert(spelled(s, head, 0) == s4.push(false));
    lemma_joined(s, head, counting(8, 256), 0);
    lemma_counting(s4.push(false), 8, 256);
}

proof fn lemma_books(s: Seq<bool>)
    ensures
        spelled(
            s,
            seq![Field { value: 1, width: 8 }] + book_fields(8, 3) + seq![
                Field { value: 0, width: 4 },
            ] + book_fields(256, 8) + value_fields(),
            0,
        ) == vorbis::put_codebooks(s),
{
    let (a, b) = (seq![Field { value: 1, width: 8 }], book_fields(8, 3));
    let (c, e, v) = (seq![Field { value: 0, width: 4 }], book_fields(256, 8), value_fields());
    lemma_joined(s, a + b + c + e, v, 0);
    lemma_joined(s, a + b + c, e, 0);
    lemma_joined(s, a + b, c, 0);
    lemma_joined(s, a, b, 0);
    reveal_with_fuel(spelled, 2);
    let s1 = vorbis::put(s, 1, 8);
    let s2 = vorbis::put_codebook(s1, 8, 3);
    let s3 = vorbis::put(s2, 0, 4);
    let s4 = vorbis::put_codebook(s3, 256, 8);
    assert(spelled(s, a, 0) == s1);
    lemma_book(s1, 8, 3);
    assert(spelled(s2, c, 0) == s3);
    lemma_book(s3, 256, 8);
    lemma_values(s4);
}

proof fn lemma_parts(s: Seq<bool>)
    ensures
        spelled(s, part_fields(), 0) == vorbis::put_mode(
            vorbis::put_mapping(
                vorbis::put_residue(vorbis::put_floor(vorbis::put_time(s))),
            ),
        ).push(true),
{
    let time = seq![Field { value: 0, width: 6 }, Field { value: 0, width: 16 }];
    let floor = seq![
        Field { value: 0, width: 6 },
        Field { value: 1, width: 16 },
        Field { value: 1, width: 5 },
        Field { value: 0, width: 4 },
        Field { value: 1, width: 3 },
        Field { value: 0, width: 2 },
        Field { value: 0, width: 1 },
        Field { value: 0, width: 2 },
        Field { value: 10, width: 4 },
        Field { value: 341, width: 10 },
        Field { value: 682, width: 10 },
    ];
    let residue = seq![
        Field { value: 0, width: 6 },
        Field { value: 0, width: 16 },
        Field { value: 0, width: 24 },
        Field { value: 128, width: 24 },
        Field { value: 31, width: 24 },
        Field { value: 0, width: 6 },
        Field { value: 0, width: 8 },
        Field { value: 1, width: 3 },
        Field { value: 0, width: 1 },
        Field { value: 1, width: 8 },
    ];
    let mapping = seq![
        Field { value: 0, width: 6 },
        Field { value: 0, width: 16 },
        Field { value: 0, width: 1 },
        Field { value: 0, width: 1 },
        Field { value: 0, width: 2 },
        Field { value: 0, width: 8 },
        Field { value: 0, width: 8 },
        Field { value: 0, width: 8 },
    ];
    let mode = seq![
        Field { value: 0, width: 6 },
        Field { value: 1, width: 1 },
        Field { value: 0, width: 16 },
        Field { value: 0, width: 16 },
        Field { value: 0, width: 8 },
        Field { value: 1, width: 1 },
    ];
    lemma_joined(s, time + floor + residue + mapping, mode, 0);
    lemma_joined(s, time + floor + residue, mapping, 0);
    lemma_joined(s, time + floor, residue, 0);
    lemma_joined(s, time, floor, 0);
    let s1 = vorbis::put_time(s);
    assert(spelled(s, time, 0) == s1) by {
        reveal_with_fuel(spelled, 3);
    }
    let s2 = vorbis::put_floor(s1);
    assert(spelled(s1, floor, 0) == s2) by {
        reveal_with_fuel(spelled, 12);
    }
    let s3 = vorbis::put_residue(s2);
    lemma_residue_fields(s2, residue);
    let s4 = vorbis::put_mapping(s3);
    lemma_mapping_fields(s3, mapping);
    lemma_mode_fields(s4, mode);
}

proof fn lemma_residue_fields(s: Seq<bool>, f: Seq<Field>)
    requires
        f == seq![
            Field { value: 0, width: 6 },
            Field { value: 0, width: 16 },
            Field { value: 0, width: 24 },
            Field { value: 128, width: 24 },
            Field { value: 31, width: 24 },
            Field { value: 0, width: 6 },
            Field { value: 0, width: 8 },
            Field { value: 1, width: 3 },
            Field { value: 0, width: 1 },
            Field { value: 1, width: 8 },
        ],
    ensures
        spelled(s, f, 0) == vorbis::put_residue(s),
{
    let s1 = vorbis::put(s, 0, 6);
    let s2 = vorbis::put(s1, 0, 16);
    let s3 = vorbis::put(s2, 0, 24);
    let s4 = vorbis::put(s3, 128, 24);
    let s5 = vorbis::put(s4, 31, 24);
    let s6 = vorbis::put(s5, 0, 6);
    let s7 = vorbis::put(s6, 0, 8);
    let s8 = vorbis::put(s7, 1, 3);
    lemma_bit(s8, false);
    reveal_with_fuel(spelled, 11);
}

proof fn lemma_mapping_fields(s: Seq<bool>, f: Seq<Field>)
    requires
        f == seq![
            Field { value: 0, width: 6 },
            Field { value: 0, width: 16 },
            Field { value: 0, width: 1 },
            Field { value: 0, width: 1 },
            Field { value: 0, width: 2 },
            Field { value: 0, width: 8 },
            Field { value: 0, width: 8 },
            Field { value: 0, width: 8 },
        ],
    ensures
        spelled(s, f, 0) == vorbis::put_mapping(s),
{
    let s1 = vorbis::put(s, 0, 6);
    let s2 = vorbis::put(s1, 0, 16);
    lemma_bit(s2, false);
    lemma_bit(s2.push(false), false);
    reveal_with_fuel(spelled, 9);
}

proof fn lemma_mode_fields(s: Seq<bool>, f: Seq<Field>)
    requires
        f == seq![
            Field { value: 0, width: 6 },
            Field { value: 1, width: 1 },
            Field { value: 0, width: 16 },
            Field { value: 0, width: 16 },
            Field { value: 0, width: 8 },
            Field { value: 1, width: 1 },
        ],
    ensures
        spelled(s, f, 0) == vorbis::put_mode(s).push(true),
{
    let s1 = vorbis::put(s, 0, 6);
    lemma_bit(s1, true);
    lemma_bit(vorbis::put_mode(s), true);
    reveal_with_fuel(spelled, 7);
}

/// All values of the setup header fit.
proof fn lemma_setup_fits()
    ensures
        fit(setup_fields()),
{
    lemma2_to64();
    lemma2_to64_rest();
    let f = setup_fields();
    assert forall|k: int| 0 <= k < f.len() implies 0 <= (#[trigger] f[k]).value < pow2(
        f[k].width,
    ) by {
        assert(book_fields(8, 3).len() == 15 && book_fields(256, 8).len() == 263);
        assert(value_fields().len() == 261 && part_fields().len() == 37);
        assert(f.len() == 578);
        if k == 0 {
        } else if k < 16 {
            assert(f[k] == book_fields(8, 3)[k - 1]);
        } else if k == 16 {
        } else if k < 280 {
            assert(f[k] == book_fields(256, 8)[k - 17]);
        } else if k < 541 {
            assert(f[k] == value_fields()[k - 280]);
        } else {
            assert(f[k] == part_fields()[k - 541]);
        }
    }
}

/// A decoder reads the setup header field by field.
pub proof fn law_setup_header_is_read_back(k: int)
    requires
        0 <= k < setup_fields().len(),
    ensures
        ({
            let h = vorbis::setup_header();
            let f = setup_fields();
            &&& h.take(7) == seq![5u8, 0x76, 0x6F, 0x72, 0x62, 0x69, 0x73]
            &&& field(h.skip(7), place_of(f, k), f[k].width) == f[k].value
            &&& h.len() == 7 + (place_of(f, f.len() as int) + 7) / 8
        }),
{
    reveal(vorbis::setup_bits);
    let f = setup_fields();
    let h = vorbis::setup_header();
    let none = Seq::<bool>::empty();
    let books = seq![Field { value: 1, width: 8 }] + book_fields(8, 3) + seq![
        Field { value: 0, width: 4 },
    ] + book_fields(256, 8) + value_fields();
    lemma_joined(none, books, part_fields(), 0);
    lemma_books(none);
    lemma_parts(vorbis::put_codebooks(none));
    let all = vorbis::setup_bits();
    assert(spelled(none, f, 0) == all);
    lemma_setup_fits();
    lemma_spelled(none, f, 0, k);
    assert(0 <= f[k].value < pow2(f[k].width));
    lemma_field_read(all, place_of(f, k), f[k].value as nat, f[k].width);
    assert(h.skip(7) =~= bits::pack_bits(all));
    assert(h.take(7) =~= seq![5u8, 0x76, 0x6F, 0x72, 0x62, 0x69, 0x73]);
}

/// Blocks overlap by half and cover the audio: each starts 1024 samples behind the one
/// before it and has at most 2048; every sample is in one of the blocks, of which there
/// is one for every 1024 whole samples; the first has none before it, the last none
/// behind it.
pub proof fn law_blocks_cover_the_audio(samples: int, index: int)
    requires
        1024 <= samples,
        0 <= index < samples / 1024,
    ensures
        ({
            let n = samples / 1024;
            let (start, end, before, behind) = vorbis::planned(samples, index);
            let next = vorbis::planned(samples, index + 1);
            &&& vorbis::planned(samples, 0).0 == 0
            &&& vorbis::planned(samples, n - 1).1 == samples
            &&& next.0 == start + 1024
            &&& start + 1024 <= end <= start + 2048
            &&& index + 1 < n ==> end == start + 2048 && next.0 < end
            &&& before == (index != 0)
            &&& behind == (index != n - 1)
        }),
{
}

} // verus!
