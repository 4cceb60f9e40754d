//! The pages of a written stream: their numbers, flags, positions and checksums.
use crate::ogg;
use crate::ogg::{Packet, Stream};
use crate::ogg_laws;
use crate::ogg_reader;
use crate::ogg_reader::{Found, Page};
use vstd::prelude::*;

verus! {

/// The checksum field of the page from `pos` to `end` is the checksum of the page with
/// zeros in the field.
pub open spec fn checksum_holds(stream: Seq<u8>, pos: int, end: int) -> bool {
    ogg_reader::le_value(stream.skip(pos + 22), 4) == ogg_reader::crc_of(
        stream.subrange(pos, pos + 22) + seq![0u8, 0u8, 0u8, 0u8] + stream.subrange(pos + 26, end),
    )
}

/// A packet ends with the page.
pub open spec fn ends_a_packet(page: Page) -> bool {
    page.table.len() > 0 && page.table.last() < 255
}

/// From `pos` to its end the stream is made of pages in order: all of one stream,
/// numbered from `number` on, each with a right checksum; page 0 alone is marked as the
/// first one and the very last alone as the last one; a page is marked as continued
/// exactly if the one before it ended within a packet. Each packet moves the position,
/// which is `at` so far, by its delta; a page on which a packet ends has the position
/// behind the packet, a page within a packet has none, and one without packets has the
/// position so far.
pub open spec fn pages_follow(
    stream: Seq<u8>,
    pos: int,
    serial: nat,
    number: nat,
    continued: bool,
    at: i64,
    deltas: Seq<int>,
) -> bool
    decreases stream.len() - pos,
{
    match ogg_reader::page_at(stream, pos) {
        Found::Page(page, next) => {
            let moved = (at + deltas[0]) as i64;
            &&& pos < next <= stream.len()
            &&& page.serial == serial
            &&& page.seq_num == number % 0x1_0000_0000
            &&& checksum_holds(stream, pos, next)
            &&& (page.header_type % 2 == 1) == continued
            &&& (page.header_type / 2 % 2 == 1) == (number == 0)
            &&& (page.header_type / 4 % 2 == 1) == (next == stream.len())
            &&& if ends_a_packet(page) {
                &&& deltas.len() > 0
                &&& page.granule == moved as u64
                &&& if next == stream.len() {
                    deltas.len() == 1
                } else {
                    pages_follow(stream, next, serial, number + 1, false, moved, deltas.skip(1))
                }
            } else if page.table.len() > 0 {
                &&& page.granule == u64::MAX
                &&& next < stream.len()
                &&& pages_follow(stream, next, serial, number + 1, true, at, deltas)
            } else {
                &&& page.granule == at as u64
                &&& next == stream.len()
                &&& deltas.len() == 0
            }
        },
        _ => false,
    }
}

/// A stream that has written `number` pages.
spec fn linked(s: Stream, number: nat) -> bool {
    &&& s.seq_num == number % 0x1_0000_0000
    &&& s.started == (number > 0)
}

/// The flags of a page.
proof fn lemma_flag_bits(continued: bool, first: bool, last: bool)
    ensures
        ({
            let f = ogg::page_flags(continued, first, last);
            &&& (f % 2 == 1) == continued
            &&& (f / 2 % 2 == 1) == first
            &&& (f / 4 % 2 == 1) == last
        }),
{
}

/// A written page has a right checksum.
proof fn lemma_checksum(
    before: Seq<u8>,
    flags: u8,
    granule: nat,
    serial: nat,
    seq_num: nat,
    table: Seq<u8>,
    data: Seq<u8>,
    after: Seq<u8>,
)
    requires
        table.len() <= 255,
    ensures
        ({
            let page = ogg::page_bytes(flags, granule, serial, seq_num, table, data);
            checksum_holds(
                before + page + after,
                before.len() as int,
                (before.len() + page.len()) as int,
            )
        }),
{
    let page = ogg::page_bytes(flags, granule, serial, seq_num, table, data);
    let head = ogg::page_head(flags, granule, serial, seq_num);
    let body = ogg::page_body(table, data);
    let zero = ogg::le_bytes(0, 4);
    let crc = ogg_reader::crc_of(head + zero + body);
    ogg_laws::lemma_le_bytes_len(granule, 8);
    ogg_laws::lemma_le_bytes_len(serial, 4);
    ogg_laws::lemma_le_bytes_len(seq_num, 4);
    assert(head.len() == 22);
    assert(zero =~= seq![0u8, 0u8, 0u8, 0u8]) by {
        reveal_with_fuel(ogg::le_bytes, 5);
    }
    let all = before + page + after;
    let pos = before.len() as int;
    let c = ogg::le_bytes(crc as nat, 4);
    reveal_with_fuel(crate::radix::pow256, 9);
    ogg_laws::lemma_le_round_trip(crc as nat, 4, body + after);
    assert(all.skip(pos + 22) =~= c + (body + after));
    assert(all.subrange(pos, pos + 22) =~= head);
    assert(all.subrange(pos + 26, pos + page.len()) =~= body);
}

/// One page: where it is and what it says.
proof fn lemma_one_page(
    s: Stream,
    continued: bool,
    last: bool,
    granule: nat,
    table: Seq<u8>,
    data: Seq<u8>,
    stream: Seq<u8>,
    number: nat,
)
    requires
        linked(s, number),
        granule <= u64::MAX,
        table.len() <= 255,
        data.len() == ogg_reader::table_sum(table),
        s.with_page(continued, last, granule, table, data).out.is_prefix_of(stream),
    ensures
        ({
            let next = s.with_page(continued, last, granule, table, data);
            let pos = s.out.len() as int;
            let end = next.out.len() as int;
            &&& linked(next, number + 1)
            &&& pos < end <= stream.len()
            &&& checksum_holds(stream, pos, end)
            &&& ogg_reader::page_at(stream, pos) matches Found::Page(page, after) && {
                &&& after == end
                &&& page.serial == s.serial
                &&& page.seq_num == number % 0x1_0000_0000
                &&& page.granule == granule
                &&& page.table == table
                &&& (page.header_type % 2 == 1) == continued
                &&& (page.header_type / 2 % 2 == 1) == (number == 0)
                &&& (page.header_type / 4 % 2 == 1) == last
            }
        }),
{
    let next = s.with_page(continued, last, granule, table, data);
    let flags = ogg::page_flags(continued, !s.started, last);
    lemma_flag_bits(continued, !s.started, last);
    let after = ogg_laws::lemma_prefix_split(next.out, stream);
    ogg_laws::lemma_page_found(
        s.out,
        flags,
        granule,
        s.serial as nat,
        s.seq_num as nat,
        table,
        data,
        after,
    );
    lemma_checksum(
        s.out,
        flags,
        granule,
        s.serial as nat,
        s.seq_num as nat,
        table,
        data,
        after,
    );
    let page = ogg::page_bytes(
        flags,
        granule,
        s.serial as nat,
        s.seq_num as nat,
        table,
        data,
    );
    assert(stream =~= s.out + page + after);
}

/// Packets make the stream longer.
proof fn lemma_rest_grows(s: Stream, rest: Seq<u8>, continued: bool, last: bool)
    ensures
        s.out.len() < s.with_rest(rest, continued, last).out.len(),
    decreases rest.len(),
{
    if rest.len() >= 65025 {
        let next = s.with_page(
            continued,
            false,
            u64::MAX as nat,
            ogg::full_segments(255),
            rest.take(65025),
        );
        lemma_rest_grows(next, rest.skip(65025), true, last);
    }
}

/// The pages of one packet, in front of those of the packets behind it.
proof fn lemma_rest_pages(
    s: Stream,
    rest: Seq<u8>,
    continued: bool,
    last: bool,
    stream: Seq<u8>,
    number: nat,
    at: i64,
    deltas: Seq<int>,
)
    requires
        linked(s, number),
        deltas.len() > 0,
        s.granule == (at + deltas[0]) as i64,
        s.with_rest(rest, continued, last).out.is_prefix_of(stream),
        ({
            let end = s.with_rest(rest, continued, last).out.len() as int;
            if last {
                end == stream.len() && deltas.len() == 1
            } else {
                end < stream.len() && pages_follow(
                    stream,
                    end,
                    s.serial as nat,
                    number + rest.len() / 65025 + 1,
                    false,
                    s.granule,
                    deltas.skip(1),
                )
            }
        }),
    ensures
        pages_follow(
            stream,
            s.out.len() as int,
            s.serial as nat,
            number,
            continued,
            at,
            deltas,
        ),
    decreases rest.len(),
{
    if rest.len() >= 65025 {
        let table = ogg::full_segments(255);
        let next = s.with_page(continued, false, u64::MAX as nat, table, rest.take(65025));
        let later = rest.skip(65025);
        ogg_laws::lemma_full(255);
        ogg_laws::lemma_rest_appends(next, later, true, last);
        lemma_rest_grows(next, later, true, last);
        ogg_laws::lemma_prefix(next.out, s.with_rest(rest, continued, last).out, stream);
        lemma_one_page(
            s,
            continued,
            false,
            u64::MAX as nat,
            table,
            rest.take(65025),
            stream,
            number,
        );
        assert(number + rest.len() / 65025 + 1 == (number + 1) + later.len() / 65025 + 1);
        lemma_rest_pages(next, later, true, last, stream, number + 1, at, deltas);
        assert(table.last() == 255);
    } else {
        let table = ogg::lacing(rest.len());
        ogg_laws::lemma_lacing(rest.len());
        lemma_lacing_ends(rest.len());
        lemma_one_page(
            s,
            continued,
            last,
            s.granule as u64 as nat,
            table,
            rest,
            stream,
            number,
        );
        assert(rest.len() / 65025 == 0);
    }
}

/// The last segment of a packet is not full.
proof fn lemma_lacing_ends(len: nat)
    ensures
        ogg::lacing(len).len() > 0,
        ogg::lacing(len).last() < 255,
    decreases len,
{
    if len >= 255 {
        lemma_lacing_ends((len - 255) as nat);
        assert(ogg::lacing(len).last() == ogg::lacing((len - 255) as nat).last());
    }
}

/// What the pages of a packet do to the stream's state.
proof fn lemma_rest_linked(s: Stream, rest: Seq<u8>, continued: bool, last: bool, number: nat)
    requires
        linked(s, number),
    ensures
        linked(s.with_rest(rest, continued, last), number + rest.len() / 65025 + 1),
    decreases rest.len(),
{
    if rest.len() >= 65025 {
        let next = s.with_page(
            continued,
            false,
            u64::MAX as nat,
            ogg::full_segments(255),
            rest.take(65025),
        );
        let later = rest.skip(65025);
        assert(linked(next, number + 1));
        lemma_rest_linked(next, later, true, last, number + 1);
        assert(rest.len() / 65025 == later.len() / 65025 + 1);
    } else {
        assert(rest.len() / 65025 == 0);
    }
}

/// How far each packet moves the position.
pub open spec fn deltas_of(packets: Seq<Packet>) -> Seq<int> {
    Seq::new(packets.len(), |i: int| packets[i].delta)
}

proof fn lemma_packets_pages(s: Stream, packets: Seq<Packet>, close: bool, number: nat)
    requires
        linked(s, number),
        !s.finished,
    ensures
        pages_follow(
            ogg::with_packets(s, packets, close).ended().out,
            s.out.len() as int,
            s.serial as nat,
            number,
            false,
            s.granule,
            deltas_of(packets),
        ),
    decreases packets.len(),
{
    let stream = ogg::with_packets(s, packets, close).ended().out;
    if packets.len() == 0 {
        let none = Seq::<u8>::empty();
        assert(s.ended().out =~= stream.subrange(0, stream.len() as int));
        lemma_one_page(s, false, true, s.granule as u64 as nat, none, none, stream, number);
    } else {
        let last = close && packets.len() == 1;
        let p = packets[0];
        let moved = Stream { granule: (s.granule + p.delta) as i64, ..s };
        let next = s.with_packet(p.bytes, p.delta, last);
        let more = number + p.bytes.len() / 65025 + 1;
        ogg_laws::lemma_rest_finished(moved, p.bytes, false, last);
        lemma_rest_linked(moved, p.bytes, false, last, number);
        ogg_laws::lemma_packets_append(next, packets.skip(1), close);
        assert(deltas_of(packets).skip(1) =~= deltas_of(packets.skip(1)));
        if last {
            assert(packets.skip(1).len() == 0);
            assert(stream == next.out);
        } else {
            lemma_packets_pages(next, packets.skip(1), close, more);
            assert(next.out.len() < stream.len());
        }
        lemma_rest_pages(
            moved,
            p.bytes,
            false,
            last,
            stream,
            number,
            s.granule,
            deltas_of(packets),
        );
    }
}

/// Whatever packets are written into a stream, its pages are in order from the first to
/// the last: numbers, flags, checksums, and the position behind each packet.
pub proof fn law_pages_are_in_order(serial: u32, packets: Seq<Packet>, close: bool)
    ensures
        pages_follow(
            ogg::with_packets(Stream::start(serial), packets, close).ended().out,
            0,
            serial as nat,
            0,
            false,
            0,
            deltas_of(packets),
        ),
{
    lemma_packets_pages(Stream::start(serial), packets, close, 0);
}

/// Flipping the last bit of any data changes its checksum by the polynomial
/// `x^26 + x^23 + x^22 + x^16 + x^12 + x^11 + x^10 + x^8 + x^7 + x^5 + x^4 + x^2 + x + 1`.
pub proof fn law_last_bit_changes_the_checksum(data: Seq<u8>, byte: u8)
    ensures
        ogg_reader::crc_of(data.push(byte ^ 1)) == ogg_reader::crc_of(data.push(byte))
            ^ 0x04C1_1DB7,
{
    let crc = ogg_reader::crc_of(data);
    assert(data.push(byte).drop_last() =~= data);
    assert(data.push(byte ^ 1).drop_last() =~= data);
    let (a, b) = (crc ^ ((byte as u32) << 24), crc ^ (((byte ^ 1) as u32) << 24));
    assert(b == a ^ 0x0100_0000) by (bit_vector)
        requires
            a == crc ^ ((byte as u32) << 24),
            b == crc ^ (((byte ^ 1) as u32) << 24),
    ;
    assert(0x0100_0000u32 << 1 == 0x0200_0000 && 0x0200_0000u32 << 1 == 0x0400_0000 && 0x0400_0000u32
        << 1 == 0x0800_0000 && 0x0800_0000u32 << 1 == 0x1000_0000 && 0x1000_0000u32 << 1
        == 0x2000_0000 && 0x2000_0000u32 << 1 == 0x4000_0000 && 0x4000_0000u32 << 1 == 0x8000_0000)
        by (bit_vector);
    assert(0x0100_0000u32 & 0x8000_0000 == 0 && 0x0200_0000u32 & 0x8000_0000 == 0 && 0x0400_0000u32
        & 0x8000_0000 == 0 && 0x0800_0000u32 & 0x8000_0000 == 0 && 0x1000_0000u32 & 0x8000_0000 == 0
        && 0x2000_0000u32 & 0x8000_0000 == 0 && 0x4000_0000u32 & 0x8000_0000 == 0) by (bit_vector);
    let (a1, b1) = lemma_low_difference(a, b, 0x0100_0000);
    let (a2, b2) = lemma_low_difference(a1, b1, 0x0200_0000);
    let (a3, b3) = lemma_low_difference(a2, b2, 0x0400_0000);
    let (a4, b4) = lemma_low_difference(a3, b3, 0x0800_0000);
    let (a5, b5) = lemma_low_difference(a4, b4, 0x1000_0000);
    let (a6, b6) = lemma_low_difference(a5, b5, 0x2000_0000);
    let (a7, b7) = lemma_low_difference(a6, b6, 0x4000_0000);
    lemma_top_difference(a7, b7);
    reveal_with_fuel(ogg_reader::crc_shifts, 9);
}

/// A difference below the top bit is shifted along.
proof fn lemma_low_difference(a: u32, b: u32, diff: u32) -> (r: (u32, u32))
    requires
        b == a ^ diff,
        diff & 0x8000_0000 == 0,
    ensures
        r == (ogg_reader::crc_shift(a), ogg_reader::crc_shift(b)),
        r.1 == r.0 ^ (diff << 1),
{
    let p = 0x04C1_1DB7u32;
    assert(b == a ^ diff && diff & 0x8000_0000 == 0 ==> (b & 0x8000_0000) == (a & 0x8000_0000) && b
        << 1 == (a << 1) ^ (diff << 1) && ((a << 1) ^ (diff << 1)) ^ p == ((a << 1) ^ p) ^ (diff
        << 1)) by (bit_vector);
    (ogg_reader::crc_shift(a), ogg_reader::crc_shift(b))
}

/// A difference in the top bit becomes the polynomial.
proof fn lemma_top_difference(a: u32, b: u32)
    requires
        b == a ^ 0x8000_0000,
    ensures
        ogg_reader::crc_shift(b) == ogg_reader::crc_shift(a) ^ 0x04C1_1DB7,
{
    let p = 0x04C1_1DB7u32;
    assert(b == a ^ 0x8000_0000 ==> (b & 0x8000_0000 != 0) == (a & 0x8000_0000 == 0) && b << 1 == a
        << 1 && ((a << 1) ^ p) ^ p == a << 1) by (bit_vector);
}

} // verus!
