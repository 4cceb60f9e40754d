//! A reader gets back the packets that were written, and checksums catch up
//! with what they follow.
use crate::ogg;
use crate::ogg::{Packet, Stream};
use crate::ogg_reader;
use crate::ogg_reader::{Found, Outcome, Page, Reader};
use vstd::prelude::*;

verus! {

/// The reader finds these packets and then the end of the stream.
pub open spec fn reads(r: Reader, packets: Seq<Packet>) -> bool
    decreases packets.len(),
{
    if packets.len() == 0 {
        r.next().0 is End
    } else {
        r.next().0 == Outcome::Packet(packets[0].bytes) && reads(r.next().1, packets.skip(1))
    }
}

/// A number's bytes spell the number.
pub proof fn lemma_le_round_trip(v: nat, n: nat, rest: Seq<u8>)
    requires
        v < crate::radix::pow256(n),
    ensures
        ogg::le_bytes(v, n).len() == n,
        ogg_reader::le_value(ogg::le_bytes(v, n) + rest, n) == v,
    decreases n,
{
    if n > 0 {
        let m = (n - 1) as nat;
        lemma_le_round_trip(v / 256, m, rest);
        let s = ogg::le_bytes(v, n) + rest;
        assert(s.skip(1) =~= ogg::le_bytes(v / 256, m) + rest);
        assert(s[0] == (v % 256) as u8);
    }
}

/// How many bytes a number takes.
pub proof fn lemma_le_bytes_len(v: nat, n: nat)
    ensures
        ogg::le_bytes(v, n).len() == n,
    decreases n,
{
    if n > 0 {
        lemma_le_bytes_len(v / 256, (n - 1) as nat);
    }
}

/// What a packet does to a stream besides its bytes.
pub proof fn lemma_packet_state(s: Stream, packet: Seq<u8>, delta: int, last: bool)
    ensures
        i64::MIN <= s.granule + delta <= i64::MAX ==> s.with_packet(packet, delta, last).granule
            == s.granule + delta,
        s.with_packet(packet, delta, last).finished == (s.finished || last),
        s.with_packet(packet, delta, last).serial == s.serial,
{
    let moved = Stream { granule: (s.granule + delta) as i64, ..s };
    lemma_rest_finished(moved, packet, false, last);
}

/// The lengths of `lacing` add up.
pub proof fn lemma_lacing(len: nat)
    ensures
        ogg_reader::table_sum(ogg::lacing(len)) == len,
        ogg::lacing(len).len() == len / 255 + 1,
    decreases len,
{
    let t = ogg::lacing(len);
    if len >= 255 {
        lemma_lacing((len - 255) as nat);
        assert(t.skip(1) =~= ogg::lacing((len - 255) as nat));
    } else {
        assert(t.skip(1) =~= Seq::empty());
        assert(ogg_reader::table_sum(t.skip(1)) == 0);
    }
}

/// The lengths of full segments add up.
pub proof fn lemma_full(n: nat)
    ensures
        ogg_reader::table_sum(ogg::full_segments(n)) == 255 * n,
    decreases n,
{
    if n > 0 {
        lemma_full((n - 1) as nat);
        assert(ogg::full_segments(n).skip(1) =~= ogg::full_segments((n - 1) as nat));
    }
}

/// Full segments do not complete a packet.
proof fn lemma_take_full(buf: Seq<u8>, n: nat, data: Seq<u8>)
    requires
        data.len() == 255 * n,
    ensures
        ({
            let t = ogg_reader::take_segments(buf, ogg::full_segments(n), data);
            &&& !t.complete
            &&& t.buf == buf + data
            &&& t.table == Seq::<u8>::empty()
            &&& t.data == Seq::<u8>::empty()
        }),
    decreases n,
{
    let table = ogg::full_segments(n);
    if n > 0 {
        assert(table.skip(1) =~= ogg::full_segments((n - 1) as nat));
        lemma_take_full(buf + data.take(255), (n - 1) as nat, data.skip(255));
        assert(buf + data.take(255) + data.skip(255) =~= buf + data);
    } else {
        assert(buf + data =~= buf);
        assert(data =~= Seq::empty());
        assert(table =~= Seq::empty());
    }
}

/// The segments of a packet's end complete it.
proof fn lemma_take_laced(buf: Seq<u8>, data: Seq<u8>)
    ensures
        ({
            let t = ogg_reader::take_segments(buf, ogg::lacing(data.len()), data);
            &&& t.complete
            &&& t.buf == buf + data
            &&& t.table == Seq::<u8>::empty()
            &&& t.data == Seq::<u8>::empty()
        }),
    decreases data.len(),
{
    let table = ogg::lacing(data.len());
    if data.len() >= 255 {
        assert(table.skip(1) =~= ogg::lacing((data.len() - 255) as nat));
        lemma_take_laced(buf + data.take(255), data.skip(255));
        assert(buf + data.take(255) + data.skip(255) =~= buf + data);
    } else {
        assert(data.take(data.len() as int) =~= data);
        assert(data.skip(data.len() as int) =~= Seq::empty());
        assert(table.skip(1) =~= Seq::empty());
    }
}

/// A page is found where it was written.
pub proof fn lemma_page_found(
    before: Seq<u8>,
    flags: u8,
    granule: nat,
    serial: nat,
    seq_num: nat,
    table: Seq<u8>,
    data: Seq<u8>,
    after: Seq<u8>,
)
    requires
        granule <= u64::MAX,
        serial <= u32::MAX,
        seq_num <= u32::MAX,
        table.len() <= 255,
        data.len() == ogg_reader::table_sum(table),
    ensures
        ({
            let page = ogg::page_bytes(flags, granule, serial, seq_num, table, data);
            &&& page.len() == 27 + table.len() + data.len()
            &&& ogg_reader::page_at(before + page + after, before.len() as int) == Found::Page(
                Page { header_type: flags, granule, serial, seq_num, table, data },
                (before.len() + page.len()) as int,
            )
        }),
{
    let page = ogg::page_bytes(flags, granule, serial, seq_num, table, data);
    let head = ogg::page_head(flags, granule, serial, seq_num);
    let body = ogg::page_body(table, data);
    let crc = crate::ogg_reader::crc_of(head + ogg::le_bytes(0, 4) + body);
    reveal_with_fuel(crate::radix::pow256, 9);
    let tag = seq![0x4Fu8, 0x67u8, 0x67u8, 0x53u8, 0u8, flags];
    let (g, s, q, c) = (
        ogg::le_bytes(granule, 8),
        ogg::le_bytes(serial, 4),
        ogg::le_bytes(seq_num, 4),
        ogg::le_bytes(crc as nat, 4),
    );
    lemma_le_round_trip(granule, 8, s + q + c + body + after);
    lemma_le_round_trip(serial, 4, q + c + body + after);
    lemma_le_round_trip(seq_num, 4, c + body + after);
    lemma_le_round_trip(crc as nat, 4, body + after);
    let all = before + page + after;
    let t = all.skip(before.len() as int);
    assert(t =~= tag + g + s + q + c + body + after);
    assert(t.skip(6) =~= g + (s + q + c + body + after));
    assert(t.skip(14) =~= s + (q + c + body + after));
    assert(t.skip(18) =~= q + (c + body + after));
    assert(t[26] == table.len() as u8);
    assert(t.subrange(27, 27 + t[26]) =~= table);
    assert(t.subrange(27 + t[26], 27 + t[26] + data.len()) =~= data);
    assert(t[0] == tag[0] && t[1] == tag[1] && t[2] == tag[2] && t[3] == tag[3] && t[4] == tag[4]
        && t[5] == tag[5]);
}

/// A reader that is between two pages.
spec fn between(stream: Seq<u8>, pos: int, buf: Seq<u8>) -> Reader {
    Reader { stream, pos, buf, table: Seq::empty(), data: Seq::empty(), eos: false }
}

/// The page flags say whether the page is the last one.
proof fn lemma_flags(continued: bool, first: bool, last: bool)
    ensures
        ogg_reader::is_last_page(ogg::page_flags(continued, first, last)) == last,
{
}

/// Writing only ever appends.
pub proof fn lemma_rest_appends(s: Stream, rest: Seq<u8>, continued: bool, last: bool)
    ensures
        s.out.is_prefix_of(s.with_rest(rest, continued, last).out),
    decreases rest.len(),
{
    if rest.len() >= 65025 {
        let next = s.with_page(
            continued,
            false,
            u64::MAX as nat,
            ogg::full_segments(255),
            rest.take(65025),
        );
        lemma_rest_appends(next, rest.skip(65025), true, last);
        lemma_prefix(s.out, next.out, next.with_rest(rest.skip(65025), true, last).out);
    }
}

/// Being a prefix is transitive.
pub proof fn lemma_prefix(a: Seq<u8>, b: Seq<u8>, c: Seq<u8>)
    requires
        a.is_prefix_of(b),
        b.is_prefix_of(c),
    ensures
        a.is_prefix_of(c),
{
    assert(a =~= c.subrange(0, a.len() as int)) by {
        assert forall|i: int| 0 <= i < a.len() implies a[i] == c[i] by {
            assert(a[i] == b.subrange(0, a.len() as int)[i]);
            assert(b[i] == c.subrange(0, b.len() as int)[i]);
        }
    }
}

/// A stream that starts with `a` is `a` and something behind it.
pub proof fn lemma_prefix_split(a: Seq<u8>, c: Seq<u8>) -> (rest: Seq<u8>)
    requires
        a.is_prefix_of(c),
    ensures
        c == a + rest,
{
    let rest = c.skip(a.len() as int);
    assert(c =~= a + rest) by {
        assert forall|i: int| 0 <= i < a.len() implies c[i] == a[i] by {
            assert(a[i] == c.subrange(0, a.len() as int)[i]);
        }
    }
    rest
}

/// Reading a packet where it was written, after `buf` of it was read already.
proof fn lemma_rest_read(
    s: Stream,
    rest: Seq<u8>,
    continued: bool,
    last: bool,
    buf: Seq<u8>,
    stream: Seq<u8>,
)
    requires
        s.with_rest(rest, continued, last).out.is_prefix_of(stream),
    ensures
        ({
            let end = s.with_rest(rest, continued, last);
            let r = between(stream, s.out.len() as int, buf);
            &&& s.out.len() <= end.out.len() <= stream.len()
            &&& r.next().0 == Outcome::Packet(buf + rest)
            &&& r.next().1 == (Reader {
                eos: last,
                ..between(stream, end.out.len() as int, Seq::empty())
            })
        }),
    decreases rest.len(),
{
    let end = s.with_rest(rest, continued, last);
    let r = between(stream, s.out.len() as int, buf);
    let flags = ogg::page_flags(continued, !s.started, last && rest.len() < 65025);
    lemma_flags(continued, !s.started, last && rest.len() < 65025);
    lemma_rest_appends(s, rest, continued, last);
    lemma_prefix(s.out, end.out, stream);
    if rest.len() >= 65025 {
        let part = rest.take(65025);
        let table = ogg::full_segments(255);
        let next = s.with_page(continued, false, u64::MAX as nat, table, part);
        let page = ogg::page_bytes(
            flags,
            u64::MAX as nat,
            s.serial as nat,
            s.seq_num as nat,
            table,
            part,
        );
        assert(next.out == s.out + page);
        lemma_rest_appends(next, rest.skip(65025), true, last);
        lemma_prefix(next.out, end.out, stream);
        let after = lemma_prefix_split(next.out, stream);
        lemma_full(255);
        lemma_page_found(
            s.out,
            flags,
            u64::MAX as nat,
            s.serial as nat,
            s.seq_num as nat,
            table,
            part,
            after,
        );
        lemma_take_full(buf, 255, part);
        lemma_rest_read(next, rest.skip(65025), true, last, buf + part, stream);
        assert(buf + part + rest.skip(65025) =~= buf + rest);
        let loaded = Reader {
            stream,
            pos: next.out.len() as int,
            buf,
            table,
            data: part,
            eos: false,
        };
        let drained = between(stream, next.out.len() as int, buf + part);
        // The loaded page has nothing complete, so the reader goes on exactly
        // as one that has already drained it.
        lemma_drained(loaded, drained);
        lemma_load(r, loaded);
    } else {
        let table = ogg::lacing(rest.len());
        let granule = s.granule as u64 as nat;
        let page = ogg::page_bytes(
            flags,
            granule,
            s.serial as nat,
            s.seq_num as nat,
            table,
            rest,
        );
        let after = lemma_prefix_split(end.out, stream);
        lemma_lacing(rest.len());
        lemma_page_found(
            s.out,
            flags,
            granule,
            s.serial as nat,
            s.seq_num as nat,
            table,
            rest,
            after,
        );
        lemma_take_laced(buf, rest);
        let loaded = Reader {
            stream,
            pos: end.out.len() as int,
            buf,
            table,
            data: rest,
            eos: last,
        };
        lemma_load(r, loaded);
        assert(loaded.next().1 =~= (Reader {
            eos: last,
            ..between(stream, end.out.len() as int, Seq::empty())
        }));
    }
}

/// A reader between two pages goes on as one that has loaded the next page.
proof fn lemma_load(r: Reader, loaded: Reader)
    requires
        r == between(r.stream, r.pos, r.buf),
        r.valid(),
        loaded.valid(),
        loaded.stream == r.stream,
        loaded.buf == r.buf,
        r.pos < loaded.pos,
        ogg_reader::page_at(r.stream, r.pos) matches Found::Page(page, pos) && pos == loaded.pos
            && page.table == loaded.table && page.data == loaded.data && ogg_reader::is_last_page(
            page.header_type,
        ) == loaded.eos,
    ensures
        r.next() == loaded.next(),
{
    let t = ogg_reader::take_segments(r.buf, r.table, r.data);
    assert(t.buf == r.buf && !t.complete);
}

/// A reader whose page holds no end of a packet goes on as one that has taken
/// all of it.
proof fn lemma_drained(loaded: Reader, drained: Reader)
    requires
        loaded.valid(),
        drained.valid(),
        !loaded.eos,
        drained == between(loaded.stream, loaded.pos, drained.buf),
        ({
            let t = ogg_reader::take_segments(loaded.buf, loaded.table, loaded.data);
            &&& !t.complete
            &&& t.buf == drained.buf
            &&& t.table == Seq::<u8>::empty()
            &&& t.data == Seq::<u8>::empty()
        }),
    ensures
        loaded.next() == drained.next(),
{
    let t = ogg_reader::take_segments(drained.buf, drained.table, drained.data);
    assert(t.buf == drained.buf && !t.complete);
}

/// A packet that ends the stream marks it as finished, others do not.
pub proof fn lemma_rest_finished(s: Stream, rest: Seq<u8>, continued: bool, last: bool)
    ensures
        s.with_rest(rest, continued, last).finished == (s.finished || last),
        s.with_rest(rest, continued, last).granule == s.granule,
        s.with_rest(rest, continued, last).serial == s.serial,
    decreases rest.len(),
{
    if rest.len() >= 65025 {
        let next = s.with_page(
            continued,
            false,
            u64::MAX as nat,
            ogg::full_segments(255),
            rest.take(65025),
        );
        lemma_rest_finished(next, rest.skip(65025), true, last);
    }
}

/// More packets and an end only ever append.
pub proof fn lemma_packets_append(s: Stream, packets: Seq<Packet>, close: bool)
    ensures
        s.out.is_prefix_of(ogg::with_packets(s, packets, close).ended().out),
    decreases packets.len(),
{
    let end = ogg::with_packets(s, packets, close).ended();
    if packets.len() == 0 {
        if s.finished {
            assert(s.out =~= end.out.subrange(0, s.out.len() as int));
        } else {
            assert(s.out =~= end.out.subrange(0, s.out.len() as int));
        }
    } else {
        let last = close && packets.len() == 1;
        let moved = Stream { granule: (s.granule + packets[0].delta) as i64, ..s };
        let next = s.with_packet(packets[0].bytes, packets[0].delta, last);
        lemma_rest_appends(moved, packets[0].bytes, false, last);
        lemma_packets_append(next, packets.skip(1), close);
        lemma_prefix(s.out, next.out, end.out);
    }
}

/// A reader behind the last page is at the end.
proof fn lemma_end(r: Reader)
    requires
        r.valid(),
        r.eos,
        r.buf.len() == 0,
        r.table.len() == 0,
    ensures
        r.next().0 is End,
{
}

proof fn lemma_packets_read(s: Stream, packets: Seq<Packet>, close: bool)
    requires
        !s.finished,
    ensures
        ({
            let stream = ogg::with_packets(s, packets, close).ended().out;
            reads(between(stream, s.out.len() as int, Seq::empty()), packets)
        }),
    decreases packets.len(),
{
    let stream = ogg::with_packets(s, packets, close).ended().out;
    let r = between(stream, s.out.len() as int, Seq::empty());
    lemma_packets_append(s, packets, close);
    if packets.len() == 0 {
        let none = Seq::<u8>::empty();
        let flags = ogg::page_flags(false, !s.started, true);
        let granule = s.granule as u64 as nat;
        lemma_flags(false, !s.started, true);
        lemma_page_found(
            s.out,
            flags,
            granule,
            s.serial as nat,
            s.seq_num as nat,
            none,
            none,
            none,
        );
        let page = ogg::page_bytes(flags, granule, s.serial as nat, s.seq_num as nat, none, none);
        assert(stream =~= s.out + page + none);
        let loaded = Reader {
            stream,
            pos: stream.len() as int,
            buf: none,
            table: none,
            data: none,
            eos: true,
        };
        lemma_load(r, loaded);
        lemma_end(loaded);
    } else {
        let last = close && packets.len() == 1;
        let p = packets[0];
        let moved = Stream { granule: (s.granule + p.delta) as i64, ..s };
        let next = s.with_packet(p.bytes, p.delta, last);
        lemma_rest_finished(moved, p.bytes, false, last);
        lemma_packets_append(next, packets.skip(1), close);
        lemma_rest_read(moved, p.bytes, false, last, Seq::empty(), stream);
        assert(Seq::<u8>::empty() + p.bytes =~= p.bytes);
        if last {
            assert(packets.skip(1).len() == 0);
            lemma_end(r.next().1);
            assert(reads(r.next().1, packets.skip(1)));
        } else {
            lemma_packets_read(next, packets.skip(1), close);
        }
    }
}

/// Whatever packets are written into a stream, a reader gets exactly them, in
/// order and whole, and then the end of the stream; whether the last packet
/// ends the stream or a page of its own does.
pub proof fn law_packets_are_read_back(serial: u32, packets: Seq<Packet>, close: bool)
    ensures
        reads(
            Reader::start(ogg::with_packets(Stream::start(serial), packets, close).ended().out),
            packets,
        ),
{
    let s = Stream::start(serial);
    let stream = ogg::with_packets(s, packets, close).ended().out;
    lemma_packets_read(s, packets, close);
    assert(Reader::start(stream) == between(stream, 0, Seq::empty()));
}

/// A byte equal to the top byte of the checksum shifts it out.
proof fn lemma_crc_cancels(crc: u32)
    ensures
        ogg_reader::crc_byte(crc, (crc >> 24) as u8) == crc << 8,
{
    reveal_with_fuel(ogg_reader::crc_shifts, 9);
    let top = (crc >> 24) as u8;
    let mixed = crc ^ ((top as u32) << 24);
    assert(top == (crc >> 24) as u8 && mixed == crc ^ ((top as u32) << 24) ==> mixed == crc
        & 0x00FF_FFFF) by (bit_vector);
    assert(mixed == crc & 0x00FF_FFFF ==> mixed & 0x8000_0000 == 0 && (mixed << 1) & 0x8000_0000
        == 0 && ((mixed << 1) << 1) & 0x8000_0000 == 0 && (((mixed << 1) << 1) << 1) & 0x8000_0000
        == 0) by (bit_vector);
    let m4 = (((mixed << 1) << 1) << 1) << 1;
    assert(mixed == crc & 0x00FF_FFFF && m4 == (((mixed << 1) << 1) << 1) << 1 ==> m4 & 0x8000_0000
        == 0 && (m4 << 1) & 0x8000_0000 == 0 && ((m4 << 1) << 1) & 0x8000_0000 == 0 && (((m4 << 1)
        << 1) << 1) & 0x8000_0000 == 0 && (((m4 << 1) << 1) << 1) << 1 == crc << 8)
        by (bit_vector);
}

/// Data followed by its checksum, most significant byte first, has the
/// checksum 0.
pub proof fn law_checksum_cancels(data: Seq<u8>)
    ensures
        ({
            let c = ogg_reader::crc_of(data);
            ogg_reader::crc_of(
                data.push((c >> 24) as u8).push((c >> 16) as u8).push((c >> 8) as u8).push(c as u8),
            ) == 0
        }),
{
    let c = ogg_reader::crc_of(data);
    let d1 = data.push((c >> 24) as u8);
    let d2 = d1.push((c >> 16) as u8);
    let d3 = d2.push((c >> 8) as u8);
    let d4 = d3.push(c as u8);
    assert(d1.drop_last() =~= data);
    assert(d2.drop_last() =~= d1);
    assert(d3.drop_last() =~= d2);
    assert(d4.drop_last() =~= d3);
    lemma_crc_cancels(c);
    lemma_crc_cancels(c << 8);
    lemma_crc_cancels((c << 8) << 8);
    lemma_crc_cancels(((c << 8) << 8) << 8);
    assert(((c << 8) >> 24) as u8 == (c >> 16) as u8 && (((c << 8) << 8) >> 24) as u8 == (c >> 8)
        as u8 && ((((c << 8) << 8) << 8) >> 24) as u8 == c as u8 && (((c << 8) << 8) << 8) << 8
        == 0) by (bit_vector);
    assert(ogg_reader::crc_of(d1) == c << 8);
    assert(ogg_reader::crc_of(d2) == (c << 8) << 8);
    assert(ogg_reader::crc_of(d3) == ((c << 8) << 8) << 8);
}

} // verus!
