//! What a reader makes of any sequence of pages, whoever wrote them.
use crate::ogg_reader;
use crate::ogg_reader::{Found, Need, OggError, Outcome, Page, Reader};
use vstd::prelude::*;

verus! {

/// The packets in a run of segments: each ends with a segment shorter than 255.
/// `buf` is the start of the first one. What has no end is a packet too unless
/// it is empty.
pub open spec fn runs(buf: Seq<u8>, table: Seq<u8>, data: Seq<u8>) -> Seq<Seq<u8>>
    decreases table.len(),
{
    if table.len() == 0 {
        if buf.len() > 0 {
            seq![buf]
        } else {
            Seq::empty()
        }
    } else {
        let n = table[0] as int;
        let more = buf + data.take(n);
        if n < 255 {
            seq![more] + runs(Seq::empty(), table.skip(1), data.skip(n))
        } else {
            runs(more, table.skip(1), data.skip(n))
        }
    }
}

/// All packets joined.
pub open spec fn joined(packets: Seq<Seq<u8>>) -> Seq<u8>
    decreases packets.len(),
{
    if packets.len() == 0 {
        Seq::empty()
    } else {
        packets[0] + joined(packets.skip(1))
    }
}

/// The segment tables of some pages, joined.
pub open spec fn tables(pages: Seq<Page>) -> Seq<u8>
    decreases pages.len(),
{
    if pages.len() == 0 {
        Seq::empty()
    } else {
        pages[0].table + tables(pages.skip(1))
    }
}

/// The bodies of some pages, joined.
pub open spec fn bodies(pages: Seq<Page>) -> Seq<u8>
    decreases pages.len(),
{
    if pages.len() == 0 {
        Seq::empty()
    } else {
        pages[0].data + bodies(pages.skip(1))
    }
}

/// From `pos` on the stream is made of `pages`, up to its end or up to the first
/// page that ends the stream, whatever follows that one.
pub open spec fn whole_pages(stream: Seq<u8>, pos: int, pages: Seq<Page>) -> bool
    decreases pages.len(),
{
    if pages.len() == 0 {
        pos == stream.len()
    } else {
        match ogg_reader::page_at(stream, pos) {
            Found::Page(page, next) => {
                &&& page == pages[0]
                &&& if ogg_reader::is_last_page(page.header_type) {
                    pages.len() == 1
                } else {
                    whole_pages(stream, next, pages.skip(1))
                }
            },
            _ => false,
        }
    }
}

/// A reader gives exactly these packets, in order, and then the end.
pub open spec fn gives(r: Reader, packets: Seq<Seq<u8>>) -> bool
    decreases packets.len(),
{
    if packets.len() == 0 {
        r.next().0 is End
    } else {
        match r.next() {
            (Outcome::Packet(p), next) => p == packets[0] && gives(next, packets.skip(1)),
            _ => false,
        }
    }
}

/// Taking a packet out of a page takes the first run out of its segments and
/// whatever follows them.
proof fn lemma_first_run(
    buf: Seq<u8>,
    table: Seq<u8>,
    data: Seq<u8>,
    table2: Seq<u8>,
    data2: Seq<u8>,
)
    requires
        data.len() == ogg_reader::table_sum(table),
    ensures
        ({
            let t = ogg_reader::take_segments(buf, table, data);
            &&& t.data.len() == ogg_reader::table_sum(t.table)
            &&& t.complete ==> t.table.len() < table.len() && runs(
                buf,
                table + table2,
                data + data2,
            ) == seq![t.buf] + runs(Seq::empty(), t.table + table2, t.data + data2)
            &&& !t.complete ==> t.table.len() == 0 && t.data.len() == 0 && runs(
                buf,
                table + table2,
                data + data2,
            ) == runs(t.buf, table2, data2)
        }),
    decreases table.len(),
{
    if table.len() == 0 {
        assert(table + table2 =~= table2);
        assert(data + data2 =~= data2);
    } else {
        let n = table[0] as int;
        assert((table + table2)[0] == table[0]);
        assert((table + table2).skip(1) =~= table.skip(1) + table2);
        assert((data + data2).take(n) =~= data.take(n));
        assert((data + data2).skip(n) =~= data.skip(n) + data2);
        if n == 255 {
            lemma_first_run(buf + data.take(n), table.skip(1), data.skip(n), table2, data2);
        }
    }
}

/// A reader gives the runs of the segments it has and of those of the pages
/// that follow.
proof fn lemma_gives_runs(r: Reader, pages: Seq<Page>)
    requires
        r.valid(),
        r.eos ==> pages.len() == 0,
        !r.eos ==> whole_pages(r.stream, r.pos, pages),
    ensures
        gives(r, runs(r.buf, r.table + tables(pages), r.data + bodies(pages))),
    decreases pages.len(), r.table.len(),
{
    let (rest_table, rest_data) = (tables(pages), bodies(pages));
    let packets = runs(r.buf, r.table + rest_table, r.data + rest_data);
    lemma_first_run(r.buf, r.table, r.data, rest_table, rest_data);
    let t = ogg_reader::take_segments(r.buf, r.table, r.data);
    if t.complete {
        let next = r.next().1;
        lemma_gives_runs(next, pages);
        assert(packets.skip(1) =~= runs(
            Seq::empty(),
            t.table + rest_table,
            t.data + rest_data,
        ));
        assert(packets[0] == t.buf);
        assert(gives(r, packets));
    } else if pages.len() == 0 {
        if !r.eos {
            assert(r.stream.skip(r.pos).len() == 0);
        }
        let left = Reader { buf: t.buf, table: t.table, data: t.data, eos: true, ..r };
        assert(r.next() == left.flushed());
        if t.buf.len() > 0 {
            let next = Reader { buf: Seq::empty(), ..left };
            assert(packets =~= seq![t.buf]);
            assert(packets.skip(1).len() == 0);
            let t2 = ogg_reader::take_segments(next.buf, next.table, next.data);
            assert(!t2.complete && t2.buf == next.buf);
            assert(next.next().0 is End);
            assert(gives(next, packets.skip(1)));
        } else {
            assert(packets.len() == 0);
        }
        assert(gives(r, packets));
    } else {
        match ogg_reader::page_at(r.stream, r.pos) {
            Found::Page(page, pos) => {
                let loaded = Reader {
                    pos,
                    buf: t.buf,
                    table: page.table,
                    data: page.data,
                    eos: ogg_reader::is_last_page(page.header_type),
                    ..r
                };
                let others = pages.skip(1);
                lemma_gives_runs(loaded, others);
                assert(r.next() == loaded.next());
                assert(packets == runs(
                    loaded.buf,
                    loaded.table + tables(others),
                    loaded.data + bodies(others),
                ));
            },
            _ => {},
        }
    }
}

/// The runs have all bytes, in order.
proof fn lemma_runs_joined(buf: Seq<u8>, table: Seq<u8>, data: Seq<u8>)
    requires
        data.len() == ogg_reader::table_sum(table),
    ensures
        joined(runs(buf, table, data)) == buf + data,
    decreases table.len(),
{
    let packets = runs(buf, table, data);
    if table.len() == 0 {
        assert(data =~= Seq::<u8>::empty());
        if buf.len() > 0 {
            assert(packets.skip(1).len() == 0);
            assert(joined(packets.skip(1)) == Seq::<u8>::empty());
        }
        assert(joined(packets) =~= buf + data);
    } else {
        let n = table[0] as int;
        let more = buf + data.take(n);
        if n < 255 {
            lemma_runs_joined(Seq::empty(), table.skip(1), data.skip(n));
            assert(packets.skip(1) =~= runs(Seq::empty(), table.skip(1), data.skip(n)));
        } else {
            lemma_runs_joined(more, table.skip(1), data.skip(n));
        }
        assert(joined(packets) =~= buf + data);
    }
}

/// The bodies of whole pages have as many bytes as their tables say.
proof fn lemma_bodies_sum(stream: Seq<u8>, pos: int, pages: Seq<Page>)
    requires
        whole_pages(stream, pos, pages),
        0 <= pos,
    ensures
        bodies(pages).len() == ogg_reader::table_sum(tables(pages)),
    decreases pages.len(),
{
    if pages.len() > 0 {
        match ogg_reader::page_at(stream, pos) {
            Found::Page(page, next) => {
                let others = pages.skip(1);
                lemma_sum_joined(page.table, tables(others));
                if ogg_reader::is_last_page(page.header_type) {
                    assert(others.len() == 0);
                    assert(bodies(others).len() == 0 && tables(others).len() == 0);
                } else {
                    lemma_bodies_sum(stream, next, others);
                }
            },
            _ => {},
        }
    }
}

/// The sum of two tables joined.
proof fn lemma_sum_joined(a: Seq<u8>, b: Seq<u8>)
    ensures
        ogg_reader::table_sum(a + b) == ogg_reader::table_sum(a) + ogg_reader::table_sum(b),
    decreases a.len(),
{
    if a.len() == 0 {
        assert(a + b =~= b);
    } else {
        lemma_sum_joined(a.skip(1), b);
        assert((a + b).skip(1) =~= a.skip(1) + b);
        assert((a + b)[0] == a[0]);
    }
}

/// For any sequence of whole pages the packets are the longest runs of segments
/// that end in one shorter than 255, across pages; and a last run without an end
/// unless it is empty. Together they are the bodies of the pages.
pub proof fn law_packets_are_runs_of_segments(stream: Seq<u8>, pages: Seq<Page>)
    requires
        whole_pages(stream, 0, pages),
    ensures
        gives(Reader::start(stream), runs(Seq::empty(), tables(pages), bodies(pages))),
        joined(runs(Seq::empty(), tables(pages), bodies(pages))) == bodies(pages),
{
    let none = Seq::<u8>::empty();
    lemma_gives_runs(Reader::start(stream), pages);
    assert(none + tables(pages) =~= tables(pages));
    assert(none + bodies(pages) =~= bodies(pages));
    lemma_bodies_sum(stream, 0, pages);
    lemma_runs_joined(none, tables(pages), bodies(pages));
}

/// A reader that has come to the end stays there.
pub proof fn law_the_end_is_final(r: Reader)
    requires
        r.valid(),
        r.next().0 is End,
    ensures
        r.next().1.valid(),
        r.next().1.next() == r.next(),
    decreases r.stream.len() - r.pos,
{
    lemma_first_run(r.buf, r.table, r.data, Seq::empty(), Seq::empty());
    let t = ogg_reader::take_segments(r.buf, r.table, r.data);
    if !t.complete && !r.eos {
        match ogg_reader::page_at(r.stream, r.pos) {
            Found::Page(page, pos) => {
                law_the_end_is_final(
                    Reader {
                        pos,
                        buf: t.buf,
                        table: page.table,
                        data: page.data,
                        eos: ogg_reader::is_last_page(page.header_type),
                        ..r
                    },
                );
            },
            _ => {},
        }
    }
}

/// A page is the same with more bytes behind it.
proof fn lemma_page_before(a: Seq<u8>, b: Seq<u8>, pos: int)
    requires
        0 <= pos <= a.len(),
        ogg_reader::page_at(a, pos) is Page,
    ensures
        ogg_reader::page_at(a + b, pos) == ogg_reader::page_at(a, pos),
{
    let s = a.skip(pos);
    let u = (a + b).skip(pos);
    assert(u =~= s + b);
    assert(u.subrange(27, 27 + s[26]) =~= s.subrange(27, 27 + s[26]));
    let size = 27 + s[26] + ogg_reader::table_sum(s.subrange(27, 27 + s[26]));
    assert(u.subrange(27 + s[26], size) =~= s.subrange(27 + s[26], size));
    ogg_reader::lemma_le_value_prefix(u.skip(6), s.skip(6), 8);
    ogg_reader::lemma_le_value_prefix(u.skip(14), s.skip(14), 4);
    ogg_reader::lemma_le_value_prefix(u.skip(18), s.skip(18), 4);
}

/// Whole pages up to one that ends the stream stay so with more bytes behind.
proof fn lemma_pages_before(a: Seq<u8>, b: Seq<u8>, pos: int, pages: Seq<Page>)
    requires
        0 <= pos <= a.len(),
        whole_pages(a, pos, pages),
        pages.len() > 0,
        ogg_reader::is_last_page(pages.last().header_type),
    ensures
        whole_pages(a + b, pos, pages),
    decreases pages.len(),
{
    lemma_page_before(a, b, pos);
    match ogg_reader::page_at(a, pos) {
        Found::Page(page, next) => {
            if !ogg_reader::is_last_page(page.header_type) {
                lemma_pages_before(a, b, next, pages.skip(1));
            }
        },
        _ => {},
    }
}

/// Nothing behind a page that ends the stream is read: with any bytes appended
/// the reader gives the same packets and then the end.
pub proof fn law_nothing_behind_the_last_page_is_read(a: Seq<u8>, b: Seq<u8>, pages: Seq<Page>)
    requires
        whole_pages(a, 0, pages),
        pages.len() > 0,
        ogg_reader::is_last_page(pages.last().header_type),
    ensures
        ({
            let packets = runs(Seq::empty(), tables(pages), bodies(pages));
            gives(Reader::start(a), packets) && gives(Reader::start(a + b), packets)
        }),
{
    lemma_pages_before(a, b, 0, pages);
    law_packets_are_runs_of_segments(a, pages);
    law_packets_are_runs_of_segments(a + b, pages);
}

/// From `pos` on two streams differ at most in the granule position, the serial
/// number, the page number and the checksum of their pages.
pub open spec fn alike(a: Seq<u8>, b: Seq<u8>, pos: int) -> bool
    decreases a.len() - pos,
    when 0 <= pos <= a.len()
{
    &&& a.len() == b.len()
    &&& match ogg_reader::page_at(a, pos) {
        Found::Page(_, next) => {
            &&& forall|i: int|
                pos <= i < next && !(pos + 6 <= i < pos + 26) ==> #[trigger] a[i] == b[i]
            &&& alike(a, b, next)
        },
        _ => forall|i: int| pos <= i < a.len() ==> #[trigger] a[i] == b[i],
    }
}

/// Streams that are equal from some place on are alike from any place behind it.
proof fn lemma_equal_is_alike(a: Seq<u8>, b: Seq<u8>, pos: int)
    requires
        0 <= pos <= a.len(),
        a.len() == b.len(),
        forall|i: int| pos <= i < a.len() ==> #[trigger] a[i] == b[i],
    ensures
        alike(a, b, pos),
    decreases a.len() - pos,
{
    match ogg_reader::page_at(a, pos) {
        Found::Page(_, next) => {
            lemma_equal_is_alike(a, b, next);
        },
        _ => {},
    }
}

/// In streams that are alike, the same page is found but for those fields, or
/// the same is found where there is none.
proof fn lemma_alike_page(a: Seq<u8>, b: Seq<u8>, pos: int)
    requires
        0 <= pos <= a.len(),
        alike(a, b, pos),
    ensures
        match ogg_reader::page_at(a, pos) {
            Found::Page(p, next) => ogg_reader::page_at(b, pos) matches Found::Page(q, next2)
                && next2 == next && q.header_type == p.header_type && q.table == p.table && q.data
                == p.data,
            found => ogg_reader::page_at(b, pos) == found,
        },
{
    let s = a.skip(pos);
    let u = b.skip(pos);
    match ogg_reader::page_at(a, pos) {
        Found::Page(p, next) => {
            assert forall|i: int| 0 <= i < next - pos && !(6 <= i < 26) implies #[trigger] u[i]
                == s[i] by {
                assert(a[pos + i] == b[pos + i]);
            }
            assert(u.subrange(27, 27 + s[26]) =~= s.subrange(27, 27 + s[26]));
            assert(u.subrange(27 + s[26], next - pos) =~= s.subrange(27 + s[26], next - pos));
        },
        _ => {
            assert(u =~= s) by {
                assert forall|i: int| 0 <= i < s.len() implies u[i] == s[i] by {
                    assert(a[pos + i] == b[pos + i]);
                }
            }
        },
    }
}

/// The granule position, the serial number, the page number and the checksum of
/// a page have no influence: two readers at the same place in streams that are
/// alike give the same, and are then again at the same place.
pub proof fn law_page_fields_do_not_matter(r: Reader, stream: Seq<u8>)
    requires
        r.valid(),
        alike(r.stream, stream, r.pos),
    ensures
        ({
            let s = Reader { stream, ..r };
            &&& s.next().0 == r.next().0
            &&& s.next().1 == (Reader { stream, ..r.next().1 })
            &&& r.next().1.valid()
            &&& r.next().1.stream == r.stream
            &&& alike(r.stream, stream, r.next().1.pos)
        }),
    decreases r.stream.len() - r.pos,
{
    let s = Reader { stream, ..r };
    lemma_first_run(r.buf, r.table, r.data, Seq::empty(), Seq::empty());
    let t = ogg_reader::take_segments(r.buf, r.table, r.data);
    if !t.complete && !r.eos {
        lemma_alike_page(r.stream, stream, r.pos);
        match ogg_reader::page_at(r.stream, r.pos) {
            Found::Page(page, pos) => {
                let loaded = Reader {
                    pos,
                    buf: t.buf,
                    table: page.table,
                    data: page.data,
                    eos: ogg_reader::is_last_page(page.header_type),
                    ..r
                };
                law_page_fields_do_not_matter(loaded, stream);
                assert(r.next() == loaded.next());
                assert(s.next() == (Reader { stream, ..loaded }).next());
            },
            Found::Broken(_, pos) => {
                lemma_equal_is_alike(r.stream, stream, pos);
            },
            Found::End => {},
        }
    }
}

/// Reading a page piece by piece, each piece as long as what came before says,
/// finds what is there: the page, why there is none, or the end of the stream if
/// a piece is not to be had.
pub proof fn law_pages_are_read_piece_by_piece(stream: Seq<u8>, pos: int, read: int)
    requires
        0 <= pos,
        0 <= read,
        pos + read <= stream.len(),
    ensures
        ({
            let s = stream.subrange(pos, pos + read);
            match ogg_reader::page_need(s) {
                Need::Nothing => match ogg_reader::page_at(s, 0) {
                    Found::Page(page, size) => ogg_reader::page_at(stream, pos) == Found::Page(
                        page,
                        pos + size,
                    ),
                    _ => false,
                },
                Need::Broken(e) => ogg_reader::page_at(stream, pos) matches Found::Broken(f, _)
                    && f == e,
                Need::More(n) => n > 0 && (stream.len() < pos + read + n ==> ogg_reader::page_at(
                    stream,
                    pos,
                ) == (if stream.len() < pos + 4 {
                    Found::End
                } else {
                    Found::Broken(OggError::Truncated, stream.len() as int)
                })),
            }
        }),
{
    let s = stream.subrange(pos, pos + read);
    let all = stream.skip(pos);
    assert(s.skip(0) =~= s);
    assert(forall|i: int| 0 <= i < read ==> s[i] == all[i]);
    if read >= 27 && read >= 27 + s[26] {
        let n = s[26] as int;
        assert(s.subrange(27, 27 + n) =~= all.subrange(27, 27 + n));
        let size = 27 + n + ogg_reader::table_sum(s.subrange(27, 27 + n));
        if read >= size {
            assert(s.subrange(27 + n, size) =~= all.subrange(27 + n, size));
            ogg_reader::lemma_le_value_prefix(s.skip(6), all.skip(6), 8);
            ogg_reader::lemma_le_value_prefix(s.skip(14), all.skip(14), 4);
            ogg_reader::lemma_le_value_prefix(s.skip(18), all.skip(18), 4);
        }
    }
}

} // verus!
