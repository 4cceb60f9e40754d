//! Packets into an Ogg bitstream.
//!
//! Every packet starts a page of its own; one of 65025 bytes or more runs over
//! several pages. The pages pile up as bytes until the caller takes them.
use crate::ogg_reader::ogg_crc32;
use vstd::prelude::*;

verus! {

/// Header flag: the page goes on with the packet of the page before.
pub const FLAG_CONTINUED: u8 = 1;

/// Header flag: the first page of the stream.
pub const FLAG_FIRST: u8 = 2;

/// Header flag: the last page of the stream.
pub const FLAG_LAST: u8 = 4;

/// Most bytes that one page can hold: 255 segments of 255 bytes.
pub const PAGE_CAPACITY: usize = 65025;

/// The `n` low bytes of `v`, least significant first.
pub open spec fn le_bytes(v: nat, n: nat) -> Seq<u8>
    decreases n,
{
    if n == 0 {
        Seq::empty()
    } else {
        seq![(v % 256) as u8] + le_bytes(v / 256, (n - 1) as nat)
    }
}

/// The segment lengths of the end of a packet: as many of 255 as fit, then the
/// rest.
pub open spec fn lacing(len: nat) -> Seq<u8>
    decreases len,
{
    if len < 255 {
        seq![len as u8]
    } else {
        seq![255u8] + lacing((len - 255) as nat)
    }
}

/// `n` segments of 255 bytes.
pub open spec fn full_segments(n: nat) -> Seq<u8> {
    Seq::new(n, |i: int| 255u8)
}

/// What stands in front of a page's checksum.
pub open spec fn page_head(flags: u8, granule: nat, serial: nat, seq_num: nat) -> Seq<u8> {
    seq![0x4Fu8, 0x67u8, 0x67u8, 0x53u8, 0u8, flags] + le_bytes(granule, 8) + le_bytes(serial, 4)
        + le_bytes(seq_num, 4)
}

/// What stands behind a page's checksum.
pub open spec fn page_body(table: Seq<u8>, data: Seq<u8>) -> Seq<u8> {
    seq![table.len() as u8] + table + data
}

/// A page. Its checksum is that of the page with zeros in its place.
pub open spec fn page_bytes(
    flags: u8,
    granule: nat,
    serial: nat,
    seq_num: nat,
    table: Seq<u8>,
    data: Seq<u8>,
) -> Seq<u8> {
    let head = page_head(flags, granule, serial, seq_num);
    let body = page_body(table, data);
    let crc = crate::ogg_reader::crc_of(head + le_bytes(0, 4) + body);
    head + le_bytes(crc as nat, 4) + body
}

/// A stream that is being written.
#[verifier::ext_equal]
pub struct Stream {
    /// The bytes so far.
    pub out: Seq<u8>,
    /// Number of the logical stream.
    pub serial: u32,
    /// Number of the next page.
    pub seq_num: u32,
    /// Position that the codec gives the end of the last packet.
    pub granule: i64,
    /// A page has been written.
    pub started: bool,
    /// The last page has been written.
    pub finished: bool,
}

impl Stream {
    /// Nothing written yet.
    pub open spec fn start(serial: u32) -> Stream {
        Stream {
            out: Seq::empty(),
            serial,
            seq_num: 0,
            granule: 0,
            started: false,
            finished: false,
        }
    }

    /// With one more page.
    pub open spec fn with_page(
        self,
        continued: bool,
        last: bool,
        granule: nat,
        table: Seq<u8>,
        data: Seq<u8>,
    ) -> Stream {
        let flags = page_flags(continued, !self.started, last);
        Stream {
            out: self.out + page_bytes(
                flags,
                granule,
                self.serial as nat,
                self.seq_num as nat,
                table,
                data,
            ),
            seq_num: self.seq_num.wrapping_add(1),
            started: true,
            finished: self.finished || last,
            ..self
        }
    }

    /// With the bytes of a packet from here on, over as many pages as it takes.
    /// Only the page on which it ends carries a position.
    pub open spec fn with_rest(self, rest: Seq<u8>, continued: bool, last: bool) -> Stream
        decreases rest.len(),
    {
        if rest.len() >= PAGE_CAPACITY {
            self.with_page(
                continued,
                false,
                u64::MAX as nat,
                full_segments(255),
                rest.take(PAGE_CAPACITY as int),
            ).with_rest(rest.skip(PAGE_CAPACITY as int), true, last)
        } else {
            self.with_page(continued, last, self.granule as u64 as nat, lacing(rest.len()), rest)
        }
    }

    /// With one more packet, which moves the position by `delta`.
    pub open spec fn with_packet(self, packet: Seq<u8>, delta: int, last: bool) -> Stream {
        (Stream { granule: (self.granule + delta) as i64, ..self }).with_rest(packet, false, last)
    }

    /// With a last page, unless there is one.
    pub open spec fn ended(self) -> Stream {
        if self.finished {
            self
        } else {
            self.with_page(
                false,
                true,
                self.granule as u64 as nat,
                Seq::empty(),
                Seq::empty(),
            )
        }
    }
}

/// One packet to write: its bytes and how far it moves the position.
pub struct Packet {
    pub bytes: Seq<u8>,
    pub delta: int,
}

/// A stream with more packets, the very last one marked as such if `close`.
pub open spec fn with_packets(s: Stream, packets: Seq<Packet>, close: bool) -> Stream
    decreases packets.len(),
{
    if packets.len() == 0 {
        s
    } else {
        with_packets(
            s.with_packet(packets[0].bytes, packets[0].delta, close && packets.len() == 1),
            packets.skip(1),
            close,
        )
    }
}

/// The flags of a page.
pub open spec fn page_flags(continued: bool, first: bool, last: bool) -> u8 {
    ((if continued {
        1int
    } else {
        0
    }) + (if first {
        2int
    } else {
        0
    }) + (if last {
        4int
    } else {
        0
    })) as u8
}

/// Append the four bytes of a number, least significant first.
pub fn push_le32(out: &mut Vec<u8>, v: u32)
    ensures
        final(out)@ == old(out)@ + le_bytes(v as nat, 4),
{
    proof {
        reveal_with_fuel(le_bytes, 5);
    }
    let ghost before = out@;
    out.push((v % 256) as u8);
    out.push((v / 256 % 256) as u8);
    out.push((v / 256 / 256 % 256) as u8);
    out.push((v / 256 / 256 / 256 % 256) as u8);
    proof {
        assert(out@ =~= before + le_bytes(v as nat, 4));
    }
}

/// Append the eight bytes of a number, least significant first.
pub fn push_le64(out: &mut Vec<u8>, v: u64)
    ensures
        final(out)@ == old(out)@ + le_bytes(v as nat, 8),
{
    let ghost before = out@;
    let mut n: u32 = 0;
    let mut rest: u64 = v;
    while n < 8
        invariant
            n <= 8,
            out@ + le_bytes(rest as nat, (8 - n) as nat) == before + le_bytes(v as nat, 8),
        decreases 8 - n,
    {
        let ghost o = out@;
        out.push((rest % 256) as u8);
        proof {
            let m = (8 - n) as nat;
            assert(o + le_bytes(rest as nat, m) =~= out@ + le_bytes(
                rest as nat / 256,
                (m - 1) as nat,
            ));
        }
        rest = rest / 256;
        n = n + 1;
    }
    proof {
        assert(out@ + le_bytes(rest as nat, 0) =~= out@);
    }
}

/// Append a slice.
pub fn push_slice(out: &mut Vec<u8>, data: &[u8])
    ensures
        final(out)@ == old(out)@ + data@,
{
    let ghost before = out@;
    let mut i: usize = 0;
    while i < data.len()
        invariant
            i <= data@.len(),
            out@ == before + data@.take(i as int),
        decreases data@.len() - i,
    {
        out.push(data[i]);
        proof {
            assert(data@.take(i + 1) =~= data@.take(i as int).push(data@[i as int]));
        }
        i = i + 1;
    }
    proof {
        assert(data@.take(i as int) =~= data@);
    }
}

/// The segment lengths of the end of a packet.
fn lacing_of(len: usize) -> (r: Vec<u8>)
    ensures
        r@ == lacing(len as nat),
        r@.len() == len / 255 + 1,
{
    let mut table: Vec<u8> = Vec::new();
    let mut rest: usize = len;
    while rest >= 255
        invariant
            table@ + lacing(rest as nat) == lacing(len as nat),
            table@.len() + rest / 255 == len / 255,
        decreases rest,
    {
        let ghost t = table@;
        table.push(255);
        proof {
            assert(t + lacing(rest as nat) =~= table@ + lacing((rest - 255) as nat));
        }
        rest = rest - 255;
    }
    let ghost t = table@;
    table.push(rest as u8);
    proof {
        assert(t + lacing(rest as nat) =~= table@);
    }
    table
}

/// Writes packets into an Ogg stream in memory.
pub struct OggStream {
    out: Vec<u8>,
    serial: u32,
    seq_num: u32,
    granule: i64,
    started: bool,
    finished: bool,
}

impl View for OggStream {
    type V = Stream;

    closed spec fn view(&self) -> Stream {
        Stream {
            out: self.out@,
            serial: self.serial,
            seq_num: self.seq_num,
            granule: self.granule,
            started: self.started,
            finished: self.finished,
        }
    }
}

impl OggStream {
    /// A stream with nothing written.
    pub fn new(serial: u32) -> (r: OggStream)
        ensures
            r@ == Stream::start(serial),
    {
        OggStream {
            out: Vec::new(),
            serial,
            seq_num: 0,
            granule: 0,
            started: false,
            finished: false,
        }
    }

    /// Write one page.
    fn write_page(
        &mut self,
        continued: bool,
        last: bool,
        granule: u64,
        table: &Vec<u8>,
        data: &[u8],
        from: usize,
        to: usize,
    )
        requires
            table@.len() <= 255,
            from <= to <= data@.len(),
        ensures
            final(self)@ == old(self)@.with_page(
                continued,
                last,
                granule as nat,
                table@,
                data@.subrange(from as int, to as int),
            ),
    {
        let ghost before = self@;
        let mut flags: u8 = 0;
        if continued {
            flags = flags + FLAG_CONTINUED;
        }
        if !self.started {
            flags = flags + FLAG_FIRST;
        }
        if last {
            flags = flags + FLAG_LAST;
        }
        // The bytes in front of the checksum, and behind it.
        let mut head: Vec<u8> = Vec::new();
        head.push(0x4F);
        head.push(0x67);
        head.push(0x67);
        head.push(0x53);
        head.push(0);
        head.push(flags);
        proof {
            assert(head@ =~= seq![0x4Fu8, 0x67u8, 0x67u8, 0x53u8, 0u8, flags]);
        }
        push_le64(&mut head, granule);
        push_le32(&mut head, self.serial);
        push_le32(&mut head, self.seq_num);
        let mut body: Vec<u8> = Vec::new();
        body.push(table.len() as u8);
        push_slice(&mut body, table.as_slice());
        let mut i: usize = from;
        while i < to
            invariant
                from <= i <= to <= data@.len(),
                body@ == seq![table@.len() as u8] + table@ + data@.subrange(from as int, i as int),
            decreases to - i,
        {
            body.push(data[i]);
            i = i + 1;
        }
        let ghost d = data@.subrange(from as int, to as int);
        proof {
            assert(head@ =~= page_head(
                flags,
                granule as nat,
                self.serial as nat,
                self.seq_num as nat,
            ));
            assert(body@ =~= page_body(table@, d));
        }
        let mut blank: Vec<u8> = Vec::new();
        push_slice(&mut blank, head.as_slice());
        push_le32(&mut blank, 0);
        push_slice(&mut blank, body.as_slice());
        proof {
            assert(blank@ =~= head@ + le_bytes(0, 4) + body@);
        }
        let crc: u32 = ogg_crc32(blank.as_slice());
        push_slice(&mut self.out, head.as_slice());
        push_le32(&mut self.out, crc);
        push_slice(&mut self.out, body.as_slice());
        self.seq_num = self.seq_num.wrapping_add(1);
        self.started = true;
        if last {
            self.finished = true;
        }
        proof {
            assert(self.out@ =~= before.out + (head@ + le_bytes(crc as nat, 4) + body@));
        }
    }

    /// Write one packet, which moves the position by `granule_delta`; `last`
    /// ends the stream with it.
    pub fn write_packet(&mut self, packet: &[u8], granule_delta: i64, last: bool)
        requires
            i64::MIN <= old(self)@.granule + granule_delta <= i64::MAX,
        ensures
            final(self)@ == old(self)@.with_packet(packet@, granule_delta as int, last),
    {
        self.granule = self.granule + granule_delta;
        let mut pos: usize = 0;
        let ghost goal = self@.with_rest(packet@, false, last);
        proof {
            assert(packet@.skip(0) =~= packet@);
        }
        while packet.len() - pos >= PAGE_CAPACITY
            invariant
                pos <= packet@.len(),
                goal == self@.with_rest(packet@.skip(pos as int), pos > 0, last),
            decreases packet@.len() - pos,
        {
            let full: Vec<u8> = vec![255u8; 255];
            proof {
                let rest = packet@.skip(pos as int);
                assert(full@ =~= full_segments(255));
                assert(rest.take(PAGE_CAPACITY as int) =~= packet@.subrange(
                    pos as int,
                    pos + PAGE_CAPACITY,
                ));
                assert(rest.skip(PAGE_CAPACITY as int) =~= packet@.skip(pos + PAGE_CAPACITY));
            }
            self.write_page(pos > 0, false, u64::MAX, &full, packet, pos, pos + PAGE_CAPACITY);
            pos = pos + PAGE_CAPACITY;
        }
        let table: Vec<u8> = lacing_of(packet.len() - pos);
        proof {
            assert(packet@.skip(pos as int) =~= packet@.subrange(
                pos as int,
                packet@.len() as int,
            ));
        }
        self.write_page(pos > 0, last, self.granule as u64, &table, packet, pos, packet.len());
    }

    /// Write a last page without segments, unless the stream has ended.
    pub fn finish(&mut self)
        ensures
            final(self)@ == old(self)@.ended(),
    {
        if !self.finished {
            let table: Vec<u8> = Vec::new();
            let data: Vec<u8> = Vec::new();
            proof {
                assert(data@.subrange(0, 0) =~= Seq::<u8>::empty());
                assert(table@ =~= Seq::<u8>::empty());
            }
            self.write_page(false, true, self.granule as u64, &table, data.as_slice(), 0, 0);
        }
    }

    /// Take the bytes written since the last call.
    pub fn take_bytes(&mut self) -> (r: Vec<u8>)
        ensures
            r@ == old(self)@.out,
            final(self)@ == (Stream { out: Seq::empty(), ..old(self)@ }),
    {
        let mut bytes: Vec<u8> = Vec::new();
        bytes.append(&mut self.out);
        bytes
    }
}

} // verus!
