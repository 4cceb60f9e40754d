//! Packets out of an Ogg bitstream.
//!
//! Pages are parsed one after the other and their segments joined into
//! packets; a packet may run over several pages. The reader does not look at
//! the pages' checksums.
use vstd::prelude::*;

verus! {

/// The generator polynomial of Ogg's checksum.
pub const CRC_POLYNOMIAL: u32 = 0x04C1_1DB7;

/// Why a page could not be read.
#[derive(Clone, Copy, Debug, PartialEq, Eq, Structural)]
pub enum OggError {
    /// There is no capture pattern where a page should start.
    SyncLost,
    /// The page has another version than 0.
    Version(u8),
    /// The stream ends inside a page.
    Truncated,
}

/// One page.
pub struct OggPage {
    /// Bit 0: continued packet, bit 1: first page, bit 2: last page.
    pub header_type: u8,
    /// Position that the codec gives the page.
    pub granule_pos: i64,
    /// Number of the logical stream.
    pub serial: u32,
    /// Number of the page.
    pub seq_num: u32,
    /// Length of each segment.
    pub segment_table: Vec<u8>,
    /// All segments in a row.
    pub data: Vec<u8>,
}

impl OggPage {
    /// Whether the page ends with a whole packet: its last segment has fewer
    /// than 255 bytes, or it has no segments.
    pub fn last_segment_terminates_packet(&self) -> (r: bool)
        ensures
            r == (self@.table.len() == 0 || self@.table.last() < 255),
    {
        let n: usize = self.segment_table.len();
        n == 0 || self.segment_table[n - 1] < 255
    }
}

/// A page without its machine types.
#[verifier::ext_equal]
pub struct Page {
    pub header_type: u8,
    pub granule: nat,
    pub serial: nat,
    pub seq_num: nat,
    pub table: Seq<u8>,
    pub data: Seq<u8>,
}

impl View for OggPage {
    type V = Page;

    open spec fn view(&self) -> Page {
        Page {
            header_type: self.header_type,
            granule: self.granule_pos as u64 as nat,
            serial: self.serial as nat,
            seq_num: self.seq_num as nat,
            table: self.segment_table@,
            data: self.data@,
        }
    }
}

/// The number spelled by the first `n` bytes of `s`, least significant first.
pub open spec fn le_value(s: Seq<u8>, n: nat) -> nat
    decreases n,
{
    if n == 0 {
        0
    } else {
        s[0] as nat + 256 * le_value(s.skip(1), (n - 1) as nat)
    }
}

/// The sum of all segment lengths.
pub open spec fn table_sum(table: Seq<u8>) -> nat
    decreases table.len(),
{
    if table.len() == 0 {
        0
    } else {
        table[0] as nat + table_sum(table.skip(1))
    }
}

/// The page ends the stream.
pub open spec fn is_last_page(header_type: u8) -> bool {
    (header_type / 4) % 2 == 1
}

/// What is found where a page should start.
pub enum Found {
    /// Fewer than four bytes: the stream ends here.
    End,
    /// No page, and where the stream was left.
    Broken(OggError, int),
    /// A page, and where the next one starts.
    Page(Page, int),
}

/// The page at `pos`.
pub open spec fn page_at(data: Seq<u8>, pos: int) -> Found {
    let s = data.skip(pos);
    if s.len() < 4 {
        Found::End
    } else if s[0] != 0x4F || s[1] != 0x67 || s[2] != 0x67 || s[3] != 0x53 {
        Found::Broken(OggError::SyncLost, pos + 4)
    } else if s.len() >= 5 && s[4] != 0 {
        Found::Broken(OggError::Version(s[4]), pos + 5)
    } else if s.len() < 27 || s.len() < 27 + s[26] || s.len() < 27 + s[26] + table_sum(
        s.subrange(27, 27 + s[26]),
    ) {
        Found::Broken(OggError::Truncated, data.len() as int)
    } else {
        let table = s.subrange(27, 27 + s[26]);
        let size = 27 + s[26] + table_sum(table);
        Found::Page(
            Page {
                header_type: s[5],
                granule: le_value(s.skip(6), 8),
                serial: le_value(s.skip(14), 4),
                seq_num: le_value(s.skip(18), 4),
                table,
                data: s.subrange(27 + s[26], size),
            },
            pos + size,
        )
    }
}

/// What is missing of a page.
pub enum Need {
    /// That many more bytes.
    More(int),
    /// It is no page.
    Broken(OggError),
    /// Nothing.
    Nothing,
}

/// What the start of a page, `s`, lacks: each length is known once the bytes
/// before it are there.
pub open spec fn page_need(s: Seq<u8>) -> Need {
    if s.len() < 4 {
        Need::More(4 - s.len())
    } else if s[0] != 0x4F || s[1] != 0x67 || s[2] != 0x67 || s[3] != 0x53 {
        Need::Broken(OggError::SyncLost)
    } else if s.len() < 5 {
        Need::More(1)
    } else if s[4] != 0 {
        Need::Broken(OggError::Version(s[4]))
    } else if s.len() < 27 {
        Need::More(27 - s.len())
    } else if s.len() < 27 + s[26] {
        Need::More(27 + s[26] - s.len())
    } else {
        let size = 27 + s[26] + table_sum(s.subrange(27, 27 + s[26]));
        if s.len() < size {
            Need::More(size - s.len())
        } else {
            Need::Nothing
        }
    }
}

/// Bytes of a packet, and what is left of a page behind it.
pub struct Taken {
    /// The bytes so far.
    pub buf: Seq<u8>,
    /// Lengths of the segments left.
    pub table: Seq<u8>,
    /// The segments left.
    pub data: Seq<u8>,
    /// The packet is complete: its last segment was shorter than 255.
    pub complete: bool,
}

/// Take segments from a page until a packet is complete or none are left.
pub open spec fn take_segments(buf: Seq<u8>, table: Seq<u8>, data: Seq<u8>) -> Taken
    decreases table.len(),
{
    if table.len() == 0 {
        Taken { buf, table, data, complete: false }
    } else {
        let n = table[0] as int;
        let more = buf + data.take(n);
        if n < 255 {
            Taken { buf: more, table: table.skip(1), data: data.skip(n), complete: true }
        } else {
            take_segments(more, table.skip(1), data.skip(n))
        }
    }
}

/// A reader between two packets.
#[verifier::ext_equal]
pub struct Reader {
    /// The whole stream.
    pub stream: Seq<u8>,
    /// Where the next page starts.
    pub pos: int,
    /// The start of a packet that the last page did not complete.
    pub buf: Seq<u8>,
    /// Lengths of the segments left of the last page.
    pub table: Seq<u8>,
    /// The segments left of the last page.
    pub data: Seq<u8>,
    /// No more pages follow.
    pub eos: bool,
}

/// What reading a packet gives.
pub enum Outcome {
    /// A packet.
    Packet(Seq<u8>),
    /// The stream is at its end.
    End,
    /// A page could not be read.
    Broken(OggError),
}

impl Reader {
    /// A reader at the start of a stream.
    pub open spec fn start(stream: Seq<u8>) -> Reader {
        Reader {
            stream,
            pos: 0,
            buf: Seq::empty(),
            table: Seq::empty(),
            data: Seq::empty(),
            eos: false,
        }
    }

    /// What is left of the last page has as many bytes as its table says.
    pub open spec fn valid(self) -> bool {
        &&& 0 <= self.pos <= self.stream.len()
        &&& self.data.len() == table_sum(self.table)
    }

    /// Hand out what is left at the end of the stream.
    pub open spec fn flushed(self) -> (Outcome, Reader) {
        if self.buf.len() > 0 {
            (Outcome::Packet(self.buf), Reader { buf: Seq::empty(), ..self })
        } else {
            (Outcome::End, self)
        }
    }

    /// The next packet and the reader behind it.
    pub open spec fn next(self) -> (Outcome, Reader)
        decreases self.stream.len() - self.pos,
        when self.valid()
    {
        let t = take_segments(self.buf, self.table, self.data);
        let left = Reader { buf: t.buf, table: t.table, data: t.data, ..self };
        if t.complete {
            (Outcome::Packet(t.buf), Reader { buf: Seq::empty(), ..left })
        } else if self.eos {
            left.flushed()
        } else {
            match page_at(self.stream, self.pos) {
                Found::End => (Reader { eos: true, ..left }).flushed(),
                Found::Broken(e, pos) => (Outcome::Broken(e), Reader { pos, ..left }),
                Found::Page(page, pos) => (Reader {
                    pos,
                    table: page.table,
                    data: page.data,
                    eos: is_last_page(page.header_type),
                    ..left
                }).next(),
            }
        }
    }
}

/// One bit of Ogg's checksum.
pub open spec fn crc_shift(crc: u32) -> u32 {
    if crc & 0x8000_0000 != 0 {
        (crc << 1) ^ CRC_POLYNOMIAL
    } else {
        crc << 1
    }
}

/// `n` bits of Ogg's checksum.
pub open spec fn crc_shifts(crc: u32, n: nat) -> u32
    decreases n,
{
    if n == 0 {
        crc
    } else {
        crc_shifts(crc_shift(crc), (n - 1) as nat)
    }
}

/// One byte of Ogg's checksum.
pub open spec fn crc_byte(crc: u32, byte: u8) -> u32 {
    crc_shifts(crc ^ ((byte as u32) << 24), 8)
}

/// Ogg's checksum of `data`.
pub open spec fn crc_of(data: Seq<u8>) -> u32
    decreases data.len(),
{
    if data.len() == 0 {
        0
    } else {
        crc_byte(crc_of(data.drop_last()), data.last())
    }
}

/// Ogg's checksum: the remainder of `data` by the polynomial `0x04C11DB7`.
pub fn ogg_crc32(data: &[u8]) -> (r: u32)
    ensures
        r == crc_of(data@),
{
    let mut crc: u32 = 0;
    let mut i: usize = 0;
    while i < data.len()
        invariant
            i <= data@.len(),
            crc == crc_of(data@.take(i as int)),
        decreases data@.len() - i,
    {
        proof {
            assert(data@.take(i + 1).drop_last() =~= data@.take(i as int));
        }
        let ghost before = crc;
        crc = crc ^ ((data[i] as u32) << 24);
        let ghost mixed = crc;
        let mut n: u32 = 0;
        while n < 8
            invariant
                n <= 8,
                crc_shifts(mixed, 8) == crc_shifts(crc, (8 - n) as nat),
            decreases 8 - n,
        {
            if crc & 0x8000_0000 != 0 {
                crc = (crc << 1) ^ CRC_POLYNOMIAL;
            } else {
                crc = crc << 1;
            }
            n = n + 1;
        }
        i = i + 1;
    }
    proof {
        assert(data@.take(i as int) =~= data@);
    }
    crc
}

/// The bytes `from..to` of a slice.
fn copy_range(data: &[u8], from: usize, to: usize) -> (r: Vec<u8>)
    requires
        from <= to <= data@.len(),
    ensures
        r@ == data@.subrange(from as int, to as int),
{
    let mut out: Vec<u8> = Vec::new();
    let mut i: usize = from;
    while i < to
        invariant
            from <= i <= to <= data@.len(),
            out@ == data@.subrange(from as int, i as int),
        decreases to - i,
    {
        out.push(data[i]);
        i = i + 1;
    }
    out
}

/// Four bytes, least significant first.
fn le_u32(data: &[u8], at: usize) -> (r: u32)
    requires
        at + 4 <= data@.len(),
    ensures
        r == le_value(data@.skip(at as int), 4),
{
    proof {
        reveal_with_fuel(le_value, 5);
        let s = data@.skip(at as int);
        assert(s.skip(1).skip(1) =~= s.skip(2));
        assert(s.skip(2).skip(1) =~= s.skip(3));
    }
    data[at] as u32 + 256 * (data[at + 1] as u32) + 0x1_0000 * (data[at + 2] as u32) + 0x100_0000
        * (data[at + 3] as u32)
}

/// Splitting off the four low bytes of a number.
proof fn lemma_le_value_split(s: Seq<u8>)
    requires
        s.len() >= 8,
    ensures
        le_value(s, 8) == le_value(s, 4) + 0x1_0000_0000 * le_value(s.skip(4), 4),
        le_value(s, 4) < 0x1_0000_0000,
        le_value(s.skip(4), 4) < 0x1_0000_0000,
{
    reveal_with_fuel(le_value, 9);
    assert(s.skip(1).skip(1) =~= s.skip(2));
    assert(s.skip(2).skip(1) =~= s.skip(3));
    assert(s.skip(3).skip(1) =~= s.skip(4));
    let t = s.skip(4);
    assert(t.skip(1).skip(1) =~= t.skip(2));
    assert(t.skip(2).skip(1) =~= t.skip(3));
}

/// The sum of all segment lengths.
pub fn segment_total(table: &[u8]) -> (r: usize)
    requires
        table@.len() <= 255,
    ensures
        r == table_sum(table@),
        r <= 255 * table@.len(),
{
    let mut sum: usize = 0;
    let mut i: usize = table.len();
    while i > 0
        invariant
            i <= table@.len() <= 255,
            sum == table_sum(table@.skip(i as int)),
            sum <= 255 * (table@.len() - i),
        decreases i,
    {
        i = i - 1;
        proof {
            assert(table@.skip(i as int).skip(1) =~= table@.skip(i + 1));
        }
        sum = sum + table[i] as usize;
    }
    proof {
        assert(table@.skip(0) =~= table@);
    }
    sum
}

/// Whether four bytes are a page's capture pattern.
pub fn is_capture_pattern(b0: u8, b1: u8, b2: u8, b3: u8) -> (r: bool)
    ensures
        r == (b0 == 0x4F && b1 == 0x67 && b2 == 0x67 && b3 == 0x53),
{
    b0 == 0x4F && b1 == 0x67 && b2 == 0x67 && b3 == 0x53
}

/// A page from the 27 bytes of its head, its segment table and its segments.
pub fn page_from_parts(head: &[u8], table: Vec<u8>, data: Vec<u8>) -> (r: OggPage)
    requires
        head@.len() >= 27,
    ensures
        r@ == (Page {
            header_type: head@[5],
            granule: le_value(head@.skip(6), 8),
            serial: le_value(head@.skip(14), 4),
            seq_num: le_value(head@.skip(18), 4),
            table: table@,
            data: data@,
        }),
{
    proof {
        lemma_le_value_split(head@.skip(6));
        assert(head@.skip(6).skip(4) =~= head@.skip(10));
    }
    let granule: u64 = le_u32(head, 6) as u64 + 0x1_0000_0000 * (le_u32(head, 10) as u64);
    assert((granule as i64) as u64 == granule) by (bit_vector);
    OggPage {
        header_type: head[5],
        granule_pos: granule as i64,
        serial: le_u32(head, 14),
        seq_num: le_u32(head, 18),
        segment_table: table,
        data,
    }
}

/// What is found where a page should start.
pub enum FoundPage {
    /// The stream ends here.
    End,
    /// No page, and where the stream was left.
    Broken(OggError, usize),
    /// A page, and where the next one starts.
    Page(OggPage, usize),
}

/// Parse the page at `pos`.
pub fn parse_page(data: &[u8], pos: usize) -> (r: FoundPage)
    requires
        pos <= data@.len(),
    ensures
        match (r, page_at(data@, pos as int)) {
            (FoundPage::End, Found::End) => true,
            (FoundPage::Broken(e, p), Found::Broken(f, q)) => e == f && p == q,
            (FoundPage::Page(g, p), Found::Page(h, q)) => g@ == h && p == q,
            _ => false,
        },
{
    let ghost s = data@.skip(pos as int);
    let left: usize = data.len() - pos;
    if left < 4 {
        return FoundPage::End;
    }
    if !is_capture_pattern(data[pos], data[pos + 1], data[pos + 2], data[pos + 3]) {
        return FoundPage::Broken(OggError::SyncLost, pos + 4);
    }
    if left >= 5 && data[pos + 4] != 0 {
        return FoundPage::Broken(OggError::Version(data[pos + 4]), pos + 5);
    }
    if left < 27 {
        return FoundPage::Broken(OggError::Truncated, data.len());
    }
    let n: usize = data[pos + 26] as usize;
    if left - 27 < n {
        return FoundPage::Broken(OggError::Truncated, data.len());
    }
    let table: Vec<u8> = copy_range(data, pos + 27, pos + 27 + n);
    proof {
        assert(table@ =~= s.subrange(27, 27 + n));
    }
    let total: usize = segment_total(table.as_slice());
    if left - 27 - n < total {
        return FoundPage::Broken(OggError::Truncated, data.len());
    }
    let head: Vec<u8> = copy_range(data, pos, pos + 27);
    let body: Vec<u8> = copy_range(data, pos + 27 + n, pos + 27 + n + total);
    proof {
        assert(body@ =~= s.subrange(27 + n, 27 + n + total));
        lemma_le_value_prefix(head@.skip(6), s.skip(6), 8);
        lemma_le_value_prefix(head@.skip(14), s.skip(14), 4);
        lemma_le_value_prefix(head@.skip(18), s.skip(18), 4);
    }
    FoundPage::Page(page_from_parts(head.as_slice(), table, body), pos + 27 + n + total)
}

/// A page that is read piece by piece.
pub enum PartialPage {
    /// That many more bytes are needed.
    More(usize),
    /// It is no page.
    Broken(OggError),
    /// The page is complete.
    Whole(OggPage),
}

/// What the bytes from the start of a page are: too few, no page, or a page.
pub fn page_in_parts(bytes: &[u8]) -> (r: PartialPage)
    ensures
        match (r, page_need(bytes@)) {
            (PartialPage::More(n), Need::More(m)) => n == m,
            (PartialPage::Broken(e), Need::Broken(f)) => e == f,
            (PartialPage::Whole(page), Need::Nothing) => page_at(bytes@, 0) matches Found::Page(
                p,
                _,
            ) && page@ == p && page@.data.len() == table_sum(page@.table),
            _ => false,
        },
{
    let len: usize = bytes.len();
    if len < 4 {
        return PartialPage::More(4 - len);
    }
    if !is_capture_pattern(bytes[0], bytes[1], bytes[2], bytes[3]) {
        return PartialPage::Broken(OggError::SyncLost);
    }
    if len < 5 {
        return PartialPage::More(1);
    }
    if bytes[4] != 0 {
        return PartialPage::Broken(OggError::Version(bytes[4]));
    }
    if len < 27 {
        return PartialPage::More(27 - len);
    }
    let n: usize = bytes[26] as usize;
    if len < 27 + n {
        return PartialPage::More(27 + n - len);
    }
    let table: Vec<u8> = copy_range(bytes, 27, 27 + n);
    let total: usize = segment_total(table.as_slice());
    if len - 27 - n < total {
        return PartialPage::More(total - (len - 27 - n));
    }
    proof {
        assert(bytes@.skip(0) =~= bytes@);
        assert(table@ =~= bytes@.subrange(27, 27 + n));
    }
    match parse_page(bytes, 0) {
        FoundPage::Page(page, _) => PartialPage::Whole(page),
        FoundPage::Broken(e, _) => PartialPage::Broken(e),
        FoundPage::End => PartialPage::More(4),
    }
}

/// A number depends on its own bytes only.
pub proof fn lemma_le_value_prefix(a: Seq<u8>, b: Seq<u8>, n: nat)
    requires
        a.len() >= n,
        b.len() >= n,
        forall|i: int| 0 <= i < n ==> a[i] == b[i],
    ensures
        le_value(a, n) == le_value(b, n),
    decreases n,
{
    if n > 0 {
        lemma_le_value_prefix(a.skip(1), b.skip(1), (n - 1) as nat);
    }
}

/// A packet in the making.
#[verifier::ext_equal]
pub struct Assembly {
    /// The bytes so far.
    pub buf: Seq<u8>,
    /// Lengths of the segments left of the last page.
    pub table: Seq<u8>,
    /// The segments left of the last page.
    pub data: Seq<u8>,
    /// No more pages follow.
    pub eos: bool,
}

/// What comes next of the packets of a stream.
pub enum Step {
    /// A packet.
    Packet(Vec<u8>),
    /// The end of the stream.
    End,
    /// Another page is needed, if there is one.
    Page,
}

/// Joins the segments of pages into packets.
pub struct PacketAssembler {
    buf: Vec<u8>,
    table: Vec<u8>,
    data: Vec<u8>,
    next_segment: usize,
    offset: usize,
    eos: bool,
}

impl View for PacketAssembler {
    type V = Assembly;

    closed spec fn view(&self) -> Assembly {
        Assembly {
            buf: self.buf@,
            table: self.table@.skip(self.next_segment as int),
            data: self.data@.skip(self.offset as int),
            eos: self.eos,
        }
    }
}

impl PacketAssembler {
    /// The assembler's invariant.
    pub closed spec fn wf(&self) -> bool {
        &&& self.next_segment <= self.table@.len()
        &&& self.offset <= self.data@.len()
        &&& self@.data.len() == table_sum(self@.table)
    }

    /// An assembler that has seen no page.
    pub fn new() -> (r: PacketAssembler)
        ensures
            r.wf(),
            r@ == (Assembly {
                buf: Seq::empty(),
                table: Seq::empty(),
                data: Seq::empty(),
                eos: false,
            }),
    {
        let r = PacketAssembler {
            buf: Vec::new(),
            table: Vec::new(),
            data: Vec::new(),
            next_segment: 0,
            offset: 0,
            eos: false,
        };
        proof {
            assert(r@.table =~= Seq::empty());
            assert(r@.data =~= Seq::empty());
        }
        r
    }

    /// What was left of a page adds up.
    pub proof fn lemma_wf_sums(&self)
        requires
            self.wf(),
        ensures
            self@.data.len() == table_sum(self@.table),
    {
    }

    /// Take segments of the last page until a packet is complete; `None` when
    /// they run out first.
    pub fn take_packet(&mut self) -> (r: Option<Vec<u8>>)
        requires
            old(self).wf(),
        ensures
            final(self).wf(),
            final(self)@.eos == old(self)@.eos,
            ({
                let t = take_segments(old(self)@.buf, old(self)@.table, old(self)@.data);
                &&& final(self)@.table == t.table
                &&& final(self)@.data == t.data
                &&& match r {
                    Some(packet) => t.complete && packet@ == t.buf && final(self)@.buf
                        == Seq::<u8>::empty(),
                    None => !t.complete && final(self)@.buf == t.buf,
                }
            }),
    {
        let ghost goal = take_segments(self@.buf, self@.table, self@.data);
        while self.next_segment < self.table.len()
            invariant
                self.wf(),
                self.eos == old(self).eos,
                goal == take_segments(old(self)@.buf, old(self)@.table, old(self)@.data),
                goal == take_segments(self@.buf, self@.table, self@.data),
            decreases self.table@.len() - self.next_segment,
        {
            let n: u8 = self.table[self.next_segment];
            let ghost before = self@;
            proof {
                assert(before.table[0] == n);
                assert(table_sum(before.table) >= n);
                assert(self.offset + n <= self.data.len());
            }
            let mut segment: Vec<u8> = copy_range(
                self.data.as_slice(),
                self.offset,
                self.offset + n as usize,
            );
            self.buf.append(&mut segment);
            self.next_segment = self.next_segment + 1;
            self.offset = self.offset + n as usize;
            proof {
                assert(self@.table =~= before.table.skip(1));
                assert(self@.data =~= before.data.skip(n as int));
                assert(self@.buf =~= before.buf + before.data.take(n as int));
            }
            if n < 255 {
                let mut packet: Vec<u8> = Vec::new();
                packet.append(&mut self.buf);
                return Some(packet);
            }
        }
        None
    }

    /// Go on with the segments of another page.
    pub fn feed(&mut self, page: OggPage)
        requires
            old(self).wf(),
            page@.data.len() == table_sum(page@.table),
        ensures
            final(self).wf(),
            final(self)@ == (Assembly {
                buf: old(self)@.buf,
                table: page@.table,
                data: page@.data,
                eos: old(self)@.eos || is_last_page(page@.header_type),
            }),
    {
        let h: u8 = page.header_type;
        assert((h & 4 != 0) == ((h / 4) % 2 == 1)) by (bit_vector);
        if h & 4 != 0 {
            self.eos = true;
        }
        self.table = page.segment_table;
        self.data = page.data;
        self.next_segment = 0;
        self.offset = 0;
        proof {
            assert(self@.table =~= page@.table);
            assert(self@.data =~= page@.data);
        }
    }

    /// Whether no more pages follow.
    pub fn is_at_end(&self) -> (r: bool)
        ensures
            r == self@.eos,
    {
        self.eos
    }

    /// Note that no more pages follow.
    pub fn set_at_end(&mut self)
        requires
            old(self).wf(),
        ensures
            final(self).wf(),
            final(self)@ == (Assembly { eos: true, ..old(self)@ }),
    {
        self.eos = true;
    }

    /// Hand out the start of a packet that no page completed.
    pub fn flush(&mut self) -> (r: Option<Vec<u8>>)
        requires
            old(self).wf(),
        ensures
            final(self).wf(),
            final(self)@ == (Assembly { buf: Seq::empty(), ..old(self)@ }),
            match r {
                Some(packet) => old(self)@.buf.len() > 0 && packet@ == old(self)@.buf,
                None => old(self)@.buf.len() == 0,
            },
    {
        if self.buf.len() == 0 {
            proof {
                assert(self@ =~= (Assembly { buf: Seq::empty(), ..self@ }));
            }
            return None;
        }
        let mut packet: Vec<u8> = Vec::new();
        packet.append(&mut self.buf);
        Some(packet)
    }
}

impl PacketAssembler {
    /// The next packet, or what is needed for it: a packet that the last page
    /// completes, or another page unless no more follow; at the end what is left.
    pub fn next_step(&mut self) -> (r: Step)
        requires
            old(self).wf(),
        ensures
            final(self).wf(),
            ({
                let t = take_segments(old(self)@.buf, old(self)@.table, old(self)@.data);
                let left = Assembly {
                    buf: t.buf,
                    table: t.table,
                    data: t.data,
                    eos: old(self)@.eos,
                };
                if t.complete || (old(self)@.eos && t.buf.len() > 0) {
                    &&& r matches Step::Packet(packet) && packet@ == t.buf
                    &&& final(self)@ == (Assembly { buf: Seq::empty(), ..left })
                } else {
                    &&& r == (if old(self)@.eos {
                        Step::End
                    } else {
                        Step::Page
                    })
                    &&& final(self)@ == left
                }
            }),
    {
        let ghost t = take_segments(self@.buf, self@.table, self@.data);
        if let Some(packet) = self.take_packet() {
            return Step::Packet(packet);
        }
        if !self.eos {
            return Step::Page;
        }
        match self.flush() {
            Some(packet) => Step::Packet(packet),
            None => {
                proof {
                    assert(t.buf =~= Seq::empty());
                }
                Step::End
            },
        }
    }
}

/// Reads packets from an Ogg stream in memory.
///
/// Call [`read_packet`](Self::read_packet) until it returns `Ok(None)`.
pub struct OggReader {
    stream: Vec<u8>,
    pos: usize,
    assembler: PacketAssembler,
}

impl View for OggReader {
    type V = Reader;

    closed spec fn view(&self) -> Reader {
        Reader {
            stream: self.stream@,
            pos: self.pos as int,
            buf: self.assembler@.buf,
            table: self.assembler@.table,
            data: self.assembler@.data,
            eos: self.assembler@.eos,
        }
    }
}

impl OggReader {
    /// The reader's invariant.
    pub closed spec fn wf(&self) -> bool {
        &&& self.assembler.wf()
        &&& self@.valid()
    }

    /// A well-formed reader is at a valid place of its stream.
    pub proof fn lemma_wf_valid(&self)
        requires
            self.wf(),
        ensures
            self@.valid(),
    {
    }

    /// A reader at the start of `stream`.
    pub fn new(stream: Vec<u8>) -> (r: OggReader)
        ensures
            r.wf(),
            r@ == Reader::start(stream@),
    {
        OggReader { stream, pos: 0, assembler: PacketAssembler::new() }
    }

    /// The next packet, `None` at the end of the stream, or why the page it
    /// should come from could not be read.
    pub fn read_packet(&mut self) -> (r: Result<Option<Vec<u8>>, OggError>)
        requires
            old(self).wf(),
        ensures
            final(self).wf(),
            final(self)@ == old(self)@.next().1,
            match (r, old(self)@.next().0) {
                (Ok(Some(packet)), Outcome::Packet(p)) => packet@ == p,
                (Ok(None), Outcome::End) => true,
                (Err(e), Outcome::Broken(f)) => e == f,
                _ => false,
            },
    {
        let ghost goal = self@.next();
        loop
            invariant
                self.wf(),
                goal == old(self)@.next(),
                goal == self@.next(),
            decreases self.stream@.len() - self.pos,
        {
            let step: Step = self.assembler.next_step();
            proof {
                self.assembler.lemma_wf_sums();
            }
            match step {
                Step::Packet(packet) => {
                    proof {
                        assert(self@ =~= goal.1);
                    }
                    return Ok(Some(packet));
                },
                Step::End => {
                    proof {
                        assert(self@ =~= goal.1);
                    }
                    return Ok(None);
                },
                Step::Page => {},
            }
            match parse_page(self.stream.as_slice(), self.pos) {
                FoundPage::End => {
                    self.assembler.set_at_end();
                    let rest: Option<Vec<u8>> = self.assembler.flush();
                    proof {
                        self.assembler.lemma_wf_sums();
                        assert(self@ =~= goal.1);
                    }
                    return Ok(rest);
                },
                FoundPage::Broken(e, pos) => {
                    self.pos = pos;
                    proof {
                        assert(self@ =~= goal.1);
                    }
                    return Err(e);
                },
                FoundPage::Page(page, pos) => {
                    self.pos = pos;
                    self.assembler.feed(page);
                    proof {
                        self.assembler.lemma_wf_sums();
                    }
                },
            }
        }
    }
}

} // verus!
