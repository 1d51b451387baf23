//! Intel HEX: the flat image that a file stands for.

use vstd::prelude::*;
use vstd::utf8;

use crate::format::put;
use crate::laws::hex;
use crate::text::utf8_text;

verus! {

/// Why there is no image in an Intel HEX file.
#[derive(Clone, Copy, PartialEq, Eq, Debug, Structural)]
pub enum HexError {
    /// The file is not valid UTF-8.
    NotText,
    /// A data record reaches beyond the 32-bit address space.
    OutOfRange,
    /// A record is malformed.
    Malformed,
    /// There are no data records.
    NoData,
    /// There is no end-of-file record.
    MissingEof,
}

impl HexError {
    /// The text of [`HexError::message`].
    pub open spec fn text(self) -> Seq<char> {
        match self {
            HexError::NotText => "Intel HEX is not valid UTF-8"@,
            HexError::OutOfRange => "Intel HEX data reaches beyond the 32-bit address space"@,
            HexError::Malformed => "malformed Intel HEX record"@,
            HexError::NoData => "no data records in Intel HEX"@,
            HexError::MissingEof => "Intel HEX missing EOF record"@,
        }
    }

    /// The error in words.
    pub fn message(&self) -> (s: &'static str)
        ensures
            s@ == self.text(),
    {
        match self {
            HexError::NotText => "Intel HEX is not valid UTF-8",
            HexError::OutOfRange => "Intel HEX data reaches beyond the 32-bit address space",
            HexError::Malformed => "malformed Intel HEX record",
            HexError::NoData => "no data records in Intel HEX",
            HexError::MissingEof => "Intel HEX missing EOF record",
        }
    }
}

/// A record of an Intel HEX file.
#[derive(Debug)]
pub enum HexRecord {
    /// Bytes at a 16-bit offset from the base address.
    Data { offset: u16, value: Vec<u8> },
    /// The upper 16 bits of the base address.
    Linear(u16),
    /// Bits 4 to 19 of the base address.
    Segment(u16),
    /// Where execution starts.
    Start,
    /// The end of the file.
    End,
    /// A line that is no record.
    Malformed,
}

/// A [`HexRecord`], with a sequence of bytes in place of a vector.
pub enum Line {
    Data { offset: int, value: Seq<u8> },
    Linear(int),
    Segment(int),
    Start,
    End,
    Malformed,
}

impl View for HexRecord {
    type V = Line;

    open spec fn view(&self) -> Line {
        match *self {
            HexRecord::Data { offset, value } => Line::Data { offset: offset as int, value: value@ },
            HexRecord::Linear(upper) => Line::Linear(upper as int),
            HexRecord::Segment(segment) => Line::Segment(segment as int),
            HexRecord::Start => Line::Start,
            HexRecord::End => Line::End,
            HexRecord::Malformed => Line::Malformed,
        }
    }
}

/// What each record says.
pub open spec fn lines_of(records: Seq<HexRecord>) -> Seq<Line> {
    Seq::new(records.len(), |i: int| records[i]@)
}

/// The records that a text holds.
pub uninterp spec fn records_in(text: Seq<char>) -> Seq<Line>;

/// Reads the records of a text, with `ihex::Reader`, which stops after the end-of-file record and after the
/// first malformed one. Its contract says that the records depend on the text alone.
#[verifier::external_body]
fn read_records(text: &str) -> (records: Vec<HexRecord>)
    ensures
        lines_of(records@) == records_in(text@),
{
    ihex::Reader::new(text).map(|record| match record {
        Ok(ihex::Record::Data { offset, value }) => HexRecord::Data { offset, value },
        Ok(ihex::Record::ExtendedLinearAddress(upper)) => HexRecord::Linear(upper),
        Ok(ihex::Record::ExtendedSegmentAddress(segment)) => HexRecord::Segment(segment),
        Ok(ihex::Record::StartSegmentAddress { .. }) => HexRecord::Start,
        Ok(ihex::Record::StartLinearAddress(_)) => HexRecord::Start,
        Ok(ihex::Record::EndOfFile) => HexRecord::End,
        Err(_) => HexRecord::Malformed,
    }).collect()
}

/// Bytes at an address.
pub struct Piece {
    pub addr: int,
    pub data: Seq<u8>,
}

/// The pieces of data up to the end of the file or the first malformed record, from a base address on.
pub open spec fn pieces(lines: Seq<Line>, base: int) -> Seq<Piece>
    decreases lines.len(),
{
    if lines.len() == 0 {
        seq![]
    } else {
        let rest = lines.skip(1);
        match lines[0] {
            Line::Data { offset, value } => seq![Piece { addr: base + offset, data: value }] + pieces(
                rest,
                base,
            ),
            Line::Linear(upper) => pieces(rest, upper * 0x1_0000),
            Line::Segment(segment) => pieces(rest, segment * 0x10),
            Line::Start => pieces(rest, base),
            Line::End => seq![],
            Line::Malformed => seq![],
        }
    }
}

/// The first end-of-file or malformed record.
pub open spec fn stop(lines: Seq<Line>) -> Option<Line>
    decreases lines.len(),
{
    if lines.len() == 0 {
        None
    } else if lines[0] is End || lines[0] is Malformed {
        Some(lines[0])
    } else {
        stop(lines.skip(1))
    }
}

/// Every piece ends within the 32-bit address space.
pub open spec fn in_range(parts: Seq<Piece>) -> bool {
    forall|i: int| 0 <= i < parts.len() ==> (#[trigger] parts[i]).addr + parts[i].data.len() <= u32::MAX
}

/// The lowest address of a piece.
pub open spec fn lowest(parts: Seq<Piece>) -> int
    decreases parts.len(),
{
    if parts.len() == 0 {
        u32::MAX as int
    } else if parts.last().addr < lowest(parts.drop_last()) {
        parts.last().addr
    } else {
        lowest(parts.drop_last())
    }
}

/// The highest end of a piece.
pub open spec fn highest(parts: Seq<Piece>) -> int
    decreases parts.len(),
{
    if parts.len() == 0 {
        0
    } else if parts.last().addr + parts.last().data.len() > highest(parts.drop_last()) {
        parts.last().addr + parts.last().data.len()
    } else {
        highest(parts.drop_last())
    }
}

/// The byte at an address: that of the last piece that covers it, or 0xFF.
pub open spec fn byte_at(parts: Seq<Piece>, addr: int) -> u8
    decreases parts.len(),
{
    if parts.len() == 0 {
        0xFF
    } else {
        let last = parts.last();
        if last.addr <= addr < last.addr + last.data.len() {
            last.data[addr - last.addr]
        } else {
            byte_at(parts.drop_last(), addr)
        }
    }
}

/// The bytes from the lowest address to the highest end.
pub open spec fn flat(parts: Seq<Piece>) -> Seq<u8> {
    Seq::new(
        (highest(parts) - lowest(parts)) as nat,
        |i: int| byte_at(parts, lowest(parts) + i),
    )
}

/// The flat image that records stand for.
pub open spec fn image_of(lines: Seq<Line>) -> Result<Seq<u8>, HexError> {
    let parts = pieces(lines, 0);
    if stop(lines) == Some(Line::Malformed) {
        Err(HexError::Malformed)
    } else if parts.len() == 0 {
        Err(HexError::NoData)
    } else if stop(lines) is None {
        Err(HexError::MissingEof)
    } else {
        Ok(flat(parts))
    }
}

/// The flat image that an Intel HEX file stands for.
pub open spec fn hex_image(bytes: Seq<u8>) -> Result<Seq<u8>, HexError> {
    let lines = records_in(utf8::decode_utf8(bytes));
    if !utf8::valid_utf8(bytes) {
        Err(HexError::NotText)
    } else if !in_range(pieces(lines, 0)) {
        Err(HexError::OutOfRange)
    } else {
        image_of(lines)
    }
}

/// Bytes at an address.
struct Chunk {
    addr: u32,
    data: Vec<u8>,
}

impl View for Chunk {
    type V = Piece;

    closed spec fn view(&self) -> Piece {
        Piece { addr: self.addr as int, data: self.data@ }
    }
}

/// What each chunk says.
spec fn parts_of(chunks: Seq<Chunk>) -> Seq<Piece> {
    Seq::new(chunks.len(), |i: int| chunks[i]@)
}

/// How a walk over records ends.
#[derive(Clone, Copy, PartialEq, Eq, Structural)]
enum Finish {
    RanOut,
    AtEnd,
    AtMalformed,
}

/// Walks over records, up to the end of the file or the first malformed one.
fn collect(records: &[HexRecord]) -> (r: (Vec<Chunk>, Finish))
    ensures
        parts_of(r.0@) == pieces(lines_of(records@), 0),
        match r.1 {
            Finish::RanOut => stop(lines_of(records@)) is None,
            Finish::AtEnd => stop(lines_of(records@)) == Some(Line::End),
            Finish::AtMalformed => stop(lines_of(records@)) == Some(Line::Malformed),
        },
{
    let ghost lines = lines_of(records@);
    let n: usize = records.len();
    let mut chunks: Vec<Chunk> = Vec::new();
    let mut base: u32 = 0;
    let mut i: usize = 0;
    proof {
        assert(lines.skip(0) =~= lines);
        assert(parts_of(chunks@) + pieces(lines, 0) =~= pieces(lines, 0));
    }
    while i < n
        invariant
            n == records@.len(),
            lines == lines_of(records@),
            i <= n,
            base <= 0xFFFF_0000,
            parts_of(chunks@) + pieces(lines.skip(i as int), base as int) == pieces(lines, 0),
            stop(lines.skip(i as int)) == stop(lines),
        decreases n - i,
    {
        let ghost tail = lines.skip(i as int);
        let ghost done = parts_of(chunks@);
        assert(tail[0] == records@[i as int]@);
        assert(tail.skip(1) =~= lines.skip(i + 1));
        match &records[i] {
            HexRecord::Data { offset, value } => {
                let mut data: Vec<u8> = Vec::new();
                put(&mut data, value.as_slice());
                assert(data@ =~= value@);
                let chunk = Chunk { addr: base + *offset as u32, data };
                chunks.push(chunk);
                proof {
                    assert(parts_of(chunks@) =~= done.push(chunk@));
                    assert(parts_of(chunks@) + pieces(tail.skip(1), base as int) =~= done + pieces(
                        tail,
                        base as int,
                    ));
                }
            },
            HexRecord::Linear(upper) => {
                base = *upper as u32 * 0x1_0000;
            },
            HexRecord::Segment(segment) => {
                base = *segment as u32 * 0x10;
            },
            HexRecord::Start => {},
            HexRecord::End => {
                assert(parts_of(chunks@) =~= pieces(lines, 0));
                return (chunks, Finish::AtEnd);
            },
            HexRecord::Malformed => {
                assert(parts_of(chunks@) =~= pieces(lines, 0));
                return (chunks, Finish::AtMalformed);
            },
        }
        i = i + 1;
    }
    assert(parts_of(chunks@) =~= pieces(lines, 0));
    (chunks, Finish::RanOut)
}

/// Whether every data record ends within the 32-bit address space.
pub fn records_in_range(records: &[HexRecord]) -> (r: bool)
    ensures
        r == in_range(pieces(lines_of(records@), 0)),
        forall|n: int| #[trigger] hex::are_read(lines_of(records@), n) ==> r == hex::fits(lines_of(records@), n),
{
    proof {
        assert forall|n: int| #[trigger] hex::are_read(lines_of(records@), n) implies in_range(
            pieces(lines_of(records@), 0),
        ) == hex::fits(lines_of(records@), n) by {
            hex::image_by_address(lines_of(records@), n);
        }
    }
    let (chunks, _finish) = collect(records);
    let n: usize = chunks.len();
    let ghost parts = parts_of(chunks@);
    let mut i: usize = 0;
    while i < n
        invariant
            n == chunks@.len(),
            parts == parts_of(chunks@),
            parts == pieces(lines_of(records@), 0),
            forall|m: int| #[trigger]
                hex::are_read(lines_of(records@), m) ==> in_range(parts) == hex::fits(lines_of(records@), m),
            i <= n,
            forall|k: int|
                0 <= k < i ==> (#[trigger] parts[k]).addr + parts[k].data.len() <= u32::MAX,
        decreases n - i,
    {
        assert(parts[i as int] == chunks@[i as int]@);
        if chunks[i].data.len() as u64 > (u32::MAX - chunks[i].addr) as u64 {
            return false;
        }
        i = i + 1;
    }
    true
}

/// The lowest address and the highest end.
fn span(chunks: &Vec<Chunk>) -> (r: (u32, u32))
    requires
        in_range(parts_of(chunks@)),
    ensures
        r.0 == lowest(parts_of(chunks@)),
        r.1 == highest(parts_of(chunks@)),
{
    let n: usize = chunks.len();
    let ghost parts = parts_of(chunks@);
    let mut lo: u32 = u32::MAX;
    let mut hi: u32 = 0;
    let mut i: usize = 0;
    while i < n
        invariant
            n == chunks@.len(),
            parts == parts_of(chunks@),
            in_range(parts),
            i <= n,
            lo == lowest(parts.take(i as int)),
            hi == highest(parts.take(i as int)),
        decreases n - i,
    {
        assert(parts[i as int] == chunks@[i as int]@);
        assert(parts.take(i + 1).drop_last() =~= parts.take(i as int));
        let addr: u32 = chunks[i].addr;
        let end: u32 = addr + chunks[i].data.len() as u32;
        if addr < lo {
            lo = addr;
        }
        if end > hi {
            hi = end;
        }
        i = i + 1;
    }
    assert(parts.take(n as int) =~= parts);
    (lo, hi)
}

proof fn lemma_span(parts: Seq<Piece>, i: int)
    requires
        0 <= i < parts.len(),
    ensures
        lowest(parts) <= parts[i].addr,
        parts[i].addr + parts[i].data.len() <= highest(parts),
    decreases parts.len(),
{
    if i < parts.len() - 1 {
        lemma_span(parts.drop_last(), i);
    }
}

/// Copies `data` into `out` from `at` on.
fn copy_at(out: &mut Vec<u8>, at: usize, data: &Vec<u8>)
    requires
        at + data@.len() <= old(out)@.len(),
    ensures
        final(out)@.len() == old(out)@.len(),
        forall|k: int|
            0 <= k < final(out)@.len() ==> #[trigger] final(out)@[k] == if at <= k < at + data@.len() {
                data@[k - at]
            } else {
                old(out)@[k]
            },
{
    let n: usize = data.len();
    let size: usize = out.len();
    let mut i: usize = 0;
    while i < n
        invariant
            n == data@.len(),
            size == out@.len(),
            out@.len() == old(out)@.len(),
            at + n <= size,
            i <= n,
            forall|k: int|
                0 <= k < out@.len() ==> #[trigger] out@[k] == if at <= k < at + i {
                    data@[k - at]
                } else {
                    old(out)@[k]
                },
        decreases n - i,
    {
        out.set(at + i, data[i]);
        i = i + 1;
    }
}

/// The bytes from the lowest address to the highest end, gaps filled with 0xFF.
fn overlay(chunks: &Vec<Chunk>) -> (out: Vec<u8>)
    requires
        chunks@.len() > 0,
        in_range(parts_of(chunks@)),
    ensures
        out@ == flat(parts_of(chunks@)),
{
    let ghost parts = parts_of(chunks@);
    let (lo, hi) = span(chunks);
    let n: usize = chunks.len();
    proof {
        lemma_span(parts, 0);
    }
    let mut out: Vec<u8> = Vec::new();
    out.resize((hi - lo) as usize, 0xFF);
    let mut i: usize = 0;
    while i < n
        invariant
            n == chunks@.len(),
            parts == parts_of(chunks@),
            in_range(parts),
            i <= n,
            lo == lowest(parts),
            hi == highest(parts),
            lo <= hi,
            out@.len() == hi - lo,
            forall|k: int|
                0 <= k < out@.len() ==> #[trigger] out@[k] == byte_at(parts.take(i as int), lo + k),
        decreases n - i,
    {
        proof {
            assert(parts[i as int] == chunks@[i as int]@);
            lemma_span(parts, i as int);
            assert(parts.take(i + 1).drop_last() =~= parts.take(i as int));
        }
        copy_at(&mut out, (chunks[i].addr - lo) as usize, &chunks[i].data);
        i = i + 1;
    }
    assert(parts.take(n as int) =~= parts);
    assert(out@ =~= flat(parts));
    out
}

/// The flat image that records stand for: the span from the lowest to the highest address, with gaps filled
/// with 0xFF. Where records overlap, the later one counts.
pub fn flat_image(records: &[HexRecord]) -> (r: Result<Vec<u8>, HexError>)
    requires
        in_range(pieces(lines_of(records@), 0)),
    ensures
        match r {
            Ok(image) => image_of(lines_of(records@)) == Ok::<Seq<u8>, HexError>(image@),
            Err(e) => image_of(lines_of(records@)) == Err::<Seq<u8>, HexError>(e),
        },
        forall|n: int| #[trigger]
            hex::are_read(lines_of(records@), n) ==> hex::stand_for(lines_of(records@), n, hex::outcome(r)),
{
    proof {
        assert forall|n: int| #[trigger] hex::are_read(lines_of(records@), n) implies hex::stand_for(
            lines_of(records@),
            n,
            image_of(lines_of(records@)),
        ) by {
            hex::image_by_address(lines_of(records@), n);
        }
    }
    let (chunks, finish) = collect(records);
    assert(parts_of(chunks@).len() == chunks@.len());
    if finish == Finish::AtMalformed {
        return Err(HexError::Malformed);
    }
    if chunks.len() == 0 {
        return Err(HexError::NoData);
    }
    if finish == Finish::RanOut {
        return Err(HexError::MissingEof);
    }
    Ok(overlay(&chunks))
}

/// Parses Intel HEX into the flat image that it stands for.
pub fn parse_intel_hex(bytes: &[u8]) -> (r: Result<Vec<u8>, HexError>)
    ensures
        match r {
            Ok(image) => hex_image(bytes@) == Ok::<Seq<u8>, HexError>(image@),
            Err(e) => hex_image(bytes@) == Err::<Seq<u8>, HexError>(e),
        },
        ({
            let lines = records_in(utf8::decode_utf8(bytes@));
            if utf8::valid_utf8(bytes@) {
                forall|n: int| #[trigger]
                    hex::are_read(lines, n) ==> if hex::fits(lines, n) {
                        hex::stand_for(lines, n, hex::outcome(r))
                    } else {
                        hex::outcome(r) == Err::<Seq<u8>, HexError>(HexError::OutOfRange)
                    }
            } else {
                hex::outcome(r) == Err::<Seq<u8>, HexError>(HexError::NotText)
            }
        }),
{
    let text: &str = match utf8_text(bytes) {
        Some(text) => text,
        None => return Err(HexError::NotText),
    };
    let records: Vec<HexRecord> = read_records(text);
    if !records_in_range(records.as_slice()) {
        return Err(HexError::OutOfRange);
    }
    flat_image(records.as_slice())
}

} // verus!
