//! Intel HEX, record by record.

use vstd::prelude::*;

use crate::input::intel_hex;
use crate::input::intel_hex::{HexError, Line, Piece};

verus! {

/// The first `n` records are read: none of them ends the file or is malformed, and what follows them does, if
/// anything follows.
pub open spec fn are_read(lines: Seq<Line>, n: int) -> bool {
    &&& 0 <= n <= lines.len()
    &&& forall|i: int| 0 <= i < n ==> !((#[trigger] lines[i]) is End) && !(lines[i] is Malformed)
    &&& n < lines.len() ==> lines[n] is End || lines[n] is Malformed
}

/// The record sets the base address.
pub open spec fn sets_base(line: Line) -> bool {
    line is Linear || line is Segment
}

/// The base address that counts for record `k`: the one that was set last before it, zero if none was.
pub open spec fn base_for(lines: Seq<Line>, k: int) -> int
    decreases k,
{
    if k <= 0 {
        0
    } else {
        match lines[k - 1] {
            Line::Linear(upper) => upper * 65536,
            Line::Segment(segment) => segment * 16,
            _ => base_for(lines, k - 1),
        }
    }
}

/// Of the address records before record `k` the last one counts: a linear one gives the upper 16 bits of the
/// base, a segment one gives the base in units of 16.
pub proof fn last_base_counts(lines: Seq<Line>, j: int, k: int)
    requires
        0 <= j < k <= lines.len(),
        sets_base(lines[j]),
        forall|i: int| j < i < k ==> !sets_base(#[trigger] lines[i]),
    ensures
        lines[j] matches Line::Linear(upper) ==> base_for(lines, k) == upper * 65536,
        lines[j] matches Line::Segment(segment) ==> base_for(lines, k) == segment * 16,
    decreases k,
{
    if k > j + 1 {
        assert(!sets_base(lines[k - 1]));
        last_base_counts(lines, j, k - 1);
    }
}

/// Before the first address record the base is zero.
pub proof fn base_is_zero_at_first(lines: Seq<Line>, k: int)
    requires
        0 <= k <= lines.len(),
        forall|i: int| 0 <= i < k ==> !sets_base(#[trigger] lines[i]),
    ensures
        base_for(lines, k) == 0,
    decreases k,
{
    if k > 0 {
        assert(!sets_base(lines[k - 1]));
        base_is_zero_at_first(lines, k - 1);
    }
}

/// Where the data of record `k` begins.
pub open spec fn start(lines: Seq<Line>, k: int) -> int {
    base_for(lines, k) + lines[k]->offset
}

/// Where the data of record `k` ends.
pub open spec fn end(lines: Seq<Line>, k: int) -> int {
    start(lines, k) + lines[k]->value.len()
}

/// Record `k` holds the byte at an address.
pub open spec fn covers(lines: Seq<Line>, k: int, addr: int) -> bool {
    lines[k] is Data && start(lines, k) <= addr < end(lines, k)
}

/// Some record among the first `n` holds data.
pub open spec fn some_data(lines: Seq<Line>, n: int) -> bool {
    exists|k: int| 0 <= k < n && (#[trigger] lines[k]) is Data
}

/// The pieces of the first `k` records.
spec fn pieces_to(lines: Seq<Line>, k: int) -> Seq<Piece>
    decreases k,
{
    if k <= 0 {
        seq![]
    } else if lines[k - 1] is Data {
        pieces_to(lines, k - 1).push(Piece { addr: start(lines, k - 1), data: lines[k - 1]->value })
    } else {
        pieces_to(lines, k - 1)
    }
}

proof fn lemma_pieces_to(lines: Seq<Line>, n: int, i: int)
    requires
        are_read(lines, n),
        0 <= i <= n,
    ensures
        pieces_to(lines, i) + intel_hex::pieces(lines.skip(i), base_for(lines, i)) == intel_hex::pieces(lines, 0),
    decreases i,
{
    if i == 0 {
        assert(lines.skip(0) =~= lines);
        assert(pieces_to(lines, 0) + intel_hex::pieces(lines, 0) =~= intel_hex::pieces(lines, 0));
    } else {
        lemma_pieces_to(lines, n, i - 1);
        let tail = lines.skip(i - 1);
        assert(tail[0] == lines[i - 1]);
        assert(tail.skip(1) =~= lines.skip(i));
        assert(pieces_to(lines, i) + intel_hex::pieces(lines.skip(i), base_for(lines, i)) =~= pieces_to(
            lines,
            i - 1,
        ) + intel_hex::pieces(tail, base_for(lines, i - 1)));
    }
}

proof fn lemma_pieces(lines: Seq<Line>, n: int)
    requires
        are_read(lines, n),
    ensures
        intel_hex::pieces(lines, 0) == pieces_to(lines, n),
{
    lemma_pieces_to(lines, n, n);
    let tail = lines.skip(n);
    if n < lines.len() {
        assert(tail[0] == lines[n]);
    }
    assert(intel_hex::pieces(tail, base_for(lines, n)) =~= seq![]);
    assert(pieces_to(lines, n) + seq![] =~= pieces_to(lines, n));
}

proof fn lemma_stop(lines: Seq<Line>, n: int)
    requires
        are_read(lines, n),
    ensures
        n < lines.len() ==> intel_hex::stop(lines) == Some(lines[n]),
        n == lines.len() ==> intel_hex::stop(lines) is None,
    decreases n,
{
    if n > 0 {
        let tail = lines.skip(1);
        assert(lines[0] == lines[0]);
        assert forall|i: int| 0 <= i < n - 1 implies !((#[trigger] tail[i]) is End) && !(tail[i] is Malformed) by {
            assert(tail[i] == lines[i + 1]);
        }
        lemma_stop(tail, n - 1);
    }
}

/// Every data record, at the base that counts for it, ends within the 32-bit address space.
pub open spec fn fits(lines: Seq<Line>, n: int) -> bool {
    forall|k: int| 0 <= k < n && (#[trigger] lines[k]) is Data ==> end(lines, k) <= 0xFFFF_FFFF
}

proof fn lemma_in_range(lines: Seq<Line>, k: int)
    requires
        0 <= k <= lines.len(),
    ensures
        intel_hex::in_range(pieces_to(lines, k)) <==> fits(lines, k),
        pieces_to(lines, k).len() > 0 <==> some_data(lines, k),
    decreases k,
{
    if k > 0 {
        let parts = pieces_to(lines, k);
        let before = pieces_to(lines, k - 1);
        lemma_in_range(lines, k - 1);
        if lines[k - 1] is Data {
            let last = parts.len() - 1;
            assert(parts.drop_last() =~= before);
            if intel_hex::in_range(parts) {
                assert(parts[last].addr + parts[last].data.len() <= u32::MAX);
                assert forall|i: int| 0 <= i < before.len() implies (#[trigger] before[i]).addr
                    + before[i].data.len() <= u32::MAX by {
                    assert(before[i] == parts[i]);
                }
            }
            if fits(lines, k) {
                assert forall|i: int| 0 <= i < parts.len() implies (#[trigger] parts[i]).addr + parts[i].data.len()
                    <= u32::MAX by {
                    if i < last {
                        assert(before[i] == parts[i]);
                    }
                }
            }
        }
    }
}

/// `lo` is where the data begins, and `hi` where it ends.
pub open spec fn spans(lines: Seq<Line>, n: int, lo: int, hi: int) -> bool {
    &&& forall|k: int| 0 <= k < n && (#[trigger] lines[k]) is Data ==> lo <= start(lines, k)
    &&& exists|k: int| 0 <= k < n && (#[trigger] lines[k]) is Data && lo == start(lines, k)
    &&& forall|k: int| 0 <= k < n && (#[trigger] lines[k]) is Data ==> end(lines, k) <= hi
    &&& exists|k: int| 0 <= k < n && (#[trigger] lines[k]) is Data && hi == end(lines, k)
}

/// The numbers in a record have 16 bits.
pub open spec fn valid_line(line: Line) -> bool {
    match line {
        Line::Data { offset, .. } => 0 <= offset <= 0xFFFF,
        Line::Linear(upper) => 0 <= upper <= 0xFFFF,
        Line::Segment(segment) => 0 <= segment <= 0xFFFF,
        _ => true,
    }
}

/// The numbers in the records have 16 bits.
pub open spec fn valid(lines: Seq<Line>) -> bool {
    forall|k: int| 0 <= k < lines.len() ==> valid_line(#[trigger] lines[k])
}

proof fn lemma_base(lines: Seq<Line>, k: int)
    requires
        valid(lines),
        0 <= k <= lines.len(),
    ensures
        0 <= base_for(lines, k),
    decreases k,
{
    if k > 0 {
        assert(valid_line(lines[k - 1]));
        lemma_base(lines, k - 1);
    }
}

proof fn lemma_spans(lines: Seq<Line>, k: int)
    requires
        valid(lines),
        0 <= k <= lines.len(),
        fits(lines, k),
    ensures
        ({
            let parts = pieces_to(lines, k);
            let lo = intel_hex::lowest(parts);
            let hi = intel_hex::highest(parts);
            if some_data(lines, k) {
                spans(lines, k, lo, hi)
            } else {
                lo == u32::MAX && hi == 0
            }
        }),
    decreases k,
{
    if k > 0 {
        let parts = pieces_to(lines, k);
        let before = pieces_to(lines, k - 1);
        lemma_spans(lines, k - 1);
        if lines[k - 1] is Data {
            assert(parts.drop_last() =~= before);
            assert(parts.last() == Piece { addr: start(lines, k - 1), data: lines[k - 1]->value });
            assert(valid_line(lines[k - 1]));
            lemma_base(lines, k - 1);
            assert(end(lines, k - 1) <= 0xFFFF_FFFF);
            let lo = intel_hex::lowest(parts);
            let hi = intel_hex::highest(parts);
            if !some_data(lines, k - 1) {
                assert(lo == start(lines, k - 1));
                assert(hi == end(lines, k - 1));
            }
            assert(some_data(lines, k));
            assert(spans(lines, k, lo, hi));
        } else if some_data(lines, k - 1) {
            assert(some_data(lines, k));
        }
    }
}

/// What the byte at an address is: that of the last record that holds it, 0xFF if none does.
pub open spec fn is_byte(lines: Seq<Line>, n: int, addr: int, b: u8) -> bool {
    &&& forall|k: int|
        0 <= k < n && #[trigger] covers(lines, k, addr) && (forall|j: int|
            k < j < n ==> !#[trigger] covers(lines, j, addr)) ==> b == lines[k]->value[addr - start(lines, k)]
    &&& (forall|k: int| 0 <= k < n ==> !#[trigger] covers(lines, k, addr)) ==> b == 0xFF
}

proof fn lemma_byte(lines: Seq<Line>, k: int, addr: int)
    requires
        0 <= k <= lines.len(),
    ensures
        is_byte(lines, k, addr, intel_hex::byte_at(pieces_to(lines, k), addr)),
    decreases k,
{
    if k > 0 {
        let parts = pieces_to(lines, k);
        let before = pieces_to(lines, k - 1);
        let b = intel_hex::byte_at(parts, addr);
        lemma_byte(lines, k - 1, addr);
        if lines[k - 1] is Data {
            assert(parts.drop_last() =~= before);
            assert(parts.last() == Piece { addr: start(lines, k - 1), data: lines[k - 1]->value });
        }
        let hit = covers(lines, k - 1, addr);
        assert forall|i: int|
            0 <= i < k && #[trigger] covers(lines, i, addr) && (forall|j: int|
                i < j < k ==> !#[trigger] covers(lines, j, addr)) implies b == lines[i]->value[addr - start(
            lines,
            i,
        )] by {
            if i < k - 1 {
                assert(!hit);
            }
        }
    }
}

/// The image is the bytes from where the data begins to where it ends.
pub open spec fn is_image(lines: Seq<Line>, n: int, image: Seq<u8>) -> bool {
    exists|lo: int|
        {
            &&& #[trigger] spans(lines, n, lo, lo + image.len())
            &&& forall|i: int| 0 <= i < image.len() ==> is_byte(lines, n, lo + i, #[trigger] image[i])
        }
}

/// What records stand for. They are malformed if a malformed record comes before the end of the file; else they
/// hold no data; else the end of the file is missing; else they stand for an image.
pub open spec fn stand_for(lines: Seq<Line>, n: int, r: Result<Seq<u8>, HexError>) -> bool {
    if n < lines.len() && lines[n] is Malformed {
        r == Err::<Seq<u8>, HexError>(HexError::Malformed)
    } else if !some_data(lines, n) {
        r == Err::<Seq<u8>, HexError>(HexError::NoData)
    } else if n == lines.len() {
        r == Err::<Seq<u8>, HexError>(HexError::MissingEof)
    } else {
        r is Ok && is_image(lines, n, r->Ok_0)
    }
}

/// The outcome, with a sequence of bytes in place of a vector.
pub open spec fn outcome(r: Result<Vec<u8>, HexError>) -> Result<Seq<u8>, HexError> {
    match r {
        Ok(image) => Ok(image@),
        Err(e) => Err(e),
    }
}

/// Reading stops at the first record that ends the file or is malformed, or after the last record.
pub proof fn reading_stops(lines: Seq<Line>) -> (n: int)
    ensures
        are_read(lines, n),
        forall|m: int| are_read(lines, m) ==> m == n,
    decreases lines.len(),
{
    if lines.len() == 0 || lines[0] is End || lines[0] is Malformed {
        assert forall|m: int| are_read(lines, m) implies m == 0 by {
            if m > 0 {
                assert(!(lines[0] is End) && !(lines[0] is Malformed));
            }
        }
        0
    } else {
        let tail = lines.skip(1);
        let n = reading_stops(tail) + 1;
        assert forall|i: int| 0 <= i < n implies !((#[trigger] lines[i]) is End) && !(lines[i] is Malformed) by {
            if i > 0 {
                assert(tail[i - 1] == lines[i]);
            }
        }
        assert forall|m: int| are_read(lines, m) implies m == n by {
            if m < n {
                assert(lines[m] == lines[m]);
            } else if m > n {
                assert(tail[n - 1] == lines[n]);
            }
        }
        n
    }
}

/// Where records hold data, they stand for the image of which each byte comes from the last record that holds
/// its address, at the base that was set last before that record.
pub proof fn image_by_address(lines: Seq<Line>, n: int)
    requires
        valid(lines),
        are_read(lines, n),
    ensures
        intel_hex::in_range(intel_hex::pieces(lines, 0)) <==> fits(lines, n),
        fits(lines, n) ==> stand_for(lines, n, intel_hex::image_of(lines)),
{
    let parts = pieces_to(lines, n);
    lemma_pieces(lines, n);
    lemma_stop(lines, n);
    lemma_in_range(lines, n);
    if fits(lines, n) && intel_hex::image_of(lines) is Ok {
        lemma_spans(lines, n);
        let lo = intel_hex::lowest(parts);
        let image = intel_hex::flat(parts);
        let k = choose|k: int| 0 <= k < n && (#[trigger] lines[k]) is Data && lo == start(lines, k);
        assert(end(lines, k) <= intel_hex::highest(parts));
        assert forall|i: int| 0 <= i < image.len() implies is_byte(lines, n, lo + i, #[trigger] image[i]) by {
            lemma_byte(lines, n, lo + i);
        }
        assert(spans(lines, n, lo, lo + image.len()));
    }
}

} // verus!
