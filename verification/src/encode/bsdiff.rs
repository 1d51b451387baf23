//! The difference between two byte strings, as bsdiff finds it.
//!
//! The target is walked from left to right. Where a long enough match with some part of the base begins,
//! the stretch since the previous match is written out: first the part that is worth storing as bytewise
//! differences to the base (`diff`), then what is stored literally (`extra`), then how far the cursor in
//! the base moves on from there (`seek`). Both ends of such a stretch are extended as far as more than
//! half of the bytes agree.

use vstd::prelude::*;

use crate::decode;
use crate::encode::search;
use crate::encode::search::search;
use crate::encode::suffix;
use crate::encode::suffix::suffix_array_with_sentinel;
use crate::encode::varint;
use crate::encode::varint::pack_difference;

verus! {

/// The byte of `to` at `j` equals the byte of `from` that lies `off` further on.
pub open spec fn hit(from: Seq<u8>, to: Seq<u8>, off: int, j: int) -> bool {
    0 <= j + off < from.len() && from[j + off] == to[j]
}

/// How many of the positions `a..b` of `to` are a [`hit`].
pub open spec fn hits(from: Seq<u8>, to: Seq<u8>, off: int, a: int, b: int) -> int
    decreases b - a,
{
    if a < b {
        hits(from, to, off, a, b - 1) + if hit(from, to, off, b - 1) {
            1int
        } else {
            0
        }
    } else {
        0
    }
}

/// Looks for the next match that pays, from `scan` on. `len` and `pos` are those of the latest match;
/// `score` counts the hits of the previous alignment in `scan..counted`. A match pays if it is fully
/// covered by the previous alignment (and not empty), or if it is more than eight bytes better.
///
/// The result is the place in `to`, the match there, and the score.
pub open spec fn next_match(
    from: Seq<u8>,
    to: Seq<u8>,
    off: int,
    scan: int,
    len: int,
    pos: int,
    score: int,
    counted: int,
) -> (int, int, int, int)
    decreases to.len() - scan,
{
    if scan < to.len() {
        let (len2, pos2) = search::match_in(from, to.skip(scan));
        let score2 = score + hits(from, to, off, counted, scan + len2);
        let counted2 = if counted < scan + len2 {
            scan + len2
        } else {
            counted
        };
        if (len2 == score2 && len2 != 0) || len2 > score2 + 8 {
            (scan, len2, pos2, score2)
        } else {
            let score3 = score2 - if hit(from, to, off, scan) {
                1int
            } else {
                0
            };
            next_match(from, to, off, scan + 1, len2, pos2, score3, counted2)
        }
    } else {
        (scan, len, pos, score)
    }
}

/// The first length up to `m` at which the stretch from `start` on, under the alignment `off`, has the
/// most hits over misses.
pub open spec fn best_forward(from: Seq<u8>, to: Seq<u8>, off: int, start: int, m: int) -> int
    decreases m,
{
    if m <= 0 {
        0
    } else {
        let p = best_forward(from, to, off, start, m - 1);
        if 2 * hits(from, to, off, start, start + m) - m > 2 * hits(from, to, off, start, start + p)
            - p {
            m
        } else {
            p
        }
    }
}

/// The same for the stretch that ends before `end`.
pub open spec fn best_backward(from: Seq<u8>, to: Seq<u8>, off: int, end: int, m: int) -> int
    decreases m,
{
    if m <= 0 {
        0
    } else {
        let p = best_backward(from, to, off, end, m - 1);
        if 2 * hits(from, to, off, end - m, end) - m > 2 * hits(from, to, off, end - p, end) - p {
            m
        } else {
            p
        }
    }
}

/// Where to cut a stretch of length `m` from `start` on that both alignments claim: the first length
/// whose part under `off1` has the most hits over those under `off2`.
pub open spec fn best_cut(
    from: Seq<u8>,
    to: Seq<u8>,
    off1: int,
    off2: int,
    start: int,
    m: int,
) -> int
    decreases m,
{
    if m <= 0 {
        0
    } else {
        let p = best_cut(from, to, off1, off2, start, m - 1);
        if hits(from, to, off1, start, start + m) - hits(from, to, off2, start, start + m) > hits(
            from,
            to,
            off1,
            start,
            start + p,
        ) - hits(from, to, off2, start, start + p) {
            m
        } else {
            p
        }
    }
}

/// How far the match at (`lastscan`, `lastpos`) extends forward and the one at (`scan`, `pos`) backward.
pub open spec fn extents(
    from: Seq<u8>,
    to: Seq<u8>,
    lastscan: int,
    lastpos: int,
    scan: int,
    pos: int,
) -> (int, int) {
    let f = best_forward(
        from,
        to,
        lastpos - lastscan,
        lastscan,
        search::min(scan - lastscan, from.len() - lastpos),
    );
    let b = if scan < to.len() {
        best_backward(from, to, pos - scan, scan, search::min(scan - lastscan, pos))
    } else {
        0
    };
    let overlap = (lastscan + f) - (scan - b);
    if overlap > 0 {
        let cut = best_cut(from, to, lastpos - lastscan, pos - scan, scan - b, overlap);
        (f + cut - overlap, b - cut)
    } else {
        (f, b)
    }
}

/// The difference of two bytes, modulo 256.
pub open spec fn byte_sub(a: u8, b: u8) -> u8 {
    ((a - b) % 256) as u8
}

/// The bytewise difference of `to[t..t + n]` and `from[p..p + n]`.
pub open spec fn differences(from: Seq<u8>, to: Seq<u8>, p: int, t: int, n: int) -> Seq<u8> {
    Seq::new(n as nat, |i: int| byte_sub(to[t + i], from[p + i]))
}

/// One entry of the stream: differences, literal bytes, and the move of the base cursor.
pub open spec fn entry(diff: Seq<u8>, extra: Seq<u8>, seek: int) -> Seq<u8> {
    varint::size_bytes(diff.len() as int) + diff + varint::size_bytes(extra.len() as int) + extra
        + varint::size_bytes(seek)
}

/// The entry for the stretch between the match at (`lastscan`, `lastpos`), extended by `f`, and the one
/// at (`scan`, `pos`), extended back by `b`.
pub open spec fn stretch(
    from: Seq<u8>,
    to: Seq<u8>,
    lastscan: int,
    lastpos: int,
    scan: int,
    pos: int,
    f: int,
    b: int,
) -> Seq<u8> {
    entry(
        differences(from, to, lastpos, lastscan, f),
        to.subrange(lastscan + f, scan - b),
        (pos - b) - (lastpos + f),
    )
}

/// The stream from a match of length `len` at (`scan`, `pos`) on, where the target is written up to
/// `lastscan`, the base cursor stands at `lastpos`, and `off` is the alignment of the latest entry.
pub open spec fn stream_from(
    from: Seq<u8>,
    to: Seq<u8>,
    scan: int,
    len: int,
    pos: int,
    lastscan: int,
    lastpos: int,
    off: int,
) -> Seq<u8>
    decreases to.len() - scan - len,
{
    let (scan2, len2, pos2, score) = next_match(
        from,
        to,
        off,
        scan + len,
        len,
        pos,
        0,
        scan + len,
    );
    let onward = scan + len < scan2 + len2 <= to.len() && scan2 < to.len();
    if len2 != score || scan2 == to.len() {
        let (f, b) = extents(from, to, lastscan, lastpos, scan2, pos2);
        stretch(from, to, lastscan, lastpos, scan2, pos2, f, b) + if onward {
            stream_from(from, to, scan2, len2, pos2, scan2 - b, pos2 - b, pos2 - scan2)
        } else {
            seq![]
        }
    } else if onward {
        stream_from(from, to, scan2, len2, pos2, lastscan, lastpos, off)
    } else {
        seq![]
    }
}

/// The stream that turns `from` into `to`. An empty target needs no entry.
pub open spec fn diff_stream(from: Seq<u8>, to: Seq<u8>) -> Seq<u8> {
    if to.len() == 0 {
        seq![]
    } else {
        stream_from(from, to, 0, 0, 0, 0, 0, 0)
    }
}

proof fn lemma_hits(from: Seq<u8>, to: Seq<u8>, off: int, a: int, b: int)
    ensures
        0 <= hits(from, to, off, a, b),
        a <= b ==> hits(from, to, off, a, b) <= b - a,
    decreases b - a,
{
    if a < b {
        lemma_hits(from, to, off, a, b - 1);
    }
}

proof fn lemma_hits_split(from: Seq<u8>, to: Seq<u8>, off: int, a: int, m: int, b: int)
    requires
        a <= m <= b,
    ensures
        hits(from, to, off, a, b) == hits(from, to, off, a, m) + hits(from, to, off, m, b),
    decreases b - m,
{
    if m < b {
        lemma_hits_split(from, to, off, a, m, b - 1);
    }
}

/// The invariant of the walk to the next match: the score counts the hits ahead.
spec fn score_ok(from: Seq<u8>, to: Seq<u8>, off: int, scan: int, score: int, counted: int) -> bool {
    &&& counted >= scan - 1
    &&& score == hits(from, to, off, scan, counted)
    &&& counted < scan ==> !hit(from, to, off, counted)
}

proof fn lemma_score_step(
    from: Seq<u8>,
    to: Seq<u8>,
    off: int,
    scan: int,
    score: int,
    counted: int,
)
    requires
        score_ok(from, to, off, scan, score, counted),
        0 <= scan < to.len(),
    ensures
        ({
            let (len2, pos2) = search::match_in(from, to.skip(scan));
            let score2 = score + hits(from, to, off, counted, scan + len2);
            let counted2 = if counted < scan + len2 {
                scan + len2
            } else {
                counted
            };
            let score3 = score2 - if hit(from, to, off, scan) {
                1int
            } else {
                0
            };
            &&& 0 <= len2 <= to.len() - scan
            &&& 0 <= pos2
            &&& pos2 + len2 <= from.len()
            &&& 0 <= score2 <= counted2 - scan
            &&& counted2 >= scan
            &&& score_ok(from, to, off, scan + 1, score3, counted2)
        }),
{
    let new = to.skip(scan);
    search::lemma_match_bounds(from, new);
    let (len2, pos2) = search::match_in(from, new);
    let counted2 = if counted < scan + len2 {
        scan + len2
    } else {
        counted
    };
    let score2 = score + hits(from, to, off, counted, scan + len2);
    if counted < scan {
        lemma_hits_split(from, to, off, counted, scan, scan + len2);
        assert(hits(from, to, off, counted, scan) == 0) by {
            assert(hits(from, to, off, counted, counted) == 0);
        }
    } else if counted < scan + len2 {
        lemma_hits_split(from, to, off, scan, counted, scan + len2);
    }
    assert(score2 == hits(from, to, off, scan, counted2));
    lemma_hits(from, to, off, scan, counted2);
    if hit(from, to, off, scan) {
        assert(new[0] == to[scan]);
        search::lemma_match_nonempty(from, new, scan + off);
    }
    if counted2 > scan {
        lemma_hits_split(from, to, off, scan, scan + 1, counted2);
        assert(hits(from, to, off, scan, scan) == 0);
    }
}

/// The walk ends at a match that is not empty, or at the end of the target.
proof fn lemma_next_match(
    from: Seq<u8>,
    to: Seq<u8>,
    off: int,
    scan: int,
    len: int,
    pos: int,
    score: int,
    counted: int,
)
    requires
        score_ok(from, to, off, scan, score, counted),
        0 <= scan <= to.len(),
        0 <= len,
        0 <= pos <= from.len(),
    ensures
        ({
            let (scan2, len2, pos2, score2) = next_match(
                from,
                to,
                off,
                scan,
                len,
                pos,
                score,
                counted,
            );
            &&& scan <= scan2 <= to.len()
            &&& 0 <= len2
            &&& 0 <= pos2 <= from.len()
            &&& scan2 < to.len() ==> 0 < len2 <= to.len() - scan2
        }),
    decreases to.len() - scan,
{
    if scan < to.len() {
        lemma_score_step(from, to, off, scan, score, counted);
        let (len2, pos2) = search::match_in(from, to.skip(scan));
        let score2 = score + hits(from, to, off, counted, scan + len2);
        let counted2 = if counted < scan + len2 {
            scan + len2
        } else {
            counted
        };
        let score3 = score2 - if hit(from, to, off, scan) {
            1int
        } else {
            0
        };
        if (len2 == score2 && len2 != 0) || len2 > score2 + 8 {
        } else {
            lemma_next_match(from, to, off, scan + 1, len2, pos2, score3, counted2);
        }
    }
}

/// The walk from a fresh start at `scan` ends at a match that is not empty, or at the end of the target.
pub proof fn lemma_walk(from: Seq<u8>, to: Seq<u8>, off: int, scan: int, len: int, pos: int)
    requires
        0 <= scan <= to.len(),
        0 <= len,
        0 <= pos <= from.len(),
    ensures
        ({
            let (scan2, len2, pos2, score2) = next_match(from, to, off, scan, len, pos, 0, scan);
            &&& scan <= scan2 <= to.len()
            &&& 0 <= len2
            &&& 0 <= pos2 <= from.len()
            &&& scan2 < to.len() ==> 0 < len2 <= to.len() - scan2
        }),
{
    lemma_next_match(from, to, off, scan, len, pos, 0, scan);
}

proof fn lemma_best_forward(from: Seq<u8>, to: Seq<u8>, off: int, start: int, m: int)
    ensures
        0 <= best_forward(from, to, off, start, m),
        m >= 0 ==> best_forward(from, to, off, start, m) <= m,
    decreases m,
{
    if m > 0 {
        lemma_best_forward(from, to, off, start, m - 1);
    }
}

proof fn lemma_best_backward(from: Seq<u8>, to: Seq<u8>, off: int, end: int, m: int)
    ensures
        0 <= best_backward(from, to, off, end, m),
        m >= 0 ==> best_backward(from, to, off, end, m) <= m,
    decreases m,
{
    if m > 0 {
        lemma_best_backward(from, to, off, end, m - 1);
    }
}

proof fn lemma_best_cut(from: Seq<u8>, to: Seq<u8>, off1: int, off2: int, start: int, m: int)
    ensures
        0 <= best_cut(from, to, off1, off2, start, m),
        m >= 0 ==> best_cut(from, to, off1, off2, start, m) <= m,
    decreases m,
{
    if m > 0 {
        lemma_best_cut(from, to, off1, off2, start, m - 1);
    }
}

/// The extensions stay within both strings and do not overlap.
pub proof fn lemma_extents(
    from: Seq<u8>,
    to: Seq<u8>,
    lastscan: int,
    lastpos: int,
    scan: int,
    pos: int,
)
    requires
        0 <= lastscan <= scan <= to.len(),
        0 <= lastpos <= from.len(),
        0 <= pos <= from.len(),
    ensures
        ({
            let (f, b) = extents(from, to, lastscan, lastpos, scan, pos);
            &&& 0 <= f
            &&& 0 <= b <= pos
            &&& lastscan + f <= scan - b
            &&& lastpos + f <= from.len()
            &&& scan == to.len() ==> b == 0
        }),
{
    let mf = search::min(scan - lastscan, from.len() - lastpos);
    let mb = search::min(scan - lastscan, pos);
    lemma_best_forward(from, to, lastpos - lastscan, lastscan, mf);
    lemma_best_backward(from, to, pos - scan, scan, mb);
    let f = best_forward(from, to, lastpos - lastscan, lastscan, mf);
    let b = if scan < to.len() {
        best_backward(from, to, pos - scan, scan, mb)
    } else {
        0
    };
    let overlap = (lastscan + f) - (scan - b);
    lemma_best_cut(from, to, lastpos - lastscan, pos - scan, scan - b, overlap);
}

fn is_hit(from: &[u8], to: &[u8], off: i128, j: usize) -> (yes: bool)
    requires
        j < to@.len(),
        0 <= j + off,
        off <= from@.len(),
    ensures
        yes == hit(from@, to@, off as int, j as int),
{
    let size: usize = from.len();
    let p: i128 = j as i128 + off;
    p < size as i128 && from[p as usize] == to[j]
}

/// Looks for the next match that pays, from `start` on.
fn find_match(
    sa: &Vec<usize>,
    from: &[u8],
    to: &[u8],
    off: i128,
    start: usize,
    len0: usize,
    pos0: usize,
) -> (found: (usize, usize, usize, i128))
    requires
        suffix::positions(sa@) == suffix::with_sentinel(from@),
        start <= to@.len(),
        pos0 <= from@.len(),
        0 <= start + off,
        off <= from@.len(),
    ensures
        (found.0 as int, found.1 as int, found.2 as int, found.3 as int) == next_match(
            from@,
            to@,
            off as int,
            start as int,
            len0 as int,
            pos0 as int,
            0,
            start as int,
        ),
        start <= found.0 <= to@.len(),
        found.2 <= from@.len(),
        found.0 < to@.len() ==> 0 < found.1 <= to@.len() - found.0,
{
    proof {
        lemma_next_match(
            from@,
            to@,
            off as int,
            start as int,
            len0 as int,
            pos0 as int,
            0,
            start as int,
        );
        search::lemma_sentinel_bounds(from@);
        assert forall|x: int| 0 <= x < sa@.len() implies #[trigger] sa@[x] <= from@.len() by {
            assert(suffix::positions(sa@)[x] == sa@[x]);
        }
    }
    let size: usize = to.len();
    let old_size: usize = from.len();
    let mut scan: usize = start;
    let mut len: usize = len0;
    let mut pos: usize = pos0;
    let mut score: i128 = 0;
    let mut counted: usize = scan;
    while scan < size
        invariant
            size == to@.len(),
            old_size == from@.len(),
            suffix::positions(sa@) == suffix::with_sentinel(from@),
            sa@.len() == old_size + 1,
            forall|x: int| 0 <= x < sa@.len() ==> #[trigger] sa@[x] <= from@.len(),
            start <= scan <= size,
            scan <= counted + 1,
            counted <= size,
            start <= counted,
            0 <= start + off,
            off <= from@.len(),
            score_ok(from@, to@, off as int, scan as int, score as int, counted as int),
            next_match(
                from@,
                to@,
                off as int,
                start as int,
                len0 as int,
                pos0 as int,
                0,
                start as int,
            ) == next_match(
                from@,
                to@,
                off as int,
                scan as int,
                len as int,
                pos as int,
                score as int,
                counted as int,
            ),
        decreases size - scan,
    {
        let new: &[u8] = vstd::slice::slice_subrange(to, scan, size);
        assert(new@ =~= to@.skip(scan as int));
        let found: (usize, usize) = search(sa, from, new, 0, old_size);
        len = found.0;
        pos = found.1;
        proof {
            lemma_score_step(
                from@,
                to@,
                off as int,
                scan as int,
                score as int,
                counted as int,
            );
            lemma_hits(from@, to@, off as int, scan as int, counted as int);
            lemma_hits(from@, to@, off as int, counted as int, scan + len);
        }
        let ghost score0 = score as int;
        let ghost counted0 = counted as int;
        while counted < scan + len
            invariant
                size == to@.len(),
                scan + len <= size,
                counted0 <= counted,
                counted <= scan + len || counted == counted0,
                start <= counted0,
                0 <= start + off,
                off <= from@.len(),
                0 <= score0 <= size,
                score == score0 + hits(from@, to@, off as int, counted0, counted as int),
            decreases scan + len - counted,
        {
            proof {
                lemma_hits(from@, to@, off as int, counted0, counted as int);
            }
            if is_hit(from, to, off, counted) {
                score = score + 1;
            }
            counted = counted + 1;
        }
        assert(hits(from@, to@, off as int, counted0, counted as int) == hits(
            from@,
            to@,
            off as int,
            counted0,
            scan + len,
        ));
        if (len as i128 == score && len != 0) || len as i128 - 8 > score {
            return (scan, len, pos, score);
        }
        if is_hit(from, to, off, scan) {
            score = score - 1;
        }
        scan = scan + 1;
    }
    (scan, len, pos, score)
}

/// How far the match at (`lastscan`, `lastpos`) is worth keeping, up to `scan`.
fn extend_forward(from: &[u8], to: &[u8], lastscan: usize, lastpos: usize, scan: usize) -> (lenf:
    usize)
    requires
        lastscan <= scan <= to@.len(),
        lastpos <= from@.len(),
    ensures
        lenf == best_forward(
            from@,
            to@,
            lastpos - lastscan,
            lastscan as int,
            search::min(scan - lastscan, from@.len() - lastpos),
        ),
        lenf <= scan - lastscan,
        lenf <= from@.len() - lastpos,
{
    let ghost off = lastpos - lastscan;
    let size: usize = from.len();
    let mut i: usize = 0;
    let mut s: i128 = 0;
    let mut sf: i128 = 0;
    let mut lenf: usize = 0;
    while i < scan - lastscan && i < size - lastpos
        invariant
            size == from@.len(),
            lastscan <= scan <= to@.len(),
            lastpos <= size,
            off == lastpos - lastscan,
            i <= scan - lastscan,
            i <= size - lastpos,
            lenf <= i,
            s == hits(from@, to@, off, lastscan as int, lastscan + i),
            sf == hits(from@, to@, off, lastscan as int, lastscan + lenf),
            lenf == best_forward(from@, to@, off, lastscan as int, i as int),
        decreases scan - lastscan - i,
    {
        proof {
            lemma_hits(from@, to@, off, lastscan as int, lastscan + i);
            lemma_hits(from@, to@, off, lastscan as int, lastscan + lenf);
        }
        if from[lastpos + i] == to[lastscan + i] {
            s = s + 1;
        }
        i = i + 1;
        assert(s == hits(from@, to@, off, lastscan as int, lastscan + i));
        if s * 2 - i as i128 > sf * 2 - lenf as i128 {
            sf = s;
            lenf = i;
        }
    }
    lenf
}

/// How far the match at (`scan`, `pos`) is worth extending back, down to `lastscan`.
fn extend_backward(from: &[u8], to: &[u8], lastscan: usize, scan: usize, pos: usize) -> (lenb:
    usize)
    requires
        lastscan <= scan <= to@.len(),
        pos <= from@.len(),
    ensures
        lenb == best_backward(
            from@,
            to@,
            pos - scan,
            scan as int,
            search::min(scan - lastscan, pos as int),
        ),
        lenb <= scan - lastscan,
        lenb <= pos,
{
    let ghost off = pos - scan;
    let mut i: usize = 0;
    let mut s: i128 = 0;
    let mut sb: i128 = 0;
    let mut lenb: usize = 0;
    while i < scan - lastscan && i < pos
        invariant
            lastscan <= scan <= to@.len(),
            pos <= from@.len(),
            off == pos - scan,
            i <= scan - lastscan,
            i <= pos,
            lenb <= i,
            s == hits(from@, to@, off, scan - i, scan as int),
            sb == hits(from@, to@, off, scan - lenb, scan as int),
            lenb == best_backward(from@, to@, off, scan as int, i as int),
        decreases scan - lastscan - i,
    {
        proof {
            lemma_hits(from@, to@, off, scan - i, scan as int);
            lemma_hits(from@, to@, off, scan - lenb, scan as int);
            lemma_hits_split(from@, to@, off, scan - i - 1, scan - i, scan as int);
            assert(hits(from@, to@, off, scan - i - 1, scan - i - 1) == 0);
        }
        i = i + 1;
        if from[pos - i] == to[scan - i] {
            s = s + 1;
        }
        assert(s == hits(from@, to@, off, scan - i, scan as int));
        if s * 2 - i as i128 > sb * 2 - lenb as i128 {
            sb = s;
            lenb = i;
        }
    }
    lenb
}

/// Where to cut the `overlap` bytes from `start` on, which lie at `p1` and at `p2` in the base.
fn cut_overlap(from: &[u8], to: &[u8], p1: usize, p2: usize, start: usize, overlap: usize) -> (lens:
    usize)
    requires
        start + overlap <= to@.len(),
        p1 + overlap <= from@.len(),
        p2 + overlap <= from@.len(),
    ensures
        lens == best_cut(from@, to@, p1 - start, p2 - start, start as int, overlap as int),
        lens <= overlap,
{
    let ghost off1 = p1 - start;
    let ghost off2 = p2 - start;
    let from_size: usize = from.len();
    let to_size: usize = to.len();
    let mut i: usize = 0;
    let mut s: i128 = 0;
    let mut ss: i128 = 0;
    let mut lens: usize = 0;
    while i < overlap
        invariant
            from_size == from@.len(),
            to_size == to@.len(),
            start + overlap <= to@.len(),
            p1 + overlap <= from@.len(),
            p2 + overlap <= from@.len(),
            off1 == p1 - start,
            off2 == p2 - start,
            lens <= i <= overlap,
            s == hits(from@, to@, off1, start as int, start + i) - hits(
                from@,
                to@,
                off2,
                start as int,
                start + i,
            ),
            ss == hits(from@, to@, off1, start as int, start + lens) - hits(
                from@,
                to@,
                off2,
                start as int,
                start + lens,
            ),
            lens == best_cut(from@, to@, off1, off2, start as int, i as int),
        decreases overlap - i,
    {
        proof {
            lemma_hits(from@, to@, off1, start as int, start + i);
            lemma_hits(from@, to@, off2, start as int, start + i);
        }
        if to[start + i] == from[p1 + i] {
            s = s + 1;
        }
        if to[start + i] == from[p2 + i] {
            s = s - 1;
        }
        i = i + 1;
        if s > ss {
            ss = s;
            lens = i;
        }
    }
    lens
}

/// How far the two matches that bound a stretch extend into it.
fn find_extents(
    from: &[u8],
    to: &[u8],
    lastscan: usize,
    lastpos: usize,
    scan: usize,
    pos: usize,
) -> (ext: (usize, usize))
    requires
        lastscan <= scan <= to@.len(),
        lastpos <= from@.len(),
        pos <= from@.len(),
    ensures
        (ext.0 as int, ext.1 as int) == extents(
            from@,
            to@,
            lastscan as int,
            lastpos as int,
            scan as int,
            pos as int,
        ),
        ext.1 <= pos,
        lastscan + ext.0 <= scan - ext.1,
        lastpos + ext.0 <= from@.len(),
        scan == to@.len() ==> ext.1 == 0,
{
    let from_size: usize = from.len();
    let mut lenf: usize = extend_forward(from, to, lastscan, lastpos, scan);
    let mut lenb: usize = if scan < to.len() {
        extend_backward(from, to, lastscan, scan, pos)
    } else {
        0
    };
    proof {
        lemma_extents(from@, to@, lastscan as int, lastpos as int, scan as int, pos as int);
    }
    if lastscan + lenf > scan - lenb {
        let overlap: usize = (lastscan + lenf) - (scan - lenb);
        let lens: usize = cut_overlap(
            from,
            to,
            lastpos + lenf - overlap,
            pos - lenb,
            scan - lenb,
            overlap,
        );
        lenf = lenf - (overlap - lens);
        lenb = lenb - lens;
    }
    (lenf, lenb)
}

/// Appends the entry for one stretch.
fn push_stretch(
    body: &mut Vec<u8>,
    from: &[u8],
    to: &[u8],
    lastscan: usize,
    lastpos: usize,
    scan: usize,
    pos: usize,
    f: usize,
    b: usize,
)
    requires
        lastscan + f <= scan - b,
        scan <= to@.len(),
        lastpos + f <= from@.len(),
        b <= pos <= from@.len(),
    ensures
        final(body)@ == old(body)@ + stretch(
            from@,
            to@,
            lastscan as int,
            lastpos as int,
            scan as int,
            pos as int,
            f as int,
            b as int,
        ),
{
    let from_size: usize = from.len();
    let to_size: usize = to.len();
    let mut diff: Vec<u8> = Vec::new();
    let mut i: usize = 0;
    while i < f
        invariant
            i <= f,
            lastscan + f <= to@.len(),
            lastpos + f <= from@.len(),
            to_size == to@.len(),
            from_size == from@.len(),
            diff@ == differences(from@, to@, lastpos as int, lastscan as int, i as int),
        decreases f - i,
    {
        let d: u8 = to[lastscan + i].wrapping_sub(from[lastpos + i]);
        assert(d == byte_sub(to@[lastscan + i], from@[lastpos + i]));
        diff.push(d);
        i = i + 1;
        assert(diff@ =~= differences(from@, to@, lastpos as int, lastscan as int, i as int));
    }
    let extra: &[u8] = vstd::slice::slice_subrange(to, lastscan + f, scan - b);
    let diff_size = pack_difference(f as u64, 0);
    let extra_size = pack_difference((scan - b - lastscan - f) as u64, 0);
    let seek_size = pack_difference((pos - b) as u64, (lastpos + f) as u64);
    body.extend_from_slice(diff_size.as_slice());
    body.extend_from_slice(diff.as_slice());
    body.extend_from_slice(extra_size.as_slice());
    body.extend_from_slice(extra);
    body.extend_from_slice(seek_size.as_slice());
    assert(body@ =~= old(body)@ + entry(diff@, extra@, (pos - b) - (lastpos + f)));
}

/// Appends the stream that turns `from` into `to`: its entries, applied to `from`, give `to`.
pub fn bsdiff(from: &[u8], to: &[u8], body: &mut Vec<u8>)
    ensures
        final(body)@ == old(body)@ + diff_stream(from@, to@),
        decode::apply_entries(
            from@,
            final(body)@.skip(old(body)@.len() as int),
            0,
            seq![],
            to@.len() as int,
        ) == Some(to@),
{
    proof {
        decode::stream_round_trip(from@, to@);
        assert((body@ + diff_stream(from@, to@)).skip(body@.len() as int) =~= diff_stream(from@, to@));
    }
    let sa = suffix_array_with_sentinel(from);
    let size: usize = to.len();
    if size == 0 {
        assert(body@ + diff_stream(from@, to@) =~= body@);
        return;
    }
    let mut scan: usize = 0;
    let mut len: usize = 0;
    let mut pos: usize = 0;
    let mut lastscan: usize = 0;
    let mut lastpos: usize = 0;
    let mut lastoffset: i128 = 0;
    let ghost before = body@;
    let ghost whole = diff_stream(from@, to@);
    assert(body@ + stream_from(from@, to@, 0, 0, 0, 0, 0, 0) =~= before + whole);
    while scan < size
        invariant
            size == to@.len(),
            suffix::positions(sa@) == suffix::with_sentinel(from@),
            lastscan <= scan <= size,
            scan < size ==> scan + len <= size,
            pos <= from@.len(),
            lastpos <= from@.len(),
            0 <= scan + lastoffset,
            lastoffset <= from@.len(),
            scan < size ==> before + whole == body@ + stream_from(
                from@,
                to@,
                scan as int,
                len as int,
                pos as int,
                lastscan as int,
                lastpos as int,
                lastoffset as int,
            ),
            scan == size ==> before + whole == body@,
        decreases
                if scan < size {
                    size - scan - len + 1
                } else {
                    0
                },
    {
        let ghost at = body@;
        let found: (usize, usize, usize, i128) = find_match(
            &sa,
            from,
            to,
            lastoffset,
            scan + len,
            len,
            pos,
        );
        scan = found.0;
        len = found.1;
        pos = found.2;
        let score: i128 = found.3;
        if len as i128 != score || scan == size {
            let (lenf, lenb): (usize, usize) = find_extents(
                from,
                to,
                lastscan,
                lastpos,
                scan,
                pos,
            );
            push_stretch(body, from, to, lastscan, lastpos, scan, pos, lenf, lenb);
            lastscan = scan - lenb;
            lastpos = pos - lenb;
            lastoffset = pos as i128 - scan as i128;
            if scan < size {
                assert(before + whole =~= body@ + stream_from(
                    from@,
                    to@,
                    scan as int,
                    len as int,
                    pos as int,
                    lastscan as int,
                    lastpos as int,
                    lastoffset as int,
                ));
            } else {
                assert(before + whole =~= body@);
            }
        }
    }
}

} // verus!
