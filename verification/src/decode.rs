//! The decoder that a sequential patch is written for.
//!
//! A patch starts with a byte that names its layout and compression, and the size of the target. What
//! follows is compressed: a marker for the data format, then entries of differences to the base, literal
//! bytes, and a move of the base cursor, until the target is complete.

use vstd::prelude::*;

use crate::encode;
use crate::encode::bsdiff;
use crate::encode::crle;
use crate::encode::varint;

verus! {

/// The sum of two bytes, modulo 256.
pub open spec fn byte_add(a: u8, b: u8) -> u8 {
    ((a + b) % 256) as u8
}

/// The bytes of `from` from `cursor` on, with the differences added.
pub open spec fn added(from: Seq<u8>, cursor: int, diff: Seq<u8>) -> Seq<u8> {
    Seq::new(diff.len(), |i: int| byte_add(from[cursor + i], diff[i]))
}

/// Reads a size and as many bytes as it says: those bytes, and how many there were in all.
pub open spec fn read_block(s: Seq<u8>) -> Option<(Seq<u8>, nat)> {
    match varint::read_size(s) {
        Some((n, k)) => if 0 <= n && k + n <= s.len() {
            Some((s.subrange(k as int, k + n), (k + n) as nat))
        } else {
            None
        },
        None => None,
    }
}

/// Reads one entry: its differences, its literal bytes, the cursor move, and its length.
pub open spec fn read_entry(s: Seq<u8>) -> Option<(Seq<u8>, Seq<u8>, int, nat)> {
    match read_block(s) {
        Some((diff, k1)) => match read_block(s.skip(k1 as int)) {
            Some((extra, k2)) => match varint::read_size(s.skip((k1 + k2) as int)) {
                Some((seek, k3)) => Some((diff, extra, seek, k1 + k2 + k3)),
                None => None,
            },
            None => None,
        },
        None => None,
    }
}

/// Applies the entries in `s`, where `out` is written already and the base cursor stands at `cursor`. The
/// target must come out `size` bytes long exactly where the entries end.
pub open spec fn apply_entries(
    from: Seq<u8>,
    s: Seq<u8>,
    cursor: int,
    out: Seq<u8>,
    size: int,
) -> Option<Seq<u8>>
    decreases s.len(),
{
    if out.len() == size {
        if s.len() == 0 {
            Some(out)
        } else {
            None
        }
    } else {
        match read_entry(s) {
            Some((diff, extra, seek, used)) => {
                proof {
                    lemma_read_entry_len(s);
                }
                let next = cursor + diff.len() + seek;
                if cursor + diff.len() <= from.len() && 0 <= next <= from.len() && out.len()
                    + diff.len() + extra.len() <= size {
                    apply_entries(
                        from,
                        s.skip(used as int),
                        next,
                        out + added(from, cursor, diff) + extra,
                        size,
                    )
                } else {
                    None
                }
            },
            None => None,
        }
    }
}

/// Applies what a patch holds after its header: the data format must be `none`.
pub open spec fn apply_body(from: Seq<u8>, body: Seq<u8>, size: int) -> Option<Seq<u8>> {
    match varint::read_size(body) {
        Some((format, k)) => if format == 0 {
            apply_entries(from, body.skip(k as int), 0, seq![], size)
        } else {
            None
        },
        None => None,
    }
}

/// The target that `patch` makes of `from`, or `None` if it is not a sequential patch for `from`.
pub open spec fn patched(from: Seq<u8>, patch: Seq<u8>) -> Option<Seq<u8>> {
    if patch.len() == 0 || patch[0] != encode::SEQUENTIAL_CRLE {
        None
    } else {
        match varint::read_size(patch.skip(1)) {
            Some((size, k)) => match crle::expanded(patch.skip(1 + k as int)) {
                Some(body) => apply_body(from, body, size),
                None => None,
            },
            None => None,
        }
    }
}

/// How many bytes the compressed part of `patch` stands for.
pub open spec fn body_len(patch: Seq<u8>) -> int {
    match varint::read_size(patch.skip(1)) {
        Some((size, k)) => match crle::expanded(patch.skip(1 + k as int)) {
            Some(body) => body.len() as int,
            None => 0,
        },
        None => 0,
    }
}

/// A target is no longer than what was written and the entries that are left.
proof fn lemma_target_len(from: Seq<u8>, s: Seq<u8>, cursor: int, out: Seq<u8>, size: int)
    ensures
        apply_entries(from, s, cursor, out, size) is Some ==> 0 <= size <= out.len() + s.len(),
    decreases s.len(),
{
    if out.len() != size {
        if let Some((diff, extra, seek, used)) = read_entry(s) {
            lemma_read_entry_len(s);
            let next = cursor + diff.len() + seek;
            if cursor + diff.len() <= from.len() && 0 <= next <= from.len() && out.len()
                + diff.len() + extra.len() <= size {
                lemma_target_len(
                    from,
                    s.skip(used as int),
                    next,
                    out + added(from, cursor, diff) + extra,
                    size,
                );
            }
        }
    }
}

/// A target is no longer than what the compressed part of its patch stands for.
proof fn lemma_patched_len(from: Seq<u8>, patch: Seq<u8>)
    ensures
        patched(from, patch) is Some ==> (varint::read_size(patch.skip(1)) matches Some((size, k)) && 0
            <= size <= body_len(patch)),
{
    if let Some((size, k)) = varint::read_size(patch.skip(1)) {
        if let Some(body) = crle::expanded(patch.skip(1 + k as int)) {
            if let Some((format, n)) = varint::read_size(body) {
                varint::lemma_read_size_len(body);
                lemma_target_len(from, body.skip(n as int), 0, seq![], size);
            }
        }
    }
}

/// A block that was read took at least one byte, and no more than there are.
pub proof fn lemma_read_block_len(s: Seq<u8>)
    ensures
        read_block(s) matches Some((b, k)) ==> 1 <= k <= s.len() && b.len() < k,
{
    varint::lemma_read_size_len(s);
}

/// An entry that was read took at least three bytes, and no more than there are.
pub proof fn lemma_read_entry_len(s: Seq<u8>)
    ensures
        read_entry(s) matches Some((d, e, seek, k)) ==> 3 <= k <= s.len() && d.len() + e.len() < k,
{
    lemma_read_block_len(s);
    if let Some((diff, k1)) = read_block(s) {
        lemma_read_block_len(s.skip(k1 as int));
        if let Some((extra, k2)) = read_block(s.skip(k1 as int)) {
            varint::lemma_read_size_len(s.skip((k1 + k2) as int));
        }
    }
}

proof fn lemma_read_block(b: Seq<u8>, rest: Seq<u8>)
    ensures
        ({
            let head = varint::size_bytes(b.len() as int) + b;
            read_block(head + rest) == Some((b, head.len()))
        }),
{
    let size = varint::size_bytes(b.len() as int);
    let s = size + b + rest;
    assert(s =~= size + (b + rest));
    varint::lemma_read_size(b.len() as int, b + rest);
    assert(s.subrange(size.len() as int, (size.len() + b.len()) as int) =~= b);
}

proof fn lemma_read_entry(diff: Seq<u8>, extra: Seq<u8>, seek: int, rest: Seq<u8>)
    ensures
        read_entry(bsdiff::entry(diff, extra, seek) + rest) == Some(
            (diff, extra, seek, bsdiff::entry(diff, extra, seek).len()),
        ),
{
    let e = bsdiff::entry(diff, extra, seek);
    let s = e + rest;
    let d = varint::size_bytes(diff.len() as int) + diff;
    let x = varint::size_bytes(extra.len() as int) + extra;
    let k = varint::size_bytes(seek);
    assert(s =~= d + (x + (k + rest)));
    lemma_read_block(diff, x + (k + rest));
    assert(s.skip(d.len() as int) =~= x + (k + rest));
    lemma_read_block(extra, k + rest);
    assert(s.skip((d.len() + x.len()) as int) =~= k + rest);
    varint::lemma_read_size(seek, rest);
}

pub proof fn lemma_added(from: Seq<u8>, to: Seq<u8>, p: int, t: int, n: int)
    requires
        0 <= n,
        0 <= p,
        0 <= t,
        p + n <= from.len(),
        t + n <= to.len(),
    ensures
        added(from, p, bsdiff::differences(from, to, p, t, n)) == to.subrange(t, t + n),
{
    let diff = bsdiff::differences(from, to, p, t, n);
    assert forall|i: int| 0 <= i < n implies #[trigger] added(from, p, diff)[i] == to.subrange(
        t,
        t + n,
    )[i] by {
        let a = to[t + i];
        let b = from[p + i];
        assert(diff[i] == bsdiff::byte_sub(a, b));
        assert(byte_add(b, bsdiff::byte_sub(a, b)) == a);
    }
    assert(added(from, p, diff) =~= to.subrange(t, t + n));
}

/// Applying a stream is applying its first entry, then the rest.
pub proof fn lemma_apply_first(
    from: Seq<u8>,
    diff: Seq<u8>,
    extra: Seq<u8>,
    seek: int,
    rest: Seq<u8>,
    cursor: int,
    out: Seq<u8>,
    size: int,
)
    requires
        cursor + diff.len() <= from.len(),
        0 <= cursor + diff.len() + seek <= from.len(),
        out.len() < size,
        out.len() + diff.len() + extra.len() <= size,
    ensures
        apply_entries(from, bsdiff::entry(diff, extra, seek) + rest, cursor, out, size)
            == apply_entries(
            from,
            rest,
            cursor + diff.len() + seek,
            out + added(from, cursor, diff) + extra,
            size,
        ),
{
    let e = bsdiff::entry(diff, extra, seek);
    lemma_read_entry(diff, extra, seek, rest);
    assert((e + rest).skip(e.len() as int) =~= rest);
}

/// The stretch that an entry covers.
proof fn lemma_apply_stretch(
    from: Seq<u8>,
    to: Seq<u8>,
    lastscan: int,
    lastpos: int,
    scan: int,
    pos: int,
    f: int,
    b: int,
    rest: Seq<u8>,
)
    requires
        0 <= lastscan < to.len(),
        0 <= lastpos,
        0 <= f,
        0 <= b <= pos <= from.len(),
        lastscan + f <= scan - b,
        scan <= to.len(),
        lastpos + f <= from.len(),
    ensures
        apply_entries(
            from,
            bsdiff::stretch(from, to, lastscan, lastpos, scan, pos, f, b) + rest,
            lastpos,
            to.take(lastscan),
            to.len() as int,
        ) == apply_entries(from, rest, pos - b, to.take(scan - b), to.len() as int),
{
    let diff = bsdiff::differences(from, to, lastpos, lastscan, f);
    let extra = to.subrange(lastscan + f, scan - b);
    let seek = (pos - b) - (lastpos + f);
    lemma_apply_first(
        from,
        diff,
        extra,
        seek,
        rest,
        lastpos,
        to.take(lastscan),
        to.len() as int,
    );
    lemma_added(from, to, lastpos, lastscan, f);
    assert(to.take(lastscan) + added(from, lastpos, diff) + extra =~= to.take(scan - b));
}

/// Applying the rest of a stream completes the target.
proof fn lemma_stream(
    from: Seq<u8>,
    to: Seq<u8>,
    scan: int,
    len: int,
    pos: int,
    lastscan: int,
    lastpos: int,
    off: int,
)
    requires
        0 <= lastscan <= scan < to.len(),
        0 <= len,
        scan + len <= to.len(),
        0 <= pos <= from.len(),
        0 <= lastpos <= from.len(),
    ensures
        apply_entries(
            from,
            bsdiff::stream_from(from, to, scan, len, pos, lastscan, lastpos, off),
            lastpos,
            to.take(lastscan),
            to.len() as int,
        ) == Some(to),
    decreases to.len() - scan - len,
{
    let size = to.len() as int;
    let s = bsdiff::stream_from(from, to, scan, len, pos, lastscan, lastpos, off);
    let (scan2, len2, pos2, score) = bsdiff::next_match(
        from,
        to,
        off,
        scan + len,
        len,
        pos,
        0,
        scan + len,
    );
    bsdiff::lemma_walk(from, to, off, scan + len, len, pos);
    let onward = scan2 < to.len();
    if len2 != score || scan2 == to.len() {
        let (f, b) = bsdiff::extents(from, to, lastscan, lastpos, scan2, pos2);
        bsdiff::lemma_extents(from, to, lastscan, lastpos, scan2, pos2);
        let rest = if onward {
            bsdiff::stream_from(from, to, scan2, len2, pos2, scan2 - b, pos2 - b, pos2 - scan2)
        } else {
            seq![]
        };
        assert(s == bsdiff::stretch(from, to, lastscan, lastpos, scan2, pos2, f, b) + rest);
        lemma_apply_stretch(from, to, lastscan, lastpos, scan2, pos2, f, b, rest);
        if onward {
            lemma_stream(from, to, scan2, len2, pos2, scan2 - b, pos2 - b, pos2 - scan2);
        } else {
            assert(to.take(scan2 - b) =~= to);
        }
    } else {
        lemma_stream(from, to, scan2, len2, pos2, lastscan, lastpos, off);
    }
}

/// The entries of a stream, read one after the other and applied to the base it was made for, give the
/// target, byte for byte, and end where it is complete. Every byte that is read of the base lies within it.
pub proof fn stream_round_trip(from: Seq<u8>, to: Seq<u8>)
    ensures
        apply_entries(from, bsdiff::diff_stream(from, to), 0, seq![], to.len() as int) == Some(to),
{
    let none: Seq<u8> = seq![];
    if to.len() == 0 {
        assert(to =~= none);
    } else {
        lemma_stream(from, to, 0, 0, 0, 0, 0, 0);
        assert(to.take(0) =~= none);
    }
}

/// The central promise of the encoder: decoding a patch against the base it was made for gives back the
/// target, byte for byte.
pub proof fn sequential_round_trip(from: Seq<u8>, to: Seq<u8>)
    ensures
        patched(from, encode::sequential_patch(from, to)) == Some(to),
{
    let size = varint::size_bytes(to.len() as int);
    let body = encode::sequential_body(from, to);
    let patch = encode::sequential_patch(from, to);
    crle::crle_round_trip(body);
    assert(patch.skip(1) =~= size + crle::compressed(body));
    varint::lemma_read_size(to.len() as int, crle::compressed(body));
    assert(patch.skip(1 + size.len() as int) =~= crle::compressed(body));
    let stream = bsdiff::diff_stream(from, to);
    varint::lemma_read_size(0, stream);
    assert(body.skip(varint::size_bytes(0).len() as int) =~= stream);
    stream_round_trip(from, to);
}

proof fn lemma_digit(acc: int, w: int, d: int, hi: int)
    ensures
        acc + w * (d + 128 * hi) == (acc + d * w) + (w * 128) * hi,
{
    assert(acc + w * (d + 128 * hi) == (acc + d * w) + (w * 128) * hi) by (nonlinear_arith);
}

/// Reads one unsigned number at `at`: its value and how many bytes it takes. `None` if the bytes end
/// first or the value does not fit.
fn take_uvarint(s: &[u8], at: usize) -> (r: Option<(u64, usize)>)
    requires
        at <= s@.len(),
    ensures
        match r {
            Some((v, n)) => {
                &&& varint::read_uvarint(s@.skip(at as int)) == Some((v as nat, n as nat))
                &&& 1 <= n <= s@.len() - at
            },
            None => varint::read_uvarint(s@.skip(at as int)) matches Some((v, n)) ==> v > u64::MAX,
        },
{
    let ghost rest = s@.skip(at as int);
    let size: usize = s.len();
    let mut i: usize = 0;
    let mut acc: u64 = 0;
    let mut weight: u64 = 1;
    let mut big: bool = false;
    let ghost mut w: nat = 1;
    assert(rest.skip(0) =~= rest);
    while i < size - at
        invariant
            size == s@.len(),
            at <= size,
            i <= size - at,
            rest == s@.skip(at as int),
            big ==> w > u64::MAX,
            !big ==> weight == w,
            w >= 1,
            match varint::read_uvarint(rest.skip(i as int)) {
                Some((v, n)) => varint::read_uvarint(rest) == Some(
                    ((acc + w * v) as nat, (n + i) as nat),
                ),
                None => varint::read_uvarint(rest) is None,
            },
        decreases size - at - i,
    {
        let b: u8 = s[at + i];
        let tail = Ghost(rest.skip(i as int));
        assert(tail@[0] == b);
        assert(tail@.skip(1) =~= rest.skip(i + 1));
        let d: u64 = (b % 128) as u64;
        proof {
            varint::lemma_read_uvarint_len(tail@);
            if let Some((v, n)) = varint::read_uvarint(tail@) {
                let hi: int = match varint::read_uvarint(tail@.skip(1)) {
                    Some((above, m)) => if b < 128 { 0 } else { above as int },
                    None => 0,
                };
                assert(v == d + 128 * hi);
                lemma_digit(acc as int, w as int, d as int, hi);
                assert(0 <= (w * 128) * hi) by (nonlinear_arith)
                    requires
                        w >= 1,
                        hi >= 0,
                ;
                assert(d >= 1 ==> d * w >= w) by (nonlinear_arith)
                    requires
                        w >= 1,
                ;
                assert(w * v == v * w) by (nonlinear_arith);
            }
        }
        if big {
            if d != 0 {
                return None;
            }
        } else {
            match d.checked_mul(weight) {
                Some(m) => match acc.checked_add(m) {
                    Some(sum) => {
                        acc = sum;
                    },
                    None => {
                        return None;
                    },
                },
                None => {
                    return None;
                },
            }
        }
        assert(d == 0 ==> d * w == 0) by (nonlinear_arith);
        if b < 128 {
            assert(varint::read_uvarint(tail@) == Some((d as nat, 1nat)));
            return Some((acc, i + 1));
        }
        match weight.checked_mul(128) {
            Some(next) => {
                weight = next;
            },
            None => {
                big = true;
            },
        }
        proof {
            w = w * 128;
        }
        i = i + 1;
    }
    None
}

/// A size that no length or distance in memory reaches.
spec fn out_of_reach(v: int) -> bool {
    v < -(u64::MAX as int) || v > u64::MAX as int
}

/// Reads one signed size at `at`: its value and how many bytes it takes. `None` if the bytes end first or
/// the value is out of all proportion.
fn take_size(s: &[u8], at: usize) -> (r: Option<(i128, usize)>)
    requires
        at <= s@.len(),
    ensures
        match r {
            Some((v, n)) => {
                &&& varint::read_size(s@.skip(at as int)) == Some((v as int, n as nat))
                &&& 1 <= n <= s@.len() - at
            },
            None => varint::read_size(s@.skip(at as int)) matches Some((v, n)) ==> out_of_reach(v),
        },
{
    if at >= s.len() {
        return None;
    }
    let b: u8 = s[at];
    assert(s@.skip(at as int)[0] == b);
    assert(s@.skip(at as int).skip(1) =~= s@.skip(at + 1));
    let low: i128 = (b % 64) as i128;
    let negative: bool = (b / 64) % 2 == 1;
    if b < 128 {
        return Some((if negative { -low } else { low }, 1));
    }
    match take_uvarint(s, at + 1) {
        Some((hi, n)) => {
            let m: i128 = low + 64 * (hi as i128);
            Some((if negative { -m } else { m }, n + 1))
        },
        None => None,
    }
}

/// Expands a compressed stream of at most `limit` bytes. `None` if it is malformed or longer.
fn crle_expand(data: &[u8], limit: usize) -> (r: Option<Vec<u8>>)
    ensures
        match r {
            Some(out) => crle::expanded(data@) == Some(out@) && out@.len() <= limit,
            None => crle::expanded(data@) matches Some(d) ==> d.len() > limit,
        },
{
    let size: usize = data.len();
    let mut out: Vec<u8> = Vec::new();
    let mut at: usize = 0;
    assert(data@.skip(0) =~= data@);
    while at < size
        invariant
            size == data@.len(),
            at <= size,
            out@.len() <= limit,
            match crle::expanded(data@.skip(at as int)) {
                Some(rest) => crle::expanded(data@) == Some(out@ + rest),
                None => crle::expanded(data@) is None,
            },
        decreases size - at,
    {
        let ghost s = data@.skip(at as int);
        let ghost before = out@;
        let kind: u8 = data[at];
        assert(s[0] == kind);
        assert(s.skip(1) =~= data@.skip(at + 1));
        match take_uvarint(data, at + 1) {
            None => {
                return None;
            },
            Some((n, k)) => {
                let start: usize = at + 1 + k;
                assert(s.skip(1 + k) =~= data@.skip(start as int));
                if kind == crle::CRLE_SCATTERED && n <= (size - start) as u64 {
                    let end: usize = start + n as usize;
                    assert(s.skip(1 + k).skip(n as int) =~= data@.skip(end as int));
                    assert(s.skip(1 + k).take(n as int) =~= data@.subrange(
                        start as int,
                        end as int,
                    ));
                    if n > (limit - out.len()) as u64 {
                        return None;
                    }
                    out.extend_from_slice(vstd::slice::slice_subrange(data, start, end));
                    assert(out@ =~= before + data@.subrange(start as int, end as int));
                    at = end;
                } else if kind == crle::CRLE_REPEATED && start < size {
                    if n > (limit - out.len()) as u64 {
                        return None;
                    }
                    let b: u8 = data[start];
                    assert(s.skip(1 + k)[0] == b);
                    assert(s.skip(1 + k).skip(1) =~= data@.skip(start + 1));
                    let len: usize = out.len() + n as usize;
                    out.resize(len, b);
                    assert(out@ =~= before + Seq::new(n as nat, |i: int| s.skip(1 + k)[0]));
                    at = start + 1;
                } else {
                    return None;
                }
                assert(crle::expanded(data@.skip(at as int)) matches Some(rest) ==> before + (
                out@.skip(before.len() as int) + rest) =~= out@ + rest);
            },
        }
    }
    assert(crle::expanded(data@.skip(size as int)) == Some(Seq::<u8>::empty()));
    assert(out@ + Seq::<u8>::empty() =~= out@);
    Some(out)
}

/// Expands a compressed stream that stands for exactly `size` bytes. `None` if it does not.
pub fn crle_decompress(data: &[u8], size: usize) -> (r: Option<Vec<u8>>)
    ensures
        match r {
            Some(out) => crle::expanded(data@) == Some(out@) && out@.len() == size,
            None => crle::expanded(data@) matches Some(d) ==> d.len() != size,
        },
{
    match crle_expand(data, size) {
        Some(out) => if out.len() == size {
            Some(out)
        } else {
            None
        },
        None => None,
    }
}

/// Reads one block at `at`: where its bytes begin and end.
fn take_block(s: &[u8], at: usize) -> (r: Option<(usize, usize)>)
    requires
        at <= s@.len(),
    ensures
        match r {
            Some((start, end)) => {
                &&& at < start <= end <= s@.len()
                &&& read_block(s@.skip(at as int)) == Some(
                    (s@.subrange(start as int, end as int), (end - at) as nat),
                )
            },
            None => read_block(s@.skip(at as int)) is None,
        },
{
    let size: usize = s.len();
    match take_size(s, at) {
        Some((n, k)) => {
            let start: usize = at + k;
            if n < 0 || n > (size - start) as i128 {
                None
            } else {
                let end: usize = start + n as usize;
                assert(s@.skip(at as int).subrange(k as int, k + n) =~= s@.subrange(
                    start as int,
                    end as int,
                ));
                Some((start, end))
            }
        },
        None => None,
    }
}

/// Where the parts of an entry lie.
struct Entry {
    diff_start: usize,
    diff_end: usize,
    extra_start: usize,
    extra_end: usize,
    seek: i128,
    end: usize,
}

/// Reads the entry at `at`.
fn take_entry(s: &[u8], at: usize) -> (r: Option<Entry>)
    requires
        at <= s@.len(),
    ensures
        match r {
            Some(e) => {
                &&& at < e.diff_start <= e.diff_end < e.extra_start <= e.extra_end < e.end
                    <= s@.len()
                &&& read_entry(s@.skip(at as int)) == Some(
                    (
                        s@.subrange(e.diff_start as int, e.diff_end as int),
                        s@.subrange(e.extra_start as int, e.extra_end as int),
                        e.seek as int,
                        (e.end - at) as nat,
                    ),
                )
            },
            None => read_entry(s@.skip(at as int)) matches Some((d, e, seek, k)) ==> out_of_reach(seek),
        },
{
    let size: usize = s.len();
    match take_block(s, at) {
        None => None,
        Some((diff_start, diff_end)) => {
            assert(s@.skip(at as int).skip(diff_end - at) =~= s@.skip(diff_end as int));
            match take_block(s, diff_end) {
                None => None,
                Some((extra_start, extra_end)) => {
                    assert(s@.skip(at as int).skip(extra_end - at) =~= s@.skip(extra_end as int));
                    match take_size(s, extra_end) {
                        None => None,
                        Some((seek, k)) => Some(
                            Entry {
                                diff_start,
                                diff_end,
                                extra_start,
                                extra_end,
                                seek,
                                end: extra_end + k,
                            },
                        ),
                    }
                },
            }
        },
    }
}

/// Appends `from[cursor..]` with the differences added.
fn push_added(out: &mut Vec<u8>, from: &[u8], cursor: usize, diff: &[u8])
    requires
        cursor + diff@.len() <= from@.len(),
    ensures
        final(out)@ == old(out)@ + added(from@, cursor as int, diff@),
{
    let n: usize = diff.len();
    let size: usize = from.len();
    let ghost before = out@;
    let mut i: usize = 0;
    assert(before + added(from@, cursor as int, diff@).take(0) =~= before);
    while i < n
        invariant
            n == diff@.len(),
            size == from@.len(),
            cursor + n <= size,
            i <= n,
            out@ == before + added(from@, cursor as int, diff@).take(i as int),
        decreases n - i,
    {
        let b: u8 = from[cursor + i].wrapping_add(diff[i]);
        assert(b == byte_add(from@[cursor + i], diff@[i as int]));
        out.push(b);
        i = i + 1;
        assert(out@ =~= before + added(from@, cursor as int, diff@).take(i as int));
    }
    assert(added(from@, cursor as int, diff@).take(n as int) =~= added(
        from@,
        cursor as int,
        diff@,
    ));
}

/// Applies the entries of `body` from `start` on.
fn run_entries(from: &[u8], body: &[u8], start: usize, size: usize) -> (r: Option<Vec<u8>>)
    requires
        start <= body@.len(),
    ensures
        match r {
            Some(out) => apply_entries(from@, body@.skip(start as int), 0, seq![], size as int)
                == Some(out@),
            None => apply_entries(from@, body@.skip(start as int), 0, seq![], size as int) is None,
        },
{
    let end: usize = body.len();
    let base: usize = from.len();
    let mut out: Vec<u8> = Vec::new();
    let mut at: usize = start;
    let mut cursor: usize = 0;
    while out.len() != size
        invariant
            end == body@.len(),
            start <= at <= end,
            base == from@.len(),
            cursor <= base,
            out@.len() <= size,
            apply_entries(from@, body@.skip(start as int), 0, seq![], size as int)
                == apply_entries(
                from@,
                body@.skip(at as int),
                cursor as int,
                out@,
                size as int,
            ),
        decreases end - at,
    {
        let ghost s = body@.skip(at as int);
        let ghost before = out@;
        let e: Entry = match take_entry(body, at) {
            None => {
                return None;
            },
            Some(e) => e,
        };
        let dl: usize = e.diff_end - e.diff_start;
        let el: usize = e.extra_end - e.extra_start;
        if dl > base - cursor || dl > size - out.len() || el > size - out.len() - dl {
            return None;
        }
        let here: i128 = (cursor + dl) as i128;
        if e.seek < -here || e.seek > base as i128 - here {
            return None;
        }
        let diff: &[u8] = vstd::slice::slice_subrange(body, e.diff_start, e.diff_end);
        let extra: &[u8] = vstd::slice::slice_subrange(body, e.extra_start, e.extra_end);
        push_added(&mut out, from, cursor, diff);
        out.extend_from_slice(extra);
        assert(out@ =~= before + added(from@, cursor as int, diff@) + extra@);
        assert(s.skip(e.end - at) =~= body@.skip(e.end as int));
        cursor = (here + e.seek) as usize;
        at = e.end;
    }
    if at == end {
        Some(out)
    } else {
        None
    }
}

/// Applies a sequential patch to `from` and gives back the target. `None` if the patch is malformed, does
/// not fit `from`, or its compressed part stands for more than `limit` bytes.
pub fn apply_sequential(from: &[u8], patch: &[u8], limit: usize) -> (r: Option<Vec<u8>>)
    ensures
        r matches Some(out) ==> patched(from@, patch@) == Some(out@) && body_len(patch@) <= limit,
        r is None ==> patched(from@, patch@) is None || body_len(patch@) > limit,
{
    if patch.len() == 0 || patch[0] != encode::SEQUENTIAL_CRLE {
        return None;
    }
    match take_size(patch, 1) {
        None => {
            proof {
                lemma_patched_len(from@, patch@);
            }
            None
        },
        Some((size, k)) => {
            let rest: &[u8] = vstd::slice::slice_subrange(patch, 1 + k, patch.len());
            assert(rest@ =~= patch@.skip(1 + k));
            match crle_expand(rest, limit) {
                None => None,
                Some(body) => match take_size(body.as_slice(), 0) {
                    None => {
                        assert(body@.skip(0) =~= body@);
                        None
                    },
                    Some((format, n)) => {
                        assert(body@.skip(0) =~= body@);
                        if format != 0 {
                            return None;
                        }
                        if size < 0 || size > usize::MAX as i128 {
                            proof {
                                lemma_target_len(
                                    from@,
                                    body@.skip(n as int),
                                    0,
                                    seq![],
                                    size as int,
                                );
                            }
                            return None;
                        }
                        run_entries(from, body.as_slice(), n, size as usize)
                    },
                },
            }
        },
    }
}

} // verus!
