//! Patches, as the decoder on a device reads them.

use vstd::prelude::*;

use crate::decode;
use crate::encode;
use crate::encode::bsdiff;
use crate::encode::crle;
use crate::encode::search;
use crate::encode::varint;

verus! {

/// The number whose groups of seven bits these bytes hold, the lowest first.
pub open spec fn base128(s: Seq<u8>) -> int
    decreases s.len(),
{
    if s.len() == 0 {
        0
    } else {
        s[0] as int % 128 + 128 * base128(s.skip(1))
    }
}

/// Every byte but the last has its high bit set.
pub open spec fn continued(s: Seq<u8>) -> bool {
    &&& s.len() >= 1
    &&& forall|i: int| 0 <= i < s.len() - 1 ==> #[trigger] s[i] >= 128
    &&& s[s.len() - 1] < 128
}

/// A segment length is stored in groups of seven bits, the lowest first, with the high bit of a byte set where
/// another one follows, and in as few bytes as there can be.
pub proof fn lengths_on_the_wire(n: nat)
    ensures
        continued(varint::uvarint(n)),
        base128(varint::uvarint(n)) == n,
        varint::uvarint(n).len() > 1 ==> varint::uvarint(n).last() != 0,
    decreases n,
{
    let s = varint::uvarint(n);
    if n < 128 {
        assert(base128(s.skip(1)) == 0);
    } else {
        let rest = varint::uvarint(n / 128);
        lengths_on_the_wire(n / 128);
        assert(s.skip(1) =~= rest);
        assert forall|i: int| 0 <= i < s.len() - 1 implies #[trigger] s[i] >= 128 by {
            if i > 0 {
                assert(s[i] == rest[i - 1]);
            }
        }
        assert(s[s.len() - 1] == rest[rest.len() - 1]);
    }
}

/// A size is stored with its sign in bit 6 of the first byte, its lowest six bits below that, and the rest in
/// groups of seven bits, with the high bit of a byte set where another one follows.
pub proof fn sizes_on_the_wire(v: int)
    ensures
        continued(varint::size_bytes(v)),
        ({
            let s = varint::size_bytes(v);
            let magnitude = s[0] as int % 64 + 64 * base128(s.skip(1));
            if (s[0] as int / 64) % 2 == 1 {
                v == -magnitude && v < 0
            } else {
                v == magnitude && v >= 0
            }
        }),
        varint::size_bytes(v).len() > 1 ==> varint::size_bytes(v).last() != 0,
{
    let s = varint::size_bytes(v);
    let m: int = if v < 0 { -v } else { v };
    if m < 64 {
        assert(base128(s.skip(1)) == 0);
    } else {
        let rest = varint::uvarint((m / 64) as nat);
        lengths_on_the_wire((m / 64) as nat);
        assert(s.skip(1) =~= rest);
        assert forall|i: int| 0 <= i < s.len() - 1 implies #[trigger] s[i] >= 128 by {
            if i > 0 {
                assert(s[i] == rest[i - 1]);
            }
        }
        assert(s[s.len() - 1] == rest[rest.len() - 1]);
    }
}

/// Six equal bytes stand at `p`.
pub open spec fn six_equal(data: Seq<u8>, p: int) -> bool {
    &&& 0 <= p
    &&& p + 6 <= data.len()
    &&& forall|i: int| p <= i < p + 6 ==> #[trigger] data[i] == data[p]
}

proof fn lemma_run_shift(data: Seq<u8>, i: int, k: int)
    requires
        0 <= i <= data.len(),
        0 <= k,
    ensures
        crle::run_len(data, i + k) == crle::run_len(data.skip(i), k),
    decreases data.len() - i - k,
{
    if i + k < data.len() {
        lemma_run_shift(data, i, k + 1);
    }
}

proof fn lemma_next_shift(data: Seq<u8>, i: int, k: int)
    requires
        0 <= i <= data.len(),
        0 <= k,
    ensures
        crle::next_run(data, i + k) == match crle::next_run(data.skip(i), k) {
            Some((o, l)) => Some((i + o, l)),
            None => None,
        },
    decreases data.len() - i - k,
{
    if i + k < data.len() {
        lemma_run_shift(data, i, k);
        crle::lemma_run_len(data, i + k);
        lemma_next_shift(data, i, k + crle::run_len(data, i + k));
    }
}

proof fn lemma_segments_shift(data: Seq<u8>, i: int, k: int)
    requires
        0 <= i <= data.len(),
        0 <= k,
    ensures
        crle::segments(data, i + k) == crle::segments(data.skip(i), k),
    decreases data.len() - i - k,
{
    if i + k < data.len() {
        let tail = data.skip(i);
        lemma_next_shift(data, i, k);
        crle::lemma_next_run(tail, k);
        match crle::next_run(tail, k) {
            None => {
                assert(data.skip(i + k) =~= tail.skip(k));
            },
            Some((o, l)) => {
                if k < o {
                    lemma_segments_shift(data, i, o);
                    assert(data.subrange(i + k, i + o) =~= tail.subrange(k, o));
                } else {
                    lemma_segments_shift(data, i, k + l);
                    assert(i + (k + l) == i + k + l);
                }
            },
        }
    }
}

/// Data without six equal bytes in a row are stored as they are, behind a zero byte and their length.
pub proof fn scattered_bytes(data: Seq<u8>)
    requires
        forall|p: int| !#[trigger] six_equal(data, p),
    ensures
        crle::compressed(data) == seq![0u8] + varint::uvarint(data.len()) + data,
{
    crle::next_run_is_the_first(data, 0);
    if data.len() > 0 {
        if let Some((o, l)) = crle::next_run(data, 0) {
            assert(six_equal(data, o));
        }
        assert(data.skip(0) =~= data);
    }
}

/// What stands before the first six equal bytes is stored as it is, behind a zero byte and its length; then
/// comes what the rest is stored as.
pub proof fn scattered_bytes_before_a_run(data: Seq<u8>, o: int)
    requires
        o > 0,
        six_equal(data, o),
        forall|p: int| 0 <= p < o ==> !#[trigger] six_equal(data, p),
    ensures
        crle::compressed(data) == seq![0u8] + varint::uvarint(o as nat) + data.take(o) + crle::compressed(
            data.skip(o),
        ),
{
    crle::next_run_is_the_first(data, 0);
    assert(crle::repeats(data, o));
    match crle::next_run(data, 0) {
        Some((j, l)) => {
            if j < o {
                assert(six_equal(data, j));
            }
            assert(j == o);
            lemma_segments_shift(data, o, 0);
            assert(data.subrange(0, o) =~= data.take(o));
        },
        None => {},
    }
}

/// Six or more equal bytes at the start are stored as a one, their number and the byte; then comes what the
/// rest, which begins with another byte, is stored as.
pub proof fn repeated_bytes(data: Seq<u8>, l: int)
    requires
        6 <= l <= data.len(),
        forall|i: int| 0 <= i < l ==> #[trigger] data[i] == data[0],
        l < data.len() ==> data[l] != data[0],
    ensures
        crle::compressed(data) == seq![1u8] + varint::uvarint(l as nat) + seq![data[0]] + if l
            < data.len() {
            crle::compressed(data.skip(l))
        } else {
            seq![]
        },
{
    crle::next_run_is_the_first(data, 0);
    assert(crle::repeats(data, 0));
    match crle::next_run(data, 0) {
        Some((o, k)) => {
            assert(o == 0);
            if k < l {
                assert(data[k] == data[0]);
            } else if l < k {
                assert(data[l] == data[0]);
            }
            lemma_segments_shift(data, l, 0);
        },
        None => {},
    }
}

/// The decoder takes a zero byte, a length and that many bytes for those bytes, and a one, a number and a byte
/// for that many of the byte.
pub proof fn segments_are_expanded(bytes: Seq<u8>, n: nat, b: u8, rest: Seq<u8>)
    requires
        crle::expanded(rest) is Some,
    ensures
        crle::expanded(seq![0u8] + varint::uvarint(bytes.len()) + bytes + rest) == Some(
            bytes + crle::expanded(rest)->0,
        ),
        crle::expanded(seq![1u8] + varint::uvarint(n) + seq![b] + rest) == Some(
            Seq::new(n, |i: int| b) + crle::expanded(rest)->0,
        ),
{
    crle::lemma_expand_scattered(bytes, rest);
    crle::lemma_expand_repeated(n, b, rest);
}

/// One entry of a stream.
pub struct Triple {
    /// What to add to the bytes of the base.
    pub diff: Seq<u8>,
    /// Bytes of the target.
    pub extra: Seq<u8>,
    /// How far the base cursor moves on.
    pub seek: int,
}

/// The bytes of a stream: of each entry the length of the differences, the differences, the length of the
/// literal bytes, the literal bytes, and the move.
pub open spec fn wire(ts: Seq<Triple>) -> Seq<u8>
    decreases ts.len(),
{
    if ts.len() == 0 {
        seq![]
    } else {
        varint::size_bytes(ts[0].diff.len() as int) + ts[0].diff + varint::size_bytes(
            ts[0].extra.len() as int,
        ) + ts[0].extra + varint::size_bytes(ts[0].seek) + wire(ts.skip(1))
    }
}

/// The entries give `to`, where `written` bytes of it are there and the cursor stands at `cursor`: a difference
/// and the byte of the base at the cursor add up to the byte of the target, modulo 256; literal bytes are the
/// bytes of the target; and what is read of the base lies within it.
pub open spec fn rebuilds(
    from: Seq<u8>,
    to: Seq<u8>,
    ts: Seq<Triple>,
    cursor: int,
    written: int,
) -> bool
    decreases ts.len(),
{
    if ts.len() == 0 {
        written == to.len()
    } else {
        let n = ts[0].diff.len() as int;
        let m = ts[0].extra.len() as int;
        &&& 0 <= cursor
        &&& cursor + n <= from.len()
        &&& written + n + m <= to.len()
        &&& forall|i: int|
            #![trigger ts[0].diff[i]]
            0 <= i < n ==> (from[cursor + i] + ts[0].diff[i]) % 256 == to[written + i] as int
        &&& forall|i: int|
            #![trigger ts[0].extra[i]]
            0 <= i < m ==> ts[0].extra[i] == to[written + n + i]
        &&& 0 <= cursor + n + ts[0].seek <= from.len()
        &&& rebuilds(from, to, ts.skip(1), cursor + n + ts[0].seek, written + n + m)
    }
}

/// No entry comes after the target is complete.
pub open spec fn all_needed(to: Seq<u8>, ts: Seq<Triple>, written: int) -> bool
    decreases ts.len(),
{
    ts.len() > 0 ==> written < to.len() && all_needed(
        to,
        ts.skip(1),
        written + ts[0].diff.len() + ts[0].extra.len(),
    )
}

proof fn lemma_triples(
    from: Seq<u8>,
    to: Seq<u8>,
    scan: int,
    len: int,
    pos: int,
    lastscan: int,
    lastpos: int,
    off: int,
) -> (ts: Seq<Triple>)
    requires
        0 <= lastscan <= scan < to.len(),
        0 <= len,
        scan + len <= to.len(),
        0 <= pos <= from.len(),
        0 <= lastpos <= from.len(),
    ensures
        bsdiff::stream_from(from, to, scan, len, pos, lastscan, lastpos, off) == wire(ts),
        rebuilds(from, to, ts, lastpos, lastscan),
    decreases to.len() - scan - len,
{
    let (scan2, len2, pos2, score) = bsdiff::next_match(
        from,
        to,
        off,
        scan + len,
        len,
        pos,
        0,
        scan + len,
    );
    bsdiff::lemma_walk(from, to, off, scan + len, len, pos);
    let onward = scan2 < to.len();
    if len2 != score || scan2 == to.len() {
        let (f, b) = bsdiff::extents(from, to, lastscan, lastpos, scan2, pos2);
        bsdiff::lemma_extents(from, to, lastscan, lastpos, scan2, pos2);
        let rest = if onward {
            lemma_triples(from, to, scan2, len2, pos2, scan2 - b, pos2 - b, pos2 - scan2)
        } else {
            seq![]
        };
        let t = Triple {
            diff: bsdiff::differences(from, to, lastpos, lastscan, f),
            extra: to.subrange(lastscan + f, scan2 - b),
            seek: (pos2 - b) - (lastpos + f),
        };
        let ts = seq![t] + rest;
        assert(ts.skip(1) =~= rest);
        assert forall|i: int| #![trigger t.diff[i]] 0 <= i < f implies (from[lastpos + i] + t.diff[i]) % 256
            == to[lastscan + i] as int by {
            assert(t.diff[i] == bsdiff::byte_sub(to[lastscan + i], from[lastpos + i]));
        }
        assert(wire(ts) =~= bsdiff::stretch(from, to, lastscan, lastpos, scan2, pos2, f, b) + wire(rest));
        assert(ts[0] == t);
        assert(rebuilds(from, to, rest, pos2 - b, scan2 - b));
        assert(lastscan + f + t.extra.len() == scan2 - b);
        assert(t.diff.len() == f);
        ts
    } else {
        lemma_triples(from, to, scan2, len2, pos2, lastscan, lastpos, off)
    }
}

/// The stream of a diff is a sequence of entries whose differences, added to the bytes of the base modulo 256,
/// and literal bytes give the target, byte for byte.
pub proof fn stream_carries_the_target(from: Seq<u8>, to: Seq<u8>) -> (ts: Seq<Triple>)
    ensures
        bsdiff::diff_stream(from, to) == wire(ts),
        rebuilds(from, to, ts, 0, 0),
{
    if to.len() == 0 {
        seq![]
    } else {
        lemma_triples(from, to, 0, 0, 0, 0, 0, 0)
    }
}

/// A patch is the byte 2, the size of the target, and then, compressed, a size of zero and entries that carry
/// the target.
pub proof fn patch_carries_the_target(from: Seq<u8>, to: Seq<u8>) -> (ts: Seq<Triple>)
    ensures
        encode::sequential_patch(from, to) == seq![2u8] + varint::size_bytes(to.len() as int)
            + crle::compressed(seq![0u8] + wire(ts)),
        rebuilds(from, to, ts, 0, 0),
{
    let ts = stream_carries_the_target(from, to);
    assert(varint::size_bytes(0) =~= seq![0u8]);
    ts
}

proof fn lemma_wire_first(ts: Seq<Triple>)
    requires
        ts.len() > 0,
    ensures
        wire(ts) == bsdiff::entry(ts[0].diff, ts[0].extra, ts[0].seek) + wire(ts.skip(1)),
{
    assert(wire(ts) =~= bsdiff::entry(ts[0].diff, ts[0].extra, ts[0].seek) + wire(ts.skip(1)));
}

pub proof fn lemma_first_written(from: Seq<u8>, to: Seq<u8>, ts: Seq<Triple>, cursor: int, written: int)
    requires
        ts.len() > 0,
        0 <= written <= to.len(),
        rebuilds(from, to, ts, cursor, written),
    ensures
        to.take(written) + decode::added(from, cursor, ts[0].diff) + ts[0].extra == to.take(
            written + ts[0].diff.len() + ts[0].extra.len(),
        ),
{
    let t = ts[0];
    assert forall|i: int| 0 <= i < t.diff.len() implies #[trigger] decode::added(from, cursor, t.diff)[i]
        == to[written + i] by {
        assert((from[cursor + i] + ts[0].diff[i]) % 256 == to[written + i] as int);
    }
    assert forall|i: int| 0 <= i < t.extra.len() implies #[trigger] t.extra[i] == to[written + t.diff.len()
        + i] by {
        assert(ts[0].extra[i] == t.extra[i]);
    }
    assert(to.take(written) + decode::added(from, cursor, t.diff) + t.extra =~= to.take(
        written + t.diff.len() + t.extra.len(),
    ));
}

proof fn lemma_apply_wire(from: Seq<u8>, to: Seq<u8>, ts: Seq<Triple>, cursor: int, written: int)
    requires
        0 <= written <= to.len(),
        rebuilds(from, to, ts, cursor, written),
        all_needed(to, ts, written),
    ensures
        decode::apply_entries(from, wire(ts), cursor, to.take(written), to.len() as int) == Some(to),
    decreases ts.len(),
{
    if ts.len() == 0 {
        assert(to.take(written) =~= to);
    } else {
        let t = ts[0];
        let rest = ts.skip(1);
        let next = written + t.diff.len() + t.extra.len();
        lemma_wire_first(ts);
        decode::lemma_apply_first(
            from,
            t.diff,
            t.extra,
            t.seek,
            wire(rest),
            cursor,
            to.take(written),
            to.len() as int,
        );
        lemma_first_written(from, to, ts, cursor, written);
        lemma_apply_wire(from, to, rest, cursor + t.diff.len() + t.seek, next);
    }
}

/// The decoder makes of any entries the target that they carry: it adds differences to the bytes of the base
/// at the cursor, modulo 256, takes literal bytes as they are, and moves the cursor.
pub proof fn entries_give_the_target(from: Seq<u8>, to: Seq<u8>, ts: Seq<Triple>)
    requires
        rebuilds(from, to, ts, 0, 0),
        all_needed(to, ts, 0),
    ensures
        decode::apply_entries(from, wire(ts), 0, seq![], to.len() as int) == Some(to),
{
    lemma_apply_wire(from, to, ts, 0, 0);
    assert(to.take(0) =~= seq![]);
}

/// The decoder reads a patch as the byte 2, the size of the target, and compressed entries behind a size of
/// zero.
pub proof fn patches_give_the_target(from: Seq<u8>, to: Seq<u8>, ts: Seq<Triple>)
    requires
        rebuilds(from, to, ts, 0, 0),
        all_needed(to, ts, 0),
    ensures
        decode::patched(
            from,
            seq![2u8] + varint::size_bytes(to.len() as int) + crle::compressed(seq![0u8] + wire(ts)),
        ) == Some(to),
{
    let size = varint::size_bytes(to.len() as int);
    let body = seq![0u8] + wire(ts);
    let patch = seq![2u8] + size + crle::compressed(body);
    crle::crle_round_trip(body);
    assert(patch.skip(1) =~= size + crle::compressed(body));
    varint::lemma_read_size(to.len() as int, crle::compressed(body));
    assert(patch.skip(1 + size.len() as int) =~= crle::compressed(body));
    assert(varint::size_bytes(0) =~= seq![0u8]);
    varint::lemma_read_size(0, wire(ts));
    assert(body.skip(1) =~= wire(ts));
    entries_give_the_target(from, to, ts);
}

proof fn lemma_match_len_bytes(a: Seq<u8>, b: Seq<u8>)
    ensures
        ({
            let n = search::match_len(a, b);
            &&& 0 <= n <= a.len()
            &&& n <= b.len()
            &&& forall|i: int| 0 <= i < n ==> #[trigger] a[i] == b[i]
            &&& n == a.len() || n == b.len() || a[n] != b[n]
        }),
    decreases a.len(),
{
    if a.len() > 0 && b.len() > 0 && a[0] == b[0] {
        let (c, d) = (a.skip(1), b.skip(1));
        lemma_match_len_bytes(c, d);
        let n = search::match_len(c, d);
        assert forall|i: int| 0 <= i < n + 1 implies #[trigger] a[i] == b[i] by {
            if i > 0 {
                assert(c[i - 1] == d[i - 1]);
            }
        }
        if n < c.len() && n < d.len() {
            assert(c[n] == a[n + 1] && d[n] == b[n + 1]);
        }
    }
}

/// The common prefix of two byte strings is what they agree in before they first differ.
pub proof fn common_prefix(a: Seq<u8>, b: Seq<u8>)
    ensures
        ({
            let n = search::match_len(a, b);
            &&& 0 <= n <= a.len()
            &&& n <= b.len()
            &&& forall|i: int| 0 <= i < n ==> #[trigger] a[i] == b[i]
            &&& n == a.len() || n == b.len() || a[n] != b[n]
        }),
{
    lemma_match_len_bytes(a, b);
}

proof fn lemma_best_match_is_a_match(sa: Seq<int>, from: Seq<u8>, new: Seq<u8>, st: int, en: int)
    requires
        0 <= st <= en < sa.len(),
        forall|x: int| 0 <= x < sa.len() ==> 0 <= #[trigger] sa[x] <= from.len(),
    ensures
        ({
            let (len, pos) = search::best_match(sa, from, new, st, en);
            &&& 0 <= len <= new.len()
            &&& 0 <= pos
            &&& pos + len <= from.len()
            &&& forall|i: int| 0 <= i < len ==> #[trigger] new[i] == from[pos + i]
            &&& len == new.len() || pos + len == from.len() || new[len] != from[pos + len]
        }),
    decreases en - st,
{
    if en - st < 2 {
        let (len, pos) = search::best_match(sa, from, new, st, en);
        lemma_match_len_bytes(from.skip(sa[st]), new);
        lemma_match_len_bytes(from.skip(sa[en]), new);
        assert forall|i: int| 0 <= i < len implies #[trigger] new[i] == from[pos + i] by {
            assert(from.skip(pos)[i] == from[pos + i]);
        }
    } else {
        let x = st + (en - st) / 2;
        lemma_best_match_is_a_match(sa, from, new, x, en);
        lemma_best_match_is_a_match(sa, from, new, st, x);
    }
}

/// What the search finds is a match: the bytes agree as far as it says, and no further.
pub proof fn match_is_a_match(from: Seq<u8>, new: Seq<u8>)
    ensures
        ({
            let (len, pos) = search::match_in(from, new);
            &&& 0 <= len <= new.len()
            &&& 0 <= pos
            &&& pos + len <= from.len()
            &&& forall|i: int| 0 <= i < len ==> #[trigger] new[i] == from[pos + i]
            &&& len == new.len() || pos + len == from.len() || new[len] != from[pos + len]
        }),
{
    search::lemma_sentinel_bounds(from);
    lemma_best_match_is_a_match(
        crate::encode::suffix::with_sentinel(from),
        from,
        new,
        0,
        from.len() as int,
    );
}

} // verus!
