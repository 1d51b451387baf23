//! What the decoder of a patch accepts.

use vstd::prelude::*;

use crate::decode;
use crate::encode::crle;
use crate::encode::varint;
use crate::laws::patch;
use crate::laws::patch::Triple;

verus! {

/// The bytes are a length: groups of seven bits, the lowest first.
pub open spec fn is_length(bytes: Seq<u8>, n: int) -> bool {
    patch::continued(bytes) && patch::base128(bytes) == n
}

/// The bytes are a size: six bits, a sign in bit 6 of the first byte, and then groups of seven bits.
pub open spec fn is_size(bytes: Seq<u8>, v: int) -> bool {
    let magnitude = bytes[0] as int % 64 + 64 * patch::base128(bytes.skip(1));
    &&& patch::continued(bytes)
    &&& v == if (bytes[0] as int / 64) % 2 == 1 {
        -magnitude
    } else {
        magnitude
    }
}

/// The length at the start of some bytes is read up to the first byte without its high bit; there is none if
/// every byte has it.
pub proof fn lengths_are_read(s: Seq<u8>)
    ensures
        match varint::read_uvarint(s) {
            Some((n, k)) => 1 <= k <= s.len() && is_length(s.take(k as int), n as int),
            None => forall|i: int| 0 <= i < s.len() ==> #[trigger] s[i] >= 128,
        },
    decreases s.len(),
{
    if s.len() > 0 && s[0] < 128 {
        let t = s.take(1);
        assert(patch::base128(t.skip(1)) == 0);
    } else if s.len() > 0 {
        let rest = s.skip(1);
        lengths_are_read(rest);
        match varint::read_uvarint(rest) {
            Some((n, k)) => {
                let t = s.take(k as int + 1);
                let u = rest.take(k as int);
                assert(t.skip(1) =~= u);
                assert forall|i: int| 0 <= i < t.len() - 1 implies #[trigger] t[i] >= 128 by {
                    if i > 0 {
                        assert(t[i] == u[i - 1]);
                    }
                }
                assert(t[t.len() - 1] == u[u.len() - 1]);
            },
            None => {
                assert forall|i: int| 0 <= i < s.len() implies #[trigger] s[i] >= 128 by {
                    if i > 0 {
                        assert(s[i] == rest[i - 1]);
                    }
                }
            },
        }
    }
}

/// The size at the start of some bytes is read up to the first byte without its high bit; there is none if every
/// byte has it.
pub proof fn sizes_are_read(s: Seq<u8>)
    ensures
        match varint::read_size(s) {
            Some((v, k)) => 1 <= k <= s.len() && is_size(s.take(k as int), v),
            None => forall|i: int| 0 <= i < s.len() ==> #[trigger] s[i] >= 128,
        },
{
    if s.len() > 0 && s[0] < 128 {
        let t = s.take(1);
        assert(patch::base128(t.skip(1)) == 0);
    } else if s.len() > 0 {
        let rest = s.skip(1);
        lengths_are_read(rest);
        match varint::read_uvarint(rest) {
            Some((n, k)) => {
                let t = s.take(k as int + 1);
                let u = rest.take(k as int);
                assert(t.skip(1) =~= u);
                assert forall|i: int| 0 <= i < t.len() - 1 implies #[trigger] t[i] >= 128 by {
                    if i > 0 {
                        assert(t[i] == u[i - 1]);
                    }
                }
                assert(t[t.len() - 1] == u[u.len() - 1]);
            },
            None => {
                assert forall|i: int| 0 <= i < s.len() implies #[trigger] s[i] >= 128 by {
                    if i > 0 {
                        assert(s[i] == rest[i - 1]);
                    }
                }
            },
        }
    }
}

/// A compressed stream that is accepted begins with a zero byte, a length and that many bytes, which come out as
/// they are, or with a one, a number and a byte, which comes out as often as the number says. The rest of it is
/// accepted and gives the rest. There is nothing else that a stream can begin with.
pub proof fn accepted_segments(s: Seq<u8>, out: Seq<u8>) -> (used: (int, int))
    requires
        crle::expanded(s) == Some(out),
        s.len() > 0,
    ensures
        ({
            let (k, n) = used;
            &&& 1 <= k
            &&& 0 <= n <= out.len()
            &&& 1 + k <= s.len()
            &&& is_length(s.subrange(1, 1 + k), n)
            &&& if s[0] == 0 {
                &&& 1 + k + n <= s.len()
                &&& out.take(n) == s.subrange(1 + k, 1 + k + n)
                &&& crle::expanded(s.skip(1 + k + n)) == Some(out.skip(n))
            } else {
                &&& s[0] == 1
                &&& 2 + k <= s.len()
                &&& forall|i: int| 0 <= i < n ==> #[trigger] out[i] == s[1 + k]
                &&& crle::expanded(s.skip(2 + k)) == Some(out.skip(n))
            }
        }),
{
    let tail = s.skip(1);
    lengths_are_read(tail);
    let (n, k) = varint::read_uvarint(tail)->0;
    let body = s.skip(1 + k as int);
    assert(s.subrange(1, 1 + k as int) =~= tail.take(k as int));
    if s[0] == 0 {
        let rest = crle::expanded(body.skip(n as int))->0;
        assert(out == body.take(n as int) + rest);
        assert(body.skip(n as int) =~= s.skip(1 + k as int + n as int));
        assert(out.take(n as int) =~= s.subrange(1 + k as int, 1 + k as int + n as int));
        assert(out.skip(n as int) =~= rest);
    } else {
        let rest = crle::expanded(body.skip(1))->0;
        assert(body.skip(1) =~= s.skip(2 + k as int));
        assert(body[0] == s[1 + k as int]);
        assert(out.skip(n as int) =~= rest);
    }
    (k as int, n as int)
}

/// An entry stands at the start: the size of the differences and the differences, the size of the literal bytes
/// and the literal bytes, and the move.
pub open spec fn begins_with_entry(
    s: Seq<u8>,
    t: Triple,
    a: Seq<u8>,
    b: Seq<u8>,
    c: Seq<u8>,
    rest: Seq<u8>,
) -> bool {
    &&& s == a + t.diff + b + t.extra + c + rest
    &&& is_size(a, t.diff.len() as int)
    &&& is_size(b, t.extra.len() as int)
    &&& is_size(c, t.seek)
}

/// The bytes are these entries, one after the other, and nothing more.
pub open spec fn are_entries(s: Seq<u8>, ts: Seq<Triple>) -> bool
    decreases ts.len(),
{
    if ts.len() == 0 {
        s.len() == 0
    } else {
        exists|a: Seq<u8>, b: Seq<u8>, c: Seq<u8>, rest: Seq<u8>| #[trigger]
            begins_with_entry(s, ts[0], a, b, c, rest) && are_entries(rest, ts.skip(1))
    }
}

proof fn lemma_entry_read(s: Seq<u8>) -> (parts: (Seq<u8>, Seq<u8>, Seq<u8>))
    requires
        decode::read_entry(s) is Some,
    ensures
        ({
            let (diff, extra, seek, used) = decode::read_entry(s)->0;
            begins_with_entry(
                s,
                Triple { diff, extra, seek },
                parts.0,
                parts.1,
                parts.2,
                s.skip(used as int),
            )
        }),
{
    let (diff, k1) = decode::read_block(s)->0;
    let s2 = s.skip(k1 as int);
    let (extra, k2) = decode::read_block(s2)->0;
    let s3 = s.skip((k1 + k2) as int);
    let (seek, k3) = varint::read_size(s3)->0;
    decode::lemma_read_entry_len(s);
    decode::lemma_read_block_len(s);
    decode::lemma_read_block_len(s2);
    sizes_are_read(s);
    sizes_are_read(s2);
    sizes_are_read(s3);
    let (n1, j1) = varint::read_size(s)->0;
    let (n2, j2) = varint::read_size(s2)->0;
    let a = s.take(j1 as int);
    let b = s2.take(j2 as int);
    let c = s3.take(k3 as int);
    let rest = s.skip((k1 + k2 + k3) as int);
    assert(s =~= (a + diff) + s2);
    assert(s2 =~= (b + extra) + s3);
    assert(s3 =~= c + rest);
    assert(s =~= a + diff + b + extra + c + rest);
    (a, b, c)
}

proof fn lemma_accepted(from: Seq<u8>, s: Seq<u8>, cursor: int, out: Seq<u8>, size: int, to: Seq<u8>) -> (ts: Seq<
    Triple,
>)
    requires
        decode::apply_entries(from, s, cursor, out, size) == Some(to),
        0 <= cursor <= from.len(),
        out.len() <= size,
    ensures
        are_entries(s, ts),
        patch::rebuilds(from, to, ts, cursor, out.len() as int),
        patch::all_needed(to, ts, out.len() as int),
        to.len() == size,
        to.take(out.len() as int) == out,
    decreases s.len(),
{
    if out.len() == size {
        assert(to.take(out.len() as int) =~= out);
        seq![]
    } else {
        let (diff, extra, seek, used) = decode::read_entry(s)->0;
        let t = Triple { diff, extra, seek };
        let (a, b, c) = lemma_entry_read(s);
        decode::lemma_read_entry_len(s);
        let rest = s.skip(used as int);
        let next = cursor + diff.len() + seek;
        let sum = decode::added(from, cursor, diff);
        let out2 = out + sum + extra;
        let more = lemma_accepted(from, rest, next, out2, size, to);
        let ts = seq![t] + more;
        let written = out.len() as int;
        assert(ts[0] == t);
        assert(ts.skip(1) =~= more);
        assert(begins_with_entry(s, ts[0], a, b, c, rest));
        assert(are_entries(rest, ts.skip(1)));
        assert forall|i: int| 0 <= i < out2.len() implies #[trigger] to[i] == out2[i] by {
            assert(to.take(out2.len() as int)[i] == out2[i]);
        }
        assert(to.take(written) =~= out);
        assert forall|i: int| #![trigger ts[0].diff[i]] 0 <= i < diff.len() implies (from[cursor + i] + ts[0].diff[i])
            % 256 == to[written + i] as int by {
            assert(to[written + i] == out2[written + i]);
            assert(out2[written + i] == sum[i]);
            assert(sum[i] == decode::byte_add(from[cursor + i], diff[i]));
        }
        assert forall|i: int| #![trigger ts[0].extra[i]] 0 <= i < extra.len() implies ts[0].extra[i] == to[written
            + diff.len() + i] by {
            assert(to[written + diff.len() + i] == out2[written + diff.len() + i]);
        }
        ts
    }
}

/// A patch is the byte 2, the size of the target in `k` bytes, and compressed bytes that stand for a size of zero
/// in `j` bytes and for entries that give the target, byte for byte, of which each is needed.
pub open spec fn is_patch(
    from: Seq<u8>,
    p: Seq<u8>,
    to: Seq<u8>,
    k: int,
    body: Seq<u8>,
    j: int,
    ts: Seq<Triple>,
) -> bool {
    &&& 1 <= k
    &&& 1 + k <= p.len()
    &&& p[0] == 2
    &&& is_size(p.subrange(1, 1 + k), to.len() as int)
    &&& crle::expanded(p.skip(1 + k)) == Some(body)
    &&& 1 <= j <= body.len()
    &&& is_size(body.take(j), 0)
    &&& are_entries(body.skip(j), ts)
    &&& patch::rebuilds(from, to, ts, 0, 0)
    &&& patch::all_needed(to, ts, 0)
}

/// What is accepted as a patch is one.
pub proof fn accepted_patches(from: Seq<u8>, p: Seq<u8>, to: Seq<u8>) -> (parts: (int, Seq<u8>, int, Seq<Triple>))
    requires
        decode::patched(from, p) == Some(to),
    ensures
        is_patch(from, p, to, parts.0, parts.1, parts.2, parts.3),
{
    let tail = p.skip(1);
    let (size, k) = varint::read_size(tail)->0;
    sizes_are_read(tail);
    assert(p.subrange(1, 1 + k as int) =~= tail.take(k as int));
    let body = crle::expanded(p.skip(1 + k as int))->0;
    let (format, j) = varint::read_size(body)->0;
    sizes_are_read(body);
    let s = body.skip(j as int);
    lemma_size(from, s, size);
    let ts = lemma_accepted(from, s, 0, seq![], size, to);
    (k as int, body, j as int, ts)
}

proof fn lemma_read_length(a: Seq<u8>, rest: Seq<u8>)
    requires
        patch::continued(a),
    ensures
        varint::read_uvarint(a + rest) == Some((patch::base128(a) as nat, a.len())),
        patch::base128(a) >= 0,
    decreases a.len(),
{
    let s = a + rest;
    assert(s[0] == a[0]);
    if a.len() == 1 {
        assert(patch::base128(a.skip(1)) == 0);
    } else {
        let b = a.skip(1);
        assert(s.skip(1) =~= b + rest);
        assert(a[0] >= 128);
        assert forall|i: int| 0 <= i < b.len() - 1 implies #[trigger] b[i] >= 128 by {
            assert(b[i] == a[i + 1]);
        }
        assert(b[b.len() - 1] == a[a.len() - 1]);
        lemma_read_length(b, rest);
    }
}

proof fn lemma_read_size(a: Seq<u8>, v: int, rest: Seq<u8>)
    requires
        is_size(a, v),
    ensures
        varint::read_size(a + rest) == Some((v, a.len())),
{
    let s = a + rest;
    assert(s[0] == a[0]);
    if a.len() == 1 {
        assert(patch::base128(a.skip(1)) == 0);
    } else {
        let b = a.skip(1);
        assert(s.skip(1) =~= b + rest);
        assert(a[0] >= 128);
        assert forall|i: int| 0 <= i < b.len() - 1 implies #[trigger] b[i] >= 128 by {
            assert(b[i] == a[i + 1]);
        }
        assert(b[b.len() - 1] == a[a.len() - 1]);
        lemma_read_length(b, rest);
    }
}

/// Segments are accepted whatever number of bytes their lengths take.
pub proof fn segments_are_accepted(a: Seq<u8>, bytes: Seq<u8>, n: nat, c: Seq<u8>, b: u8, rest: Seq<u8>)
    requires
        crle::expanded(rest) is Some,
        is_length(a, bytes.len() as int),
        is_length(c, n as int),
    ensures
        crle::expanded(seq![0u8] + a + bytes + rest) == Some(bytes + crle::expanded(rest)->0),
        crle::expanded(seq![1u8] + c + seq![b] + rest) == Some(Seq::new(n, |i: int| b) + crle::expanded(rest)->0),
{
    let s = seq![0u8] + a + bytes + rest;
    assert(s.skip(1) =~= a + (bytes + rest));
    lemma_read_length(a, bytes + rest);
    let body = s.skip(1 + a.len() as int);
    assert(body =~= bytes + rest);
    assert(body.skip(bytes.len() as int) =~= rest);
    assert(body.take(bytes.len() as int) =~= bytes);
    let t = seq![1u8] + c + seq![b] + rest;
    assert(t.skip(1) =~= c + (seq![b] + rest));
    lemma_read_length(c, seq![b] + rest);
    let tail = t.skip(1 + c.len() as int);
    assert(tail =~= seq![b] + rest);
    assert(tail.skip(1) =~= rest);
    assert(tail[0] == b);
}

proof fn lemma_read_block(a: Seq<u8>, bytes: Seq<u8>, rest: Seq<u8>)
    requires
        is_size(a, bytes.len() as int),
    ensures
        decode::read_block(a + bytes + rest) == Some((bytes, a.len() + bytes.len())),
{
    let s = a + bytes + rest;
    assert(s =~= a + (bytes + rest));
    lemma_read_size(a, bytes.len() as int, bytes + rest);
    assert(s.subrange(a.len() as int, (a.len() + bytes.len()) as int) =~= bytes);
}

proof fn lemma_read_entry(s: Seq<u8>, t: Triple, a: Seq<u8>, b: Seq<u8>, c: Seq<u8>, rest: Seq<u8>)
    requires
        begins_with_entry(s, t, a, b, c, rest),
    ensures
        decode::read_entry(s) matches Some((diff, extra, seek, used)) && diff == t.diff && extra == t.extra && seek
            == t.seek && s.skip(used as int) == rest,
{
    let x = a + t.diff;
    let y = b + t.extra;
    assert(s =~= x + (y + (c + rest)));
    assert(s =~= a + t.diff + (y + (c + rest)));
    lemma_read_block(a, t.diff, y + (c + rest));
    assert(s.skip(x.len() as int) =~= b + t.extra + (c + rest));
    lemma_read_block(b, t.extra, c + rest);
    assert(s.skip((x.len() + y.len()) as int) =~= c + rest);
    lemma_read_size(c, t.seek, rest);
    assert(s.skip((x.len() + y.len() + c.len()) as int) =~= rest);
}

proof fn lemma_entries_apply(from: Seq<u8>, to: Seq<u8>, s: Seq<u8>, ts: Seq<Triple>, cursor: int, written: int)
    requires
        are_entries(s, ts),
        patch::rebuilds(from, to, ts, cursor, written),
        patch::all_needed(to, ts, written),
        0 <= written <= to.len(),
    ensures
        decode::apply_entries(from, s, cursor, to.take(written), to.len() as int) == Some(to),
    decreases ts.len(),
{
    if ts.len() == 0 {
        assert(to.take(written) =~= to);
    } else {
        let t = ts[0];
        let (a, b, c, rest) = choose|a: Seq<u8>, b: Seq<u8>, c: Seq<u8>, rest: Seq<u8>| #[trigger]
            begins_with_entry(s, ts[0], a, b, c, rest) && are_entries(rest, ts.skip(1));
        lemma_read_entry(s, t, a, b, c, rest);
        patch::lemma_first_written(from, to, ts, cursor, written);
        lemma_entries_apply(
            from,
            to,
            rest,
            ts.skip(1),
            cursor + t.diff.len() + t.seek,
            written + t.diff.len() + t.extra.len(),
        );
    }
}

/// Every patch is accepted, and gives its target.
pub proof fn patches_are_accepted(
    from: Seq<u8>,
    p: Seq<u8>,
    to: Seq<u8>,
    k: int,
    body: Seq<u8>,
    j: int,
    ts: Seq<Triple>,
)
    requires
        is_patch(from, p, to, k, body, j, ts),
    ensures
        decode::patched(from, p) == Some(to),
{
    let a = p.subrange(1, 1 + k);
    assert(p.skip(1) =~= a + p.skip(1 + k));
    lemma_read_size(a, to.len() as int, p.skip(1 + k));
    let c = body.take(j);
    assert(body =~= c + body.skip(j));
    lemma_read_size(c, 0, body.skip(j));
    lemma_entries_apply(from, to, body.skip(j), ts, 0, 0);
    assert(to.take(0) =~= seq![]);
}

/// A target has a size that is not negative.
proof fn lemma_size(from: Seq<u8>, s: Seq<u8>, size: int)
    requires
        decode::apply_entries(from, s, 0, seq![], size) is Some,
    ensures
        0 <= size,
{
    if size < 0 {
        decode::lemma_read_entry_len(s);
    }
}

} // verus!
