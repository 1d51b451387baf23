//! Conditional run-length compression (`crle`).
//!
//! A stream is a sequence of segments. A *scattered* segment carries its bytes literally; a *repeated*
//! segment carries one byte and a count. Only runs of at least [`CRLE_MIN_REPEAT`] equal bytes become
//! repeated segments; everything between two such runs is one scattered segment.

use vstd::prelude::*;

use crate::encode::varint;
use crate::encode::varint::crle_pack_size;

verus! {

/// Segment kind: the bytes follow literally.
pub const CRLE_SCATTERED: u8 = 0;

/// Segment kind: one byte follows, to be repeated.
pub const CRLE_REPEATED: u8 = 1;

/// The shortest run that is stored as a repeated segment.
pub const CRLE_MIN_REPEAT: usize = 6;

/// The number of bytes equal to `data[o]` in a row, from `o` on.
pub open spec fn run_len(data: Seq<u8>, o: int) -> int
    decreases data.len() - o,
{
    if 0 <= o < data.len() {
        if o + 1 < data.len() && data[o + 1] == data[o] {
            1 + run_len(data, o + 1)
        } else {
            1
        }
    } else {
        0
    }
}

/// The first offset from `start` on at which a long run begins, and the length of that run.
pub open spec fn next_run(data: Seq<u8>, start: int) -> Option<(int, int)>
    decreases data.len() - start,
{
    if 0 <= start < data.len() {
        let l = run_len(data, start);
        if l >= CRLE_MIN_REPEAT {
            Some((start, l))
        } else {
            proof {
                lemma_run_len(data, start);
            }
            next_run(data, start + l)
        }
    } else {
        None
    }
}

/// A scattered segment.
pub open spec fn scattered(bytes: Seq<u8>) -> Seq<u8> {
    seq![CRLE_SCATTERED] + varint::uvarint(bytes.len()) + bytes
}

/// A repeated segment.
pub open spec fn repeated(n: nat, b: u8) -> Seq<u8> {
    seq![CRLE_REPEATED] + varint::uvarint(n) + seq![b]
}

/// The segments for `data[i..]`.
pub open spec fn segments(data: Seq<u8>, i: int) -> Seq<u8>
    decreases data.len() - i,
{
    if 0 <= i < data.len() {
        proof {
            lemma_next_run(data, i);
        }
        match next_run(data, i) {
            None => scattered(data.skip(i)),
            Some((j, l)) => if i < j {
                scattered(data.subrange(i, j)) + segments(data, j)
            } else {
                repeated(l as nat, data[i]) + segments(data, i + l)
            },
        }
    } else {
        seq![]
    }
}

/// The compressed form of `data`. Nothing at all is one empty scattered segment.
pub open spec fn compressed(data: Seq<u8>) -> Seq<u8> {
    if data.len() == 0 {
        scattered(data)
    } else {
        segments(data, 0)
    }
}

/// The bytes that a compressed stream stands for, or `None` if it is malformed.
pub open spec fn expanded(s: Seq<u8>) -> Option<Seq<u8>>
    decreases s.len(),
{
    if s.len() == 0 {
        Some(seq![])
    } else {
        match varint::read_uvarint(s.skip(1)) {
            None => None,
            Some((n, k)) => {
                proof {
                    varint::lemma_read_uvarint_len(s.skip(1));
                }
                let body = s.skip(1 + k as int);
                if s[0] == CRLE_SCATTERED && n <= body.len() {
                    match expanded(body.skip(n as int)) {
                        Some(rest) => Some(body.take(n as int) + rest),
                        None => None,
                    }
                } else if s[0] == CRLE_REPEATED && body.len() >= 1 {
                    match expanded(body.skip(1)) {
                        Some(rest) => Some(Seq::new(n, |i: int| body[0]) + rest),
                        None => None,
                    }
                } else {
                    None
                }
            },
        }
    }
}

/// A run holds one byte throughout and ends where another byte follows, or the data end.
pub proof fn lemma_run_len(data: Seq<u8>, o: int)
    requires
        0 <= o < data.len(),
    ensures
        1 <= run_len(data, o) <= data.len() - o,
        forall|i: int| o <= i < o + run_len(data, o) ==> data[i] == data[o],
        o + run_len(data, o) < data.len() ==> data[o + run_len(data, o)] != data[o],
    decreases data.len() - o,
{
    if o + 1 < data.len() && data[o + 1] == data[o] {
        lemma_run_len(data, o + 1);
    }
}

/// A run is as long as it is found to be when counted from its start.
proof fn lemma_run_len_is(data: Seq<u8>, o: int, l: int)
    requires
        0 <= o < data.len(),
        1 <= l <= data.len() - o,
        forall|i: int| o <= i < o + l ==> data[i] == data[o],
        o + l < data.len() ==> data[o + l] != data[o],
    ensures
        run_len(data, o) == l,
{
    lemma_run_len(data, o);
    let r = run_len(data, o);
    if r < l {
        assert(data[o + r] == data[o]);
    } else if l < r {
        assert(data[o + l] == data[o]);
    }
}

/// The next long run lies within the data and has its full length.
pub proof fn lemma_next_run(data: Seq<u8>, start: int)
    requires
        0 <= start,
    ensures
        next_run(data, start) matches Some((j, l)) ==> {
            &&& start <= j < data.len()
            &&& l == run_len(data, j)
            &&& CRLE_MIN_REPEAT <= l <= data.len() - j
        },
    decreases data.len() - start,
{
    if start < data.len() {
        lemma_run_len(data, start);
        let l = run_len(data, start);
        if l < CRLE_MIN_REPEAT {
            lemma_next_run(data, start + l);
        }
    }
}

/// At `p` a run of [`CRLE_MIN_REPEAT`] equal bytes begins, or goes on.
pub open spec fn repeats(data: Seq<u8>, p: int) -> bool {
    &&& 0 <= p
    &&& p + CRLE_MIN_REPEAT <= data.len()
    &&& forall|i: int| p <= i < p + CRLE_MIN_REPEAT ==> #[trigger] data[i] == data[p]
}

/// The run that is found is long enough, holds one byte throughout, goes on as long as it can, and is the
/// first one; if none is found, there is none.
pub proof fn next_run_is_the_first(data: Seq<u8>, start: int)
    requires
        0 <= start,
    ensures
        match next_run(data, start) {
            Some((o, l)) => {
                &&& start <= o
                &&& l >= CRLE_MIN_REPEAT
                &&& o + l <= data.len()
                &&& forall|i: int| o <= i < o + l ==> #[trigger] data[i] == data[o]
                &&& o + l == data.len() || data[o + l] != data[o]
                &&& forall|p: int| start <= p < o ==> !#[trigger] repeats(data, p)
            },
            None => forall|p: int| start <= p ==> !#[trigger] repeats(data, p),
        },
    decreases data.len() - start,
{
    if start < data.len() {
        let l = run_len(data, start);
        lemma_run_len(data, start);
        if l < CRLE_MIN_REPEAT {
            next_run_is_the_first(data, start + l);
            assert forall|p: int| start <= p < start + l implies !#[trigger] repeats(data, p) by {
                if repeats(data, p) {
                    assert(data[start + l] == data[p]);
                    assert(data[p] == data[start]);
                }
            }
        }
    }
}

pub proof fn lemma_expand_scattered(bytes: Seq<u8>, rest: Seq<u8>)
    requires
        expanded(rest) is Some,
    ensures
        expanded(scattered(bytes) + rest) == Some(bytes + expanded(rest)->0),
{
    let s = scattered(bytes) + rest;
    let u = varint::uvarint(bytes.len());
    varint::lemma_read_uvarint(bytes.len(), bytes + rest);
    varint::lemma_uvarint_len(bytes.len());
    assert(s.skip(1) =~= u + (bytes + rest));
    let body = s.skip(1 + u.len() as int);
    assert(body =~= bytes + rest);
    assert(body.skip(bytes.len() as int) =~= rest);
    assert(body.take(bytes.len() as int) =~= bytes);
}

pub proof fn lemma_expand_repeated(n: nat, b: u8, rest: Seq<u8>)
    requires
        expanded(rest) is Some,
    ensures
        expanded(repeated(n, b) + rest) == Some(Seq::new(n, |i: int| b) + expanded(rest)->0),
{
    let s = repeated(n, b) + rest;
    let u = varint::uvarint(n);
    varint::lemma_read_uvarint(n, seq![b] + rest);
    varint::lemma_uvarint_len(n);
    assert(s.skip(1) =~= u + (seq![b] + rest));
    let body = s.skip(1 + u.len() as int);
    assert(body =~= seq![b] + rest);
    assert(body.skip(1) =~= rest);
    assert(Seq::new(n, |i: int| body[0]) =~= Seq::new(n, |i: int| b));
}

proof fn lemma_expand_segments(data: Seq<u8>, i: int)
    requires
        0 <= i <= data.len(),
    ensures
        expanded(segments(data, i)) == Some(data.skip(i)),
    decreases data.len() - i,
{
    if i < data.len() {
        lemma_next_run(data, i);
        match next_run(data, i) {
            None => {
                let none: Seq<u8> = seq![];
                lemma_expand_scattered(data.skip(i), none);
                assert(scattered(data.skip(i)) + none =~= scattered(data.skip(i)));
                assert(data.skip(i) + none =~= data.skip(i));
            },
            Some((j, l)) => {
                if i < j {
                    lemma_expand_segments(data, j);
                    lemma_expand_scattered(data.subrange(i, j), segments(data, j));
                    assert(data.subrange(i, j) + data.skip(j) =~= data.skip(i));
                } else {
                    lemma_run_len(data, i);
                    lemma_expand_segments(data, i + l);
                    lemma_expand_repeated(l as nat, data[i], segments(data, i + l));
                    assert(Seq::new(l as nat, |k: int| data[i]) + data.skip(i + l) =~= data.skip(
                        i,
                    ));
                }
            },
        }
    } else {
        assert(data.skip(i) =~= seq![]);
    }
}

/// Expanding a compressed stream gives back what was compressed.
pub proof fn crle_round_trip(data: Seq<u8>)
    ensures
        expanded(compressed(data)) == Some(data),
{
    if data.len() == 0 {
        let none: Seq<u8> = seq![];
        lemma_expand_scattered(data, none);
        assert(scattered(data) + none =~= scattered(data));
        assert(data + none =~= data);
    } else {
        lemma_expand_segments(data, 0);
        assert(data.skip(0) =~= data);
    }
}

/// Compresses `data`: runs of at least [`CRLE_MIN_REPEAT`] equal bytes become repeated segments,
/// everything else stays scattered.
pub fn crle_compress(data: &[u8]) -> (out: Vec<u8>)
    ensures
        out@ == compressed(data@),
        expanded(out@) == Some(data@),
{
    proof {
        crle_round_trip(data@);
    }
    let mut out: Vec<u8> = Vec::new();
    let n: usize = data.len();
    if n == 0 {
        emit_scattered(&mut out, data);
        assert(out@ =~= scattered(data@));
        return out;
    }
    let mut i: usize = 0;
    assert(out@ + segments(data@, 0) =~= segments(data@, 0));
    while i < n
        invariant
            n == data@.len(),
            i <= n,
            out@ + segments(data@, i as int) == segments(data@, 0),
        decreases n - i,
    {
        let ghost before = out@;
        match first_run(data, i) {
            None => {
                emit_scattered(&mut out, vstd::slice::slice_subrange(data, i, n));
                assert(data@.subrange(i as int, n as int) =~= data@.skip(i as int));
                i = n;
                assert(out@ + segments(data@, i as int) =~= out@);
            },
            Some((j, rlen)) => {
                if j > i {
                    emit_scattered(&mut out, vstd::slice::slice_subrange(data, i, j));
                    assert(out@ + segments(data@, j as int) =~= before + (scattered(
                        data@.subrange(i as int, j as int),
                    ) + segments(data@, j as int)));
                    i = j;
                } else {
                    let ghost start = i as int;
                    let size = crle_pack_size(rlen as u64);
                    out.push(CRLE_REPEATED);
                    out.extend_from_slice(size.as_slice());
                    out.push(data[i]);
                    i = i + rlen;
                    assert(out@ =~= before + repeated(rlen as nat, data@[start]));
                    assert(out@ + segments(data@, i as int) =~= before + (repeated(
                        rlen as nat,
                        data@[start],
                    ) + segments(data@, i as int)));
                }
            },
        }
    }
    assert(out@ + segments(data@, n as int) =~= out@);
    out
}

fn emit_scattered(out: &mut Vec<u8>, bytes: &[u8])
    ensures
        final(out)@ == old(out)@ + scattered(bytes@),
{
    let size = crle_pack_size(bytes.len() as u64);
    out.push(CRLE_SCATTERED);
    out.extend_from_slice(size.as_slice());
    out.extend_from_slice(bytes);
    assert(out@ =~= old(out)@ + scattered(bytes@));
}

/// The first offset from `start` on at which a run of at least [`CRLE_MIN_REPEAT`] equal bytes begins,
/// and its full length. `None` if `data[start..]` has no such run.
fn first_run(data: &[u8], start: usize) -> (run: Option<(usize, usize)>)
    ensures
        match run {
            Some((j, l)) => {
                &&& next_run(data@, start as int) == Some((j as int, l as int))
                &&& start <= j < data@.len()
                &&& CRLE_MIN_REPEAT <= l <= data@.len() - j
                &&& forall|i: int| j <= i < j + l ==> #[trigger] data@[i] == data@[j as int]
                &&& j + l == data@.len() || data@[j + l] != data@[j as int]
                &&& forall|p: int| start <= p < j ==> !#[trigger] repeats(data@, p)
            },
            None => {
                &&& next_run(data@, start as int) is None
                &&& forall|p: int| start <= p ==> !#[trigger] repeats(data@, p)
            },
        },
{
    let n: usize = data.len();
    let mut o: usize = start;
    while o < n
        invariant
            n == data@.len(),
            start <= o,
            o <= n || o == start,
            next_run(data@, start as int) == next_run(data@, o as int),
        decreases n - o,
    {
        let b: u8 = data[o];
        let mut l: usize = 1;
        while o + l < n && data[o + l] == b
            invariant
                n == data@.len(),
                o < n,
                b == data@[o as int],
                1 <= l <= n - o,
                forall|i: int| o <= i < o + l ==> data@[i] == b,
            decreases n - o - l,
        {
            l = l + 1;
        }
        proof {
            lemma_run_len_is(data@, o as int, l as int);
        }
        if l >= CRLE_MIN_REPEAT {
            proof {
                next_run_is_the_first(data@, start as int);
            }
            return Some((o, l));
        }
        o = o + l;
    }
    proof {
        next_run_is_the_first(data@, start as int);
    }
    None
}

} // verus!
