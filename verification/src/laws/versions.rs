//! Versions as text.

use vstd::prelude::*;
use vstd::utf8;

use crate::endf::version;
use crate::endf::version::VersionError;

verus! {

/// Parts, with a dot between each and the next.
pub open spec fn dotted(parts: Seq<Seq<u8>>) -> Seq<u8>
    decreases parts.len(),
{
    if parts.len() == 0 {
        seq![]
    } else if parts.len() == 1 {
        parts[0]
    } else {
        parts[0] + seq![0x2eu8] + dotted(parts.skip(1))
    }
}

/// The parts of a text are what it is made of between its dots.
pub proof fn parts_of_a_text(s: Seq<u8>)
    ensures
        ({
            let parts = version::components(s);
            &&& parts.len() >= 1
            &&& dotted(parts) == s
            &&& forall|i: int, j: int|
                0 <= i < parts.len() && 0 <= j < parts[i].len() ==> #[trigger] parts[i][j] != 0x2e
        }),
    decreases s.len(),
{
    let parts = version::components(s);
    let end = version::dot_at(s);
    version::lemma_dot_at(s);
    if end < s.len() {
        let rest = s.skip(end + 1);
        let more = version::components(rest);
        parts_of_a_text(rest);
        assert(parts.skip(1) =~= more);
        assert(parts[0] == s.take(end));
        assert(s =~= s.take(end) + seq![0x2eu8] + rest);
        assert forall|i: int, j: int| 0 <= i < parts.len() && 0 <= j < parts[i].len() implies #[trigger] parts[i][j]
            != 0x2e by {
            if i > 0 {
                assert(parts[i] == more[i - 1]);
                assert(more[i - 1][j] != 0x2e);
            } else {
                assert(s[j] != 0x2e);
            }
        }
    } else {
        assert forall|i: int, j: int| 0 <= i < parts.len() && 0 <= j < parts[i].len() implies #[trigger] parts[i][j]
            != 0x2e by {
            assert(parts[0] == s);
            assert(s[j] != 0x2e);
        }
    }
}

/// What decimal digits stand for.
pub open spec fn tens(s: Seq<u8>) -> int
    decreases s.len(),
{
    if s.len() == 0 {
        0
    } else {
        10 * tens(s.drop_last()) + (s.last() - 48)
    }
}

/// One or more decimal digits.
pub open spec fn is_decimal(s: Seq<u8>) -> bool {
    &&& s.len() > 0
    &&& forall|i: int| 0 <= i < s.len() ==> 48 <= #[trigger] s[i] <= 57
}

/// A part is a number of 32 bits.
pub open spec fn is_good(s: Seq<u8>) -> bool {
    is_decimal(s) && tens(s) <= 0xFFFF_FFFF
}

/// What part `i` of the first four adds to a version: 255 if it is larger, zero if there is none.
pub open spec fn byte_of(parts: Seq<Seq<u8>>, i: int) -> int {
    if i >= parts.len() {
        0
    } else if tens(parts[i]) > 255 {
        255
    } else {
        tens(parts[i])
    }
}

proof fn lemma_tens(s: Seq<u8>)
    ensures
        version::number(s) == tens(s),
    decreases s.len(),
{
    if s.len() > 0 {
        lemma_tens(s.drop_last());
    }
}

proof fn lemma_part(s: Seq<u8>)
    ensures
        version::component_error(s) is None <==> is_good(s),
        version::component_error(s) == Some(VersionError::Bad) <==> !is_decimal(s),
        version::number(s) == tens(s),
{
    lemma_tens(s);
    if version::is_number(s) {
        assert forall|i: int| 0 <= i < s.len() implies 48 <= #[trigger] s[i] <= 57 by {
            assert(version::is_digit(s[i]));
        }
    }
    if is_decimal(s) {
        assert forall|i: int| 0 <= i < s.len() implies version::is_digit(#[trigger] s[i]) by {}
    }
}

/// Part `k` is the first that is no number of 32 bits.
pub open spec fn first_bad(parts: Seq<Seq<u8>>, k: int) -> bool {
    &&& 0 <= k < parts.len()
    &&& !is_good(parts[k])
    &&& forall|j: int| 0 <= j < k ==> is_good(#[trigger] parts[j])
}

proof fn lemma_first_error(parts: Seq<Seq<u8>>)
    ensures
        match version::first_error(parts) {
            None => forall|i: int| 0 <= i < parts.len() ==> is_good(#[trigger] parts[i]),
            Some(e) => exists|k: int| #[trigger]
                first_bad(parts, k) && (e == VersionError::Bad <==> !is_decimal(parts[k])),
        },
    decreases parts.len(),
{
    if parts.len() > 0 {
        let rest = parts.skip(1);
        lemma_part(parts[0]);
        lemma_first_error(rest);
        if version::component_error(parts[0]) is Some {
            assert(first_bad(parts, 0));
        } else {
            match version::first_error(rest) {
                None => {
                    assert forall|i: int| 0 <= i < parts.len() implies is_good(#[trigger] parts[i]) by {
                        if i > 0 {
                            assert(rest[i - 1] == parts[i]);
                        }
                    }
                },
                Some(e) => {
                    let k = choose|k: int| #[trigger]
                        first_bad(rest, k) && (e == VersionError::Bad <==> !is_decimal(rest[k]));
                    assert(rest[k] == parts[k + 1]);
                    assert forall|j: int| 0 <= j < k + 1 implies is_good(#[trigger] parts[j]) by {
                        if j > 0 {
                            assert(rest[j - 1] == parts[j]);
                        }
                    }
                    assert(first_bad(parts, k + 1));
                },
            }
        }
    }
}

/// The first four parts of a text, or all where there are fewer.
pub open spec fn first_four(s: Seq<u8>) -> Seq<Seq<u8>> {
    let parts = version::components(s);
    parts.take(if parts.len() < 4 {
        parts.len() as int
    } else {
        4
    })
}

/// What packing a text gives. If its first four parts are numbers of 32 bits, they give the bytes of the version,
/// the first the highest, each 255 if it is larger, and zero where there is no part. Else the first that is none
/// is the fault: it is bad if it is not made of digits, and else too large.
pub open spec fn packs(s: Seq<u8>, r: Result<u32, VersionError>) -> bool {
    let parts = first_four(s);
    match r {
        Ok(v) => {
            &&& forall|i: int| 0 <= i < parts.len() ==> is_good(#[trigger] parts[i])
            &&& v as int / 16777216 == byte_of(parts, 0)
            &&& v as int / 65536 % 256 == byte_of(parts, 1)
            &&& v as int / 256 % 256 == byte_of(parts, 2)
            &&& v as int % 256 == byte_of(parts, 3)
        },
        Err(e) => exists|k: int| #[trigger]
            first_bad(parts, k) && (e == VersionError::Bad <==> !is_decimal(parts[k])),
    }
}

proof fn lemma_tens_bounds(s: Seq<u8>)
    requires
        forall|i: int| 0 <= i < s.len() ==> 48 <= #[trigger] s[i] <= 57,
    ensures
        0 <= tens(s),
    decreases s.len(),
{
    if s.len() > 0 {
        assert(48 <= s[s.len() - 1] <= 57);
        lemma_tens_bounds(s.drop_last());
    }
}

proof fn lemma_byte_of(parts: Seq<Seq<u8>>, i: int)
    requires
        0 <= i,
        forall|k: int| 0 <= k < parts.len() ==> is_good(#[trigger] parts[k]),
    ensures
        0 <= byte_of(parts, i) <= 255,
        version::clamped(parts, i) == byte_of(parts, i),
{
    if i < parts.len() {
        assert(is_good(parts[i]));
        lemma_tens_bounds(parts[i]);
        lemma_tens(parts[i]);
    }
}

proof fn lemma_bytes(a: int, b: int, c: int, d: int, v: u32)
    requires
        0 <= a <= 255,
        0 <= b <= 255,
        0 <= c <= 255,
        0 <= d <= 255,
        v as int == 16777216 * a + 65536 * b + 256 * c + d,
    ensures
        v as int / 16777216 == a,
        v as int / 65536 % 256 == b,
        v as int / 256 % 256 == c,
        v as int % 256 == d,
{
    assert(v as int / 65536 == 256 * a + b);
    assert(v as int / 256 == 65536 * a + 256 * b + c);
}

/// Every text is packed so.
pub proof fn packing(s: Seq<u8>)
    ensures
        packs(s, version::packed(s)),
{
    let parts = first_four(s);
    assert(parts =~= version::leading(s));
    lemma_first_error(parts);
    if version::first_error(parts) is None {
        lemma_byte_of(parts, 0);
        lemma_byte_of(parts, 1);
        lemma_byte_of(parts, 2);
        lemma_byte_of(parts, 3);
        let (a, b, c, d) = (byte_of(parts, 0), byte_of(parts, 1), byte_of(parts, 2), byte_of(parts, 3));
        lemma_bytes(a, b, c, d, (16777216 * a + 65536 * b + 256 * c + d) as u32);
    }
}

/// What follows the fourth part has no say.
pub proof fn four_parts_count(s: Seq<u8>, t: Seq<u8>)
    requires
        first_four(s) == first_four(t),
    ensures
        version::packed(s) == version::packed(t),
{
    assert(first_four(s) =~= version::leading(s));
    assert(first_four(t) =~= version::leading(t));
}

/// A version of which the low byte is zero is read back from its text.
pub proof fn versions_are_read_back(v: u32)
    requires
        v % 256 == 0,
    ensures
        version::packed(utf8::encode_utf8(version::version_text(v))) == Ok::<u32, VersionError>(v),
{
    version::version_round_trip(v);
}

} // verus!
