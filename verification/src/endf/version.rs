//! Dotted firmware versions, packed into a u32.

use vstd::prelude::*;
use vstd::string::*;
use vstd::utf8;

use crate::laws::notation;
use crate::laws::versions;
use crate::text;
use crate::text::{push_decimal, quote};

verus! {

/// Why a text is not a version.
#[derive(Clone, Copy, PartialEq, Eq, Debug, Structural)]
pub enum VersionError {
    /// A component is empty or not a number.
    Bad,
    /// A component does not fit a u32.
    TooLarge,
}

impl VersionError {
    /// The text of [`VersionError::message`].
    pub open spec fn text(self, version: Seq<char>) -> Seq<char> {
        match self {
            VersionError::Bad => "bad version: "@ + text::quoted(version),
            VersionError::TooLarge => "version component too large: "@ + text::quoted(version),
        }
    }

    /// The error about the text `version`, in words.
    pub fn message(&self, version: &str) -> (s: String)
        ensures
            s@ == self.text(version@),
    {
        let mut s: String = match self {
            VersionError::Bad => "bad version: ".to_owned(),
            VersionError::TooLarge => "version component too large: ".to_owned(),
        };
        s.append(quote(version).as_str());
        s
    }
}

/// Where the first dot stands; the length if there is none.
pub open spec fn dot_at(s: Seq<u8>) -> int
    decreases s.len(),
{
    if s.len() == 0 || s[0] == 0x2e {
        0
    } else {
        1 + dot_at(s.skip(1))
    }
}

pub proof fn lemma_dot_at(s: Seq<u8>)
    ensures
        0 <= dot_at(s) <= s.len(),
        dot_at(s) < s.len() ==> s[dot_at(s)] == 0x2e,
        forall|i: int| 0 <= i < dot_at(s) ==> #[trigger] s[i] != 0x2e,
    decreases s.len(),
{
    if s.len() > 0 && s[0] != 0x2e {
        let rest = s.skip(1);
        lemma_dot_at(rest);
        assert forall|i: int| 0 <= i < dot_at(s) implies #[trigger] s[i] != 0x2e by {
            if i > 0 {
                assert(rest[i - 1] == s[i]);
            }
        }
    }
}

/// The parts between the dots.
pub open spec fn components(s: Seq<u8>) -> Seq<Seq<u8>>
    decreases s.len(),
{
    proof {
        lemma_dot_at(s);
    }
    let end = dot_at(s);
    if end >= s.len() {
        seq![s]
    } else {
        seq![s.take(end)] + components(s.skip(end + 1))
    }
}

/// A decimal digit.
pub open spec fn is_digit(b: u8) -> bool {
    0x30 <= b <= 0x39
}

/// One or more decimal digits.
pub open spec fn is_number(s: Seq<u8>) -> bool {
    s.len() > 0 && forall|i: int| 0 <= i < s.len() ==> is_digit(#[trigger] s[i])
}

/// The value of decimal digits.
pub open spec fn number(s: Seq<u8>) -> int
    decreases s.len(),
{
    if s.len() == 0 {
        0
    } else {
        10 * number(s.drop_last()) + (s.last() - 0x30)
    }
}

/// What is wrong with a component.
pub open spec fn component_error(s: Seq<u8>) -> Option<VersionError> {
    if !is_number(s) {
        Some(VersionError::Bad)
    } else if number(s) > u32::MAX {
        Some(VersionError::TooLarge)
    } else {
        None
    }
}

/// The first thing that is wrong with a sequence of components.
pub open spec fn first_error(parts: Seq<Seq<u8>>) -> Option<VersionError>
    decreases parts.len(),
{
    if parts.len() == 0 {
        None
    } else if component_error(parts[0]) is Some {
        component_error(parts[0])
    } else {
        first_error(parts.skip(1))
    }
}

/// Component `i`, clamped to a byte; zero if there is no such component.
pub open spec fn clamped(parts: Seq<Seq<u8>>, i: int) -> int {
    if i >= parts.len() {
        0
    } else if number(parts[i]) > 0xFF {
        0xFF
    } else {
        number(parts[i])
    }
}

/// The first four components, or all where there are fewer.
pub open spec fn leading(s: Seq<u8>) -> Seq<Seq<u8>> {
    let parts = components(s);
    if parts.len() > 4 {
        parts.take(4)
    } else {
        parts
    }
}

/// The packed version that `a.b.c[.d]` stands for: each of the first four components gives a byte,
/// to which it is clamped, the first one the highest. What follows the fourth component is not looked at.
pub open spec fn packed(s: Seq<u8>) -> Result<u32, VersionError> {
    let parts = leading(s);
    match first_error(parts) {
        Some(e) => Err(e),
        None => Ok(
            (0x100_0000 * clamped(parts, 0) + 0x1_0000 * clamped(parts, 1) + 0x100 * clamped(parts, 2)
                + clamped(parts, 3)) as u32,
        ),
    }
}

/// A packed version in words: `major.minor.patch`.
pub open spec fn version_text(v: u32) -> Seq<char> {
    text::decimal((v / 0x100_0000) as nat) + seq!['.'] + text::decimal(
        (v / 0x1_0000 % 0x100) as nat,
    ) + seq!['.'] + text::decimal((v / 0x100 % 0x100) as nat)
}

proof fn lemma_number_bounds(s: Seq<u8>, i: int)
    requires
        forall|k: int| 0 <= k < s.len() ==> is_digit(#[trigger] s[k]),
        0 <= i <= s.len(),
    ensures
        0 <= number(s.take(i)) <= number(s),
    decreases s.len(),
{
    if i == s.len() {
        assert(s.take(i) =~= s);
        if s.len() > 0 {
            assert(is_digit(s[s.len() - 1]));
            lemma_number_bounds(s.drop_last(), s.len() - 1);
        }
    } else {
        assert(is_digit(s[s.len() - 1]));
        lemma_number_bounds(s.drop_last(), i);
        assert(s.drop_last().take(i) =~= s.take(i));
    }
}

proof fn lemma_first_error_found(good: Seq<Seq<u8>>, bad: Seq<u8>, rest: Seq<Seq<u8>>)
    requires
        first_error(good) is None,
        component_error(bad) is Some,
    ensures
        first_error(good + seq![bad] + rest) == component_error(bad),
    decreases good.len(),
{
    let all = good + seq![bad] + rest;
    if good.len() == 0 {
        assert(all[0] == bad);
    } else {
        lemma_first_error_found(good.skip(1), bad, rest);
        assert(all[0] == good[0]);
        assert(all.skip(1) =~= good.skip(1) + seq![bad] + rest);
    }
}

proof fn lemma_first_error_push(good: Seq<Seq<u8>>, next: Seq<u8>)
    requires
        first_error(good) is None,
        component_error(next) is None,
    ensures
        first_error(good.push(next)) is None,
    decreases good.len(),
{
    let all = good.push(next);
    if good.len() > 0 {
        lemma_first_error_push(good.skip(1), next);
        assert(all.skip(1) =~= good.skip(1).push(next));
    } else {
        assert(first_error(all.skip(1)) is None);
    }
}

/// The value of a component.
fn parse_component(s: &[u8]) -> (r: Result<u32, VersionError>)
    ensures
        match r {
            Ok(v) => component_error(s@) is None && v == number(s@),
            Err(e) => component_error(s@) == Some(e),
        },
{
    let n: usize = s.len();
    if n == 0 {
        return Err(VersionError::Bad);
    }
    let mut i: usize = 0;
    while i < n
        invariant
            n == s@.len(),
            i <= n,
            forall|k: int| 0 <= k < i ==> is_digit(#[trigger] s@[k]),
        decreases n - i,
    {
        if s[i] < 0x30 || s[i] > 0x39 {
            assert(!is_digit(s@[i as int]));
            return Err(VersionError::Bad);
        }
        i = i + 1;
    }
    let mut v: u64 = 0;
    i = 0;
    while i < n
        invariant
            n == s@.len(),
            i <= n,
            is_number(s@),
            v == number(s@.take(i as int)),
            v <= u32::MAX,
        decreases n - i,
    {
        assert(is_digit(s@[i as int]));
        assert(s@.take(i + 1).drop_last() =~= s@.take(i as int));
        v = 10 * v + (s[i] - 0x30) as u64;
        i = i + 1;
        proof {
            lemma_number_bounds(s@, i as int);
        }
        if v > u32::MAX as u64 {
            return Err(VersionError::TooLarge);
        }
    }
    assert(s@.take(n as int) =~= s@);
    Ok(v as u32)
}

/// Where the component that starts at `start` ends.
fn component_end(s: &[u8], start: usize) -> (end: usize)
    requires
        start <= s@.len(),
    ensures
        start <= end <= s@.len(),
        end == start + dot_at(s@.skip(start as int)),
{
    let n: usize = s.len();
    let mut end: usize = start;
    while end < n && s[end] != 0x2e
        invariant
            n == s@.len(),
            start <= end <= n,
            dot_at(s@.skip(start as int)) == end - start + dot_at(s@.skip(end as int)),
        decreases n - end,
    {
        assert(s@.skip(end as int).skip(1) =~= s@.skip(end + 1));
        end = end + 1;
    }
    end
}

/// Component `i`, clamped to a byte; zero if there is no such component.
fn component_byte(parts: &Vec<u32>, i: usize) -> (v: u32)
    ensures
        v == if i >= parts@.len() {
            0
        } else if parts@[i as int] > 0xFF {
            0xFF
        } else {
            parts@[i as int]
        },
{
    if i >= parts.len() {
        0
    } else if parts[i] > 0xFF {
        0xFF
    } else {
        parts[i]
    }
}

/// Packs `"a.b.c[.d]"` into a u32: `a<<24 | b<<16 | c<<8 | d`, each component clamped to a byte.
pub fn pack_version(s: &str) -> (r: Result<u32, VersionError>)
    ensures
        r == packed(utf8::encode_utf8(s@)),
        versions::packs(utf8::encode_utf8(s@), r),
{
    proof {
        versions::packing(utf8::encode_utf8(s@));
    }
    let bytes: &[u8] = s.as_bytes();
    let n: usize = bytes.len();
    let ghost all = components(bytes@);
    let mut parts: Vec<u32> = Vec::new();
    let mut start: usize = 0;
    let mut more: bool = true;
    proof {
        assert(bytes@.skip(0) =~= bytes@);
        assert(all.take(0) + components(bytes@.skip(0)) =~= all);
    }
    while more && parts.len() < 4
        invariant
            bytes@ == utf8::encode_utf8(s@),
            n == bytes@.len(),
            start <= n,
            all == components(bytes@),
            parts@.len() <= 4,
            parts@.len() <= all.len(),
            more ==> all == all.take(parts@.len() as int) + components(bytes@.skip(start as int)),
            !more ==> all.len() == parts@.len(),
            first_error(all.take(parts@.len() as int)) is None,
            forall|i: int| 0 <= i < parts@.len() ==> #[trigger] parts@[i] == number(all[i]),
        decreases 4 - parts@.len(),
    {
        let ghost k = parts@.len() as int;
        let ghost rest = bytes@.skip(start as int);
        let ghost tail = components(rest);
        let end: usize = component_end(bytes, start);
        let piece: &[u8] = vstd::slice::slice_subrange(bytes, start, end);
        assert(piece@ =~= rest.take(end - start));
        proof {
            lemma_dot_at(rest);
            if end == n {
                assert(piece@ =~= rest);
            }
            assert(tail[0] == piece@);
            assert(all[k] == tail[0]);
            assert(all.take(k + 1) =~= all.take(k).push(piece@));
        }
        match parse_component(piece) {
            Ok(v) => {
                proof {
                    lemma_first_error_push(all.take(k), piece@);
                }
                parts.push(v);
            },
            Err(e) => {
                proof {
                    let shown = leading(bytes@);
                    lemma_first_error_found(all.take(k), piece@, shown.skip(k + 1));
                    assert(shown =~= all.take(k) + seq![piece@] + shown.skip(k + 1));
                    versions::packing(bytes@);
                }
                return Err(e);
            },
        }
        if end == n {
            more = false;
            assert(tail.len() == 1);
        } else {
            start = end + 1;
            proof {
                assert(bytes@.skip(start as int) =~= rest.skip(dot_at(rest) + 1));
                assert(all =~= all.take(k + 1) + components(bytes@.skip(start as int)));
            }
        }
    }
    let ghost shown = leading(bytes@);
    assert(shown =~= all.take(parts@.len() as int));
    let a: u32 = component_byte(&parts, 0);
    let b: u32 = component_byte(&parts, 1);
    let c: u32 = component_byte(&parts, 2);
    let d: u32 = component_byte(&parts, 3);
    Ok(0x100_0000 * a + 0x1_0000 * b + 0x100 * c + d)
}

/// Renders a packed version as `"major.minor.patch"` (the low byte is not shown).
pub fn version_str(v: u32) -> (s: String)
    ensures
        s@ == version_text(v),
        notation::is_dotted(s@, v as int / 16777216, v as int / 65536 % 256, v as int / 256 % 256),
{
    proof {
        notation::version_notation(v);
    }
    let mut s = String::new();
    push_decimal(&mut s, (v / 0x100_0000) as u64);
    s.append(".");
    push_decimal(&mut s, (v / 0x1_0000 % 0x100) as u64);
    s.append(".");
    push_decimal(&mut s, (v / 0x100 % 0x100) as u64);
    proof {
        reveal_strlit(".");
        assert("."@ =~= seq!['.']);
        assert(s@ =~= version_text(v));
    }
    s
}

/// The bytes of a text of ASCII characters.
pub open spec fn ascii(chars: Seq<char>) -> Seq<u8> {
    Seq::new(chars.len(), |i: int| chars[i] as u8)
}

proof fn lemma_decimal(n: nat)
    ensures
        utf8::is_ascii_chars(text::decimal(n)),
        is_number(ascii(text::decimal(n))),
        number(ascii(text::decimal(n))) == n,
    decreases n,
{
    let chars = text::decimal(n);
    let bytes = ascii(chars);
    if n < 10 {
        assert(bytes[0] == 48 + n);
        assert(number(bytes.drop_last()) == 0);
    } else {
        let before = text::decimal(n / 10);
        lemma_decimal(n / 10);
        assert(chars == before.push(text::digit_char((n % 10) as int, false)));
        assert(bytes.drop_last() =~= ascii(before));
        assert(bytes.last() == 48 + n % 10);
        assert forall|i: int| 0 <= i < bytes.len() implies is_digit(#[trigger] bytes[i]) by {
            if i < before.len() {
                assert(is_digit(ascii(before)[i]));
            }
        }
        assert(utf8::is_ascii_chars(before));
    }
}

proof fn lemma_components(first: Seq<u8>, rest: Seq<u8>)
    requires
        is_number(first),
    ensures
        components(first) == seq![first],
        components(first.push(0x2e) + rest) == seq![first] + components(rest),
{
    let s = first.push(0x2e) + rest;
    lemma_dot_at(first);
    lemma_dot_at(s);
    if dot_at(first) < first.len() {
        assert(is_digit(first[dot_at(first)]));
    }
    if dot_at(s) < first.len() {
        assert(is_digit(first[dot_at(s)]));
    } else if dot_at(s) > first.len() {
        assert(s[first.len() as int] == 0x2e);
    }
    assert(s.take(first.len() as int) =~= first);
    assert(s.skip(first.len() as int + 1) =~= rest);
}

/// Packing the text of a version gives the version back, but for the low byte, which the text does not
/// show.
pub proof fn version_round_trip(v: u32)
    ensures
        packed(utf8::encode_utf8(version_text(v))) == Ok::<u32, VersionError>((v - v % 0x100) as u32),
{
    let (x, y, z) = (
        (v / 0x100_0000) as nat,
        (v / 0x1_0000 % 0x100) as nat,
        (v / 0x100 % 0x100) as nat,
    );
    let (a, b, c) = (ascii(text::decimal(x)), ascii(text::decimal(y)), ascii(text::decimal(z)));
    lemma_decimal(x);
    lemma_decimal(y);
    lemma_decimal(z);
    utf8::is_ascii_chars_encode_utf8(version_text(v));
    let s = a.push(0x2e) + (b.push(0x2e) + c);
    assert(utf8::encode_utf8(version_text(v)) =~= s);
    lemma_components(c, seq![]);
    lemma_components(b, c);
    lemma_components(a, b.push(0x2e) + c);
    let parts = seq![a, b, c];
    assert(components(s) =~= parts);
    assert(seq![].push(a) =~= seq![a]);
    assert(seq![a].push(b) =~= seq![a, b]);
    assert(seq![a, b].push(c) =~= parts);
    lemma_first_error_push(seq![], a);
    lemma_first_error_push(seq![a], b);
    lemma_first_error_push(seq![a, b], c);
    assert(0x100_0000 * x + 0x1_0000 * y + 0x100 * z == v - v % 0x100) by (nonlinear_arith)
        requires
            x == v / 0x100_0000,
            y == v / 0x1_0000 % 0x100,
            z == v / 0x100 % 0x100,
            v <= 0xFFFF_FFFF,
    ;
}

} // verus!
