//! Numbers and addresses on a command line.

use vstd::prelude::*;
use vstd::string::*;
use vstd::utf8;

use crate::crypto;
use crate::endf::target_id_for_env;
use crate::text;
use crate::text::{quote, trim};

verus! {

/// The value of a digit in a radix of 10 or 16.
pub open spec fn digit_value(b: u8, radix: int) -> Option<int> {
    match text::hex_value(b) {
        Some(v) => if v < radix {
            Some(v)
        } else {
            None
        },
        None => None,
    }
}

/// The value of digits, the highest first.
pub open spec fn digits_value(digits: Seq<u8>, radix: int) -> int
    decreases digits.len(),
{
    if digits.len() == 0 {
        0
    } else {
        radix * digits_value(digits.drop_last(), radix) + digit_value(digits.last(), radix)->0
    }
}

/// One or more digits.
pub open spec fn all_digits(s: Seq<u8>, radix: int) -> bool {
    s.len() > 0 && forall|i: int| 0 <= i < s.len() ==> digit_value(#[trigger] s[i], radix) is Some
}

/// Text without a leading plus sign.
pub open spec fn without_sign(s: Seq<u8>) -> Seq<u8> {
    if s.len() > 0 && s[0] == 0x2b {
        s.skip(1)
    } else {
        s
    }
}

/// The number that text stands for: digits, with an optional plus sign before them, and not above `max`.
pub open spec fn unsigned(s: Seq<u8>, radix: int, max: int) -> Option<int> {
    let digits = without_sign(s);
    if all_digits(digits, radix) && digits_value(digits, radix) <= max {
        Some(digits_value(digits, radix))
    } else {
        None
    }
}

/// The number that trimmed text stands for: hexadecimal after `0x`, else decimal.
pub open spec fn number_in(s: Seq<u8>) -> Option<int> {
    if s.len() >= 2 && s[0] == 0x30 && (s[1] == 0x78 || s[1] == 0x58) {
        unsigned(s.skip(2), 16, u32::MAX as int)
    } else {
        unsigned(s, 10, u32::MAX as int)
    }
}

/// The value of one digit.
fn parse_digit(b: u8, radix: u32) -> (v: Option<u32>)
    ensures
        match v {
            Some(v) => digit_value(b, radix as int) == Some(v as int),
            None => digit_value(b, radix as int) is None,
        },
{
    let v: u32 = if 0x30 <= b && b <= 0x39 {
        (b - 0x30) as u32
    } else if 0x41 <= b && b <= 0x46 {
        (b - 0x41 + 10) as u32
    } else if 0x61 <= b && b <= 0x66 {
        (b - 0x61 + 10) as u32
    } else {
        return None;
    };
    if v < radix {
        Some(v)
    } else {
        None
    }
}

proof fn lemma_digits_bound(s: Seq<u8>, radix: int, i: int)
    requires
        radix >= 1,
        forall|k: int| 0 <= k < s.len() ==> digit_value(#[trigger] s[k], radix) is Some,
        0 <= i <= s.len(),
    ensures
        0 <= digits_value(s.take(i), radix) <= digits_value(s, radix),
    decreases s.len(),
{
    if s.len() == 0 {
        assert(s.take(i) =~= s);
    } else {
        let before = s.drop_last();
        assert(digit_value(s[s.len() - 1], radix) is Some);
        assert forall|k: int| 0 <= k < before.len() implies digit_value(
            #[trigger] before[k],
            radix,
        ) is Some by {
            assert(before[k] == s[k]);
        }
        lemma_digits_bound(before, radix, before.len() as int);
        assert(before.take(before.len() as int) =~= before);
        let v = digits_value(before, radix);
        assert(radix * v >= v) by (nonlinear_arith)
            requires
                radix >= 1,
                v >= 0,
        ;
        if i == s.len() {
            assert(s.take(i) =~= s);
        } else {
            lemma_digits_bound(before, radix, i);
            assert(before.take(i) =~= s.take(i));
        }
    }
}

/// The number that text stands for.
fn parse_unsigned(s: &[u8], start: usize, radix: u32, max: u32) -> (r: Option<u32>)
    requires
        start <= s@.len(),
        radix == 10 || radix == 16,
    ensures
        match r {
            Some(v) => unsigned(s@.skip(start as int), radix as int, max as int) == Some(v as int),
            None => unsigned(s@.skip(start as int), radix as int, max as int) is None,
        },
{
    let n: usize = s.len();
    let ghost digits = without_sign(s@.skip(start as int));
    let first: usize = if start < n && s[start] == 0x2b {
        start + 1
    } else {
        start
    };
    assert(digits =~= s@.skip(first as int));
    if first == n {
        return None;
    }
    let mut i: usize = first;
    while i < n
        invariant
            n == s@.len(),
            first <= i <= n,
            digits == s@.skip(first as int),
            digits == without_sign(s@.skip(start as int)),
            forall|k: int|
                0 <= k < i - first ==> digit_value(#[trigger] digits[k], radix as int) is Some,
        decreases n - i,
    {
        assert(s@[i as int] == digits[i - first]);
        if parse_digit(s[i], radix).is_none() {
            return None;
        }
        i = i + 1;
    }
    let mut v: u64 = 0;
    i = first;
    assert(digits.take(0) =~= seq![]);
    while i < n
        invariant
            n == s@.len(),
            first <= i <= n,
            radix == 10 || radix == 16,
            digits == s@.skip(first as int),
            digits == without_sign(s@.skip(start as int)),
            all_digits(digits, radix as int),
            v == digits_value(digits.take(i - first), radix as int),
            v <= max,
        decreases n - i,
    {
        assert(s@[i as int] == digits[i - first]);
        assert(digits.take(i - first + 1).drop_last() =~= digits.take(i - first));
        let d: u32 = match parse_digit(s[i], radix) {
            Some(d) => d,
            None => return None,
        };
        v = if radix == 10 {
            10 * v + d as u64
        } else {
            16 * v + d as u64
        };
        i = i + 1;
        proof {
            lemma_digits_bound(digits, radix as int, i - first);
        }
        if v > max as u64 {
            return None;
        }
    }
    assert(digits.take(n - first) =~= digits);
    Some(v as u32)
}

/// The number that trimmed text stands for: hexadecimal after `0x` or `0X`, else decimal.
pub fn parse_u32(s: &str) -> (r: Option<u32>)
    ensures
        match r {
            Some(v) => number_in(utf8::encode_utf8(s@)) == Some(v as int),
            None => number_in(utf8::encode_utf8(s@)) is None,
        },
{
    let bytes: &[u8] = s.as_bytes();
    assert(bytes@.skip(0) =~= bytes@);
    if bytes.len() >= 2 && bytes[0] == 0x30 && (bytes[1] == 0x78 || bytes[1] == 0x58) {
        parse_unsigned(bytes, 2, 16, u32::MAX)
    } else {
        parse_unsigned(bytes, 0, 10, u32::MAX)
    }
}

/// The number that text stands for, white space around it aside.
pub fn parse_u32_auto(s: &str) -> (r: Option<u32>)
    ensures
        match r {
            Some(v) => number_in(utf8::encode_utf8(text::trimmed(s@))) == Some(v as int),
            None => number_in(utf8::encode_utf8(text::trimmed(s@))) is None,
        },
{
    parse_u32(trim(s))
}

/// What is said of text that is no number.
pub open spec fn no_number_text(s: Seq<char>) -> Seq<char> {
    "not a valid number: "@ + text::quoted(text::trimmed(s))
}

/// What is said of text that is no number.
pub fn no_number_message(s: &str) -> (m: String)
    ensures
        m@ == no_number_text(s@),
{
    let mut m: String = "not a valid number: ".to_owned();
    m.append(quote(trim(s)).as_str());
    m
}

/// The target that is asked for: a number in `id`, or else the one for the environment name `env`. `None` if
/// `id` is no number.
pub open spec fn target_asked_for(id: Option<Seq<char>>, env: Option<Seq<char>>) -> Option<Option<int>> {
    match (id, env) {
        (Some(id), _) => match number_in(utf8::encode_utf8(text::trimmed(id))) {
            Some(v) => Some(Some(v)),
            None => None,
        },
        (None, Some(env)) => Some(
            Some(crate::format::le_u32(crypto::sha256_of(utf8::encode_utf8(env))@, 0)),
        ),
        (None, None) => Some(None),
    }
}

/// The target that is asked for, if one is: a number in `id`, or else the one for the environment name
/// `env`. `None` if `id` is no number.
pub fn target_option(id: Option<&str>, env: Option<&str>) -> (r: Option<Option<u32>>)
    ensures
        ({
            let asked = target_asked_for(
                match id {
                    Some(id) => Some(id@),
                    None => None,
                },
                match env {
                    Some(env) => Some(env@),
                    None => None,
                },
            );
            match r {
                Some(Some(v)) => asked == Some(Some(v as int)),
                Some(None) => asked == Some(None::<int>),
                None => asked is None,
            }
        }),
{
    match (id, env) {
        (Some(id), _) => match parse_u32_auto(id) {
            Some(v) => Some(Some(v)),
            None => None,
        },
        (None, Some(env)) => Some(Some(target_id_for_env(env))),
        (None, None) => Some(None),
    }
}

/// Where the last colon stands.
pub open spec fn last_colon(s: Seq<char>) -> Option<int>
    decreases s.len(),
{
    if s.len() == 0 {
        None
    } else if s.last() == ':' {
        Some(s.len() - 1)
    } else {
        last_colon(s.drop_last())
    }
}

/// The port for an address without one.
pub const DEFAULT_PORT: u16 = 5001;

/// The host and the port that `host[:port]` stands for.
pub open spec fn host_and_port(s: Seq<char>) -> Option<(Seq<char>, int)> {
    match last_colon(s) {
        None => Some((s, DEFAULT_PORT as int)),
        Some(at) => match unsigned(utf8::encode_utf8(s.skip(at + 1)), 10, u16::MAX as int) {
            Some(port) => Some((s.take(at), port)),
            None => None,
        },
    }
}

/// The host and the port that `host[:port]` stands for; `None` if the port is no 16-bit number.
pub fn parse_host_port(s: &str) -> (r: Option<(String, u16)>)
    ensures
        match r {
            Some((host, port)) => host_and_port(s@) == Some((host@, port as int)),
            None => host_and_port(s@) is None,
        },
{
    let n: usize = s.unicode_len();
    let mut end: usize = n;
    assert(s@.take(n as int) =~= s@);
    while end > 0
        invariant
            n == s@.len(),
            end <= n,
            last_colon(s@) == last_colon(s@.take(end as int)),
        decreases end,
    {
        let at: usize = end - 1;
        if s.get_char(at) == ':' {
            assert(last_colon(s@) == Some(at as int));
            let digits: &str = s.substring_char(end, n);
            assert(digits@ =~= s@.skip(at + 1));
            let bytes: &[u8] = digits.as_bytes();
            assert(bytes@.skip(0) =~= bytes@);
            return match parse_unsigned(bytes, 0, 10, u16::MAX as u32) {
                Some(port) => {
                    let host: &str = s.substring_char(0, at);
                    assert(host@ =~= s@.take(at as int));
                    Some((host.to_owned(), port as u16))
                },
                None => None,
            };
        }
        assert(s@.take(end as int).drop_last() =~= s@.take(at as int));
        end = at;
    }
    Some((s.to_owned(), DEFAULT_PORT))
}

} // verus!
