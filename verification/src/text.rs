//! Text: numbers, hexadecimal bytes, and the parts of the standard library that read text.

use vstd::prelude::*;
use vstd::string::*;
use vstd::utf8;

verus! {

/// The digit for a value below 16.
pub open spec fn digit_char(d: int, upper: bool) -> char {
    if d < 10 {
        (48 + d) as u8 as char
    } else if upper {
        (55 + d) as u8 as char
    } else {
        (87 + d) as u8 as char
    }
}

/// The decimal notation of `n`.
pub open spec fn decimal(n: nat) -> Seq<char>
    decreases n,
{
    if n < 10 {
        seq![digit_char(n as int, false)]
    } else {
        decimal(n / 10).push(digit_char((n % 10) as int, false))
    }
}

/// The last `width` hexadecimal digits of `n`, with leading zeros.
pub open spec fn hexadecimal(n: nat, width: nat, upper: bool) -> Seq<char>
    decreases width,
{
    if width == 0 {
        seq![]
    } else {
        hexadecimal(n / 16, (width - 1) as nat, upper).push(digit_char((n % 16) as int, upper))
    }
}

/// What each string says.
pub open spec fn texts(strings: Seq<String>) -> Seq<Seq<char>> {
    Seq::new(strings.len(), |i: int| strings[i]@)
}

/// `s` begins with `prefix`.
pub open spec fn begins_with(s: Seq<char>, prefix: Seq<char>) -> bool {
    s.len() >= prefix.len() && s.take(prefix.len() as int) == prefix
}

/// Whether `s` begins with `prefix`.
pub fn starts_with(s: &str, prefix: &str) -> (r: bool)
    ensures
        r == begins_with(s@, prefix@),
{
    let n: usize = prefix.unicode_len();
    if s.unicode_len() < n {
        return false;
    }
    let mut i: usize = 0;
    while i < n
        invariant
            n == prefix@.len(),
            n <= s@.len(),
            i <= n,
            forall|k: int| 0 <= k < i ==> s@[k] == prefix@[k],
        decreases n - i,
    {
        if s.get_char(i) != prefix.get_char(i) {
            assert(s@.take(n as int)[i as int] != prefix@[i as int]);
            return false;
        }
        i = i + 1;
    }
    assert(s@.take(n as int) =~= prefix@);
    true
}

/// One digit.
fn digit(d: u8, upper: bool) -> (s: &'static str)
    requires
        d < 16,
    ensures
        s@ == seq![digit_char(d as int, upper)],
{
    proof {
        reveal_strlit("0");
        reveal_strlit("1");
        reveal_strlit("2");
        reveal_strlit("3");
        reveal_strlit("4");
        reveal_strlit("5");
        reveal_strlit("6");
        reveal_strlit("7");
        reveal_strlit("8");
        reveal_strlit("9");
        reveal_strlit("A");
        reveal_strlit("B");
        reveal_strlit("C");
        reveal_strlit("D");
        reveal_strlit("E");
        reveal_strlit("F");
        reveal_strlit("a");
        reveal_strlit("b");
        reveal_strlit("c");
        reveal_strlit("d");
        reveal_strlit("e");
        reveal_strlit("f");
    }
    let s: &'static str = match d {
        0 => "0",
        1 => "1",
        2 => "2",
        3 => "3",
        4 => "4",
        5 => "5",
        6 => "6",
        7 => "7",
        8 => "8",
        9 => "9",
        10 => if upper { "A" } else { "a" },
        11 => if upper { "B" } else { "b" },
        12 => if upper { "C" } else { "c" },
        13 => if upper { "D" } else { "d" },
        14 => if upper { "E" } else { "e" },
        _ => if upper { "F" } else { "f" },
    };
    assert(s@ =~= seq![digit_char(d as int, upper)]);
    s
}

/// Appends the decimal notation of `n`.
pub fn push_decimal(s: &mut String, n: u64)
    ensures
        final(s)@ == old(s)@ + decimal(n as nat),
    decreases n,
{
    if n >= 10 {
        push_decimal(s, n / 10);
    }
    s.append(digit((n % 10) as u8, false));
    assert(s@ =~= old(s)@ + decimal(n as nat));
}

/// Appends the last `width` hexadecimal digits of `n`.
pub fn push_hex(s: &mut String, n: u32, width: u8, upper: bool)
    ensures
        final(s)@ == old(s)@ + hexadecimal(n as nat, width as nat, upper),
    decreases width,
{
    if width > 0 {
        push_hex(s, n / 16, width - 1, upper);
        s.append(digit((n % 16) as u8, upper));
    }
    assert(s@ =~= old(s)@ + hexadecimal(n as nat, width as nat, upper));
}

/// The value of a hexadecimal digit, of either case.
pub open spec fn hex_value(c: u8) -> Option<int> {
    if 0x30 <= c <= 0x39 {
        Some(c - 0x30)
    } else if 0x41 <= c <= 0x46 {
        Some(c - 0x41 + 10)
    } else if 0x61 <= c <= 0x66 {
        Some(c - 0x61 + 10)
    } else {
        None
    }
}

/// Two hexadecimal digits per byte, the high one first.
pub open spec fn is_hex(s: Seq<u8>) -> bool {
    &&& s.len() % 2 == 0
    &&& forall|i: int| 0 <= i < s.len() ==> hex_value(#[trigger] s[i]) is Some
}

/// The bytes that hexadecimal digits stand for.
pub open spec fn hex_bytes(s: Seq<u8>) -> Seq<u8> {
    Seq::new(
        s.len() / 2,
        |i: int| (16 * hex_value(s[2 * i])->0 + hex_value(s[2 * i + 1])->0) as u8,
    )
}

/// The hexadecimal digits of a byte string, upper case, two per byte.
pub open spec fn hex_upper(bytes: Seq<u8>) -> Seq<char> {
    Seq::new(
        2 * bytes.len(),
        |i: int|
            digit_char(
                if i % 2 == 0 {
                    bytes[i / 2] as int / 16
                } else {
                    bytes[i / 2] as int % 16
                },
                true,
            ),
    )
}

/// Writes bytes in hexadecimal, with `hex::encode_upper`: two upper-case digits per byte, the high one
/// first.
#[verifier::external_body]
pub(crate) fn hex_encode_upper(bytes: &[u8]) -> (s: String)
    ensures
        s@ == hex_upper(bytes@),
{
    hex::encode_upper(bytes)
}

/// Reads hexadecimal, with `hex::decode`: the bytes if the text is made of pairs of digits of either case,
/// `None` if it is not.
#[verifier::external_body]
pub(crate) fn hex_decode(text: &str) -> (r: Option<Vec<u8>>)
    ensures
        r is Some <==> is_hex(text.spec_bytes()),
        r matches Some(bytes) ==> bytes@ == hex_bytes(text.spec_bytes()),
{
    hex::decode(text).ok()
}

/// The text that bytes encode, with `std::str::from_utf8`: `None` if they are not valid UTF-8.
#[verifier::external_body]
pub(crate) fn utf8_text(bytes: &[u8]) -> (r: Option<&str>)
    ensures
        r is Some <==> utf8::valid_utf8(bytes@),
        r matches Some(s) ==> s@ == utf8::decode_utf8(bytes@),
{
    std::str::from_utf8(bytes).ok()
}

/// A blank, tab or line end.
pub open spec fn is_blank(c: char) -> bool {
    c == ' ' || c == '\t' || c == '\n' || c == '\r'
}

/// A visible ASCII character.
pub open spec fn is_visible(c: char) -> bool {
    '!' <= c <= '~'
}

/// What [`trim`] leaves of a text.
pub uninterp spec fn trimmed(s: Seq<char>) -> Seq<char>;

/// Removes white space at both ends, with `str::trim`. Its contract says that the result depends on the
/// text alone, and that blanks, tabs and line ends go while a visible ASCII character stays; which other
/// characters are white space is left unsaid.
#[verifier::external_body]
pub(crate) fn trim(s: &str) -> (r: &str)
    ensures
        r@ == trimmed(s@),
        forall|i: int, j: int|
            #![trigger s@.subrange(i, j)]
            0 <= i <= j <= s@.len() && (forall|k: int| 0 <= k < i ==> is_blank(#[trigger] s@[k])) && (
            forall|k: int| j <= k < s@.len() ==> is_blank(#[trigger] s@[k])) && (i < j ==> is_visible(
                s@[i],
            ) && is_visible(s@[j - 1])) ==> r@ == s@.subrange(i, j),
{
    s.trim()
}

/// A character that stands for itself between double quotes.
pub open spec fn is_plain(c: char) -> bool {
    ' ' <= c <= '~' && c != '"' && c != '\\'
}

/// What [`quote`] makes of a text.
pub uninterp spec fn quoted(s: Seq<char>) -> Seq<char>;

/// A text in double quotes, with the `Debug` format of `str` of the standard library. Its contract says that
/// the result depends on the text alone, and that printable ASCII characters other than the double quote and
/// the backslash stand for themselves; how others are escaped is left unsaid.
#[verifier::external_body]
pub(crate) fn quote(s: &str) -> (r: String)
    ensures
        r@ == quoted(s@),
        (forall|i: int| 0 <= i < s@.len() ==> is_plain(#[trigger] s@[i])) ==> r@ == seq!['"'] + s@ + seq!['"'],
{
    format!("{s:?}")
}

/// Reading upper-case hexadecimal gives back the bytes.
pub proof fn lemma_hex_round_trip(bytes: Seq<u8>)
    ensures
        utf8::is_ascii_chars(hex_upper(bytes)),
        is_hex(utf8::encode_utf8(hex_upper(bytes))),
        hex_bytes(utf8::encode_utf8(hex_upper(bytes))) == bytes,
        forall|i: int| 0 <= i < 2 * bytes.len() ==> is_visible(#[trigger] hex_upper(bytes)[i]),
{
    let chars = hex_upper(bytes);
    let s = utf8::encode_utf8(chars);
    utf8::is_ascii_chars_encode_utf8(chars);
    assert forall|i: int| 0 <= i < s.len() implies hex_value(#[trigger] s[i]) == Some(
        if i % 2 == 0 {
            bytes[i / 2] as int / 16
        } else {
            bytes[i / 2] as int % 16
        },
    ) by {
        assert(s[i] == chars[i] as u8);
    }
    assert(hex_bytes(s) =~= bytes) by {
        assert forall|i: int| 0 <= i < bytes.len() implies hex_bytes(s)[i] == bytes[i] by {
            assert(hex_value(s[2 * i]) == Some(bytes[i] as int / 16));
            assert(hex_value(s[2 * i + 1]) == Some(bytes[i] as int % 16));
        }
    }
}

} // verus!
