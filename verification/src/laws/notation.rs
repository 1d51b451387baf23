//! How numbers and bytes are written.

use vstd::prelude::*;

use crate::endf::version;
use crate::text;

verus! {

/// The value of a digit, in either case; 99 if the character is none.
pub open spec fn digit(c: char) -> int {
    if '0' <= c <= '9' {
        c as int - 48
    } else if 'A' <= c <= 'F' {
        c as int - 55
    } else if 'a' <= c <= 'f' {
        c as int - 87
    } else {
        99
    }
}

/// Every character is a digit.
pub open spec fn are_digits(s: Seq<char>, radix: int) -> bool {
    forall|i: int| 0 <= i < s.len() ==> digit(#[trigger] s[i]) < radix
}

/// What digits stand for.
pub open spec fn value(s: Seq<char>, radix: int) -> int
    decreases s.len(),
{
    if s.len() == 0 {
        0
    } else {
        value(s.drop_last(), radix) * radix + digit(s.last())
    }
}

/// How many digits a text begins with.
pub open spec fn leading(s: Seq<char>, radix: int) -> int
    decreases s.len(),
{
    if s.len() == 0 || digit(s[0]) >= radix {
        0
    } else {
        1 + leading(s.skip(1), radix)
    }
}

/// The number that a text begins with.
pub open spec fn number(s: Seq<char>, radix: int) -> int {
    value(s.take(leading(s, radix)), radix)
}

/// No digit comes first.
pub open spec fn ends_number(rest: Seq<char>, radix: int) -> bool {
    rest.len() == 0 || digit(rest[0]) >= radix
}

proof fn lemma_leading(s: Seq<char>, rest: Seq<char>, radix: int)
    requires
        are_digits(s, radix),
        ends_number(rest, radix),
    ensures
        leading(s + rest, radix) == s.len(),
    decreases s.len(),
{
    let all = s + rest;
    if s.len() > 0 {
        assert(all[0] == s[0]);
        assert(all.skip(1) =~= s.skip(1) + rest);
        assert forall|i: int| 0 <= i < s.skip(1).len() implies digit(#[trigger] s.skip(1)[i]) < radix by {
            assert(s.skip(1)[i] == s[i + 1]);
        }
        lemma_leading(s.skip(1), rest, radix);
    } else {
        assert(all =~= rest);
    }
}

/// A number is read up to the first character that is no digit.
pub proof fn lemma_number(s: Seq<char>, rest: Seq<char>, radix: int)
    requires
        are_digits(s, radix),
        ends_number(rest, radix),
    ensures
        number(s + rest, radix) == value(s, radix),
{
    lemma_leading(s, rest, radix);
    assert((s + rest).take(s.len() as int) =~= s);
}

proof fn lemma_digit_char(d: int, upper: bool)
    requires
        0 <= d < 16,
    ensures
        digit(text::digit_char(d, upper)) == d,
        upper ==> text::digit_char(d, upper) <= 'F',
        !upper ==> text::digit_char(d, upper) <= '9' || 'a' <= text::digit_char(d, upper),
{
}

/// Decimal notation is made of decimal digits, stands for the number, and has no zero in front of other digits.
pub proof fn decimal_notation(n: nat)
    ensures
        ({
            let s = text::decimal(n);
            &&& s.len() > 0
            &&& are_digits(s, 10)
            &&& value(s, 10) == n
            &&& s.len() > 1 ==> s[0] != '0'
            &&& s[0] == '0' ==> n == 0
        }),
    decreases n,
{
    let s = text::decimal(n);
    if n < 10 {
        lemma_digit_char(n as int, false);
        assert(s.drop_last() =~= seq![]);
        assert(s.last() == s[0]);
        assert(value(s.drop_last(), 10) == 0);
    } else {
        decimal_notation(n / 10);
        lemma_digit_char((n % 10) as int, false);
        assert(s.drop_last() =~= text::decimal(n / 10));
        assert(s[0] == text::decimal(n / 10)[0]);
    }
}

/// How many numbers have `width` hexadecimal digits.
pub open spec fn numbers_of(width: nat) -> nat
    decreases width,
{
    if width == 0 {
        1
    } else {
        16 * numbers_of((width - 1) as nat)
    }
}

/// Hexadecimal notation of a width is made of so many hexadecimal digits of one case, and stands for the number
/// if the number has no more digits.
pub proof fn hexadecimal_notation(n: nat, width: nat, upper: bool)
    ensures
        ({
            let s = text::hexadecimal(n, width, upper);
            &&& s.len() == width
            &&& are_digits(s, 16)
            &&& forall|i: int|
                0 <= i < s.len() ==> '0' <= #[trigger] s[i] && (s[i] <= '9' || if upper {
                    'A' <= s[i] <= 'F'
                } else {
                    'a' <= s[i] <= 'f'
                })
            &&& n < numbers_of(width) ==> value(s, 16) == n
        }),
    decreases width,
{
    if width > 0 {
        let s = text::hexadecimal(n, width, upper);
        let less = (width - 1) as nat;
        hexadecimal_notation(n / 16, less, upper);
        lemma_digit_char((n % 16) as int, upper);
        assert(s.drop_last() =~= text::hexadecimal(n / 16, less, upper));
    }
}

/// Eight digits are enough for 32 bits, and two for a byte.
pub proof fn widths()
    ensures
        numbers_of(8) == 0x1_0000_0000,
        numbers_of(2) == 0x100,
{
    reveal_with_fuel(numbers_of, 9);
}

/// The text begins with `bytes` in upper-case hexadecimal, two digits a byte, the high one first.
pub open spec fn begins_with_bytes(s: Seq<char>, bytes: Seq<u8>) -> bool {
    &&& s.len() >= 2 * bytes.len()
    &&& forall|i: int|
        0 <= i < bytes.len() ==> {
            &&& s[2 * i] <= 'F'
            &&& s[2 * i + 1] <= 'F'
            &&& digit(s[2 * i]) < 16
            &&& digit(s[2 * i + 1]) < 16
            &&& 16 * digit(s[2 * i]) + digit(s[2 * i + 1]) == #[trigger] bytes[i]
        }
}

/// Bytes are written in hexadecimal.
pub proof fn bytes_notation(bytes: Seq<u8>, rest: Seq<char>)
    ensures
        text::hex_upper(bytes).len() == 2 * bytes.len(),
        begins_with_bytes(text::hex_upper(bytes) + rest, bytes),
{
    let h = text::hex_upper(bytes);
    let s = h + rest;
    assert forall|i: int| 0 <= i < bytes.len() implies {
        &&& s[2 * i] <= 'F'
        &&& s[2 * i + 1] <= 'F'
        &&& digit(s[2 * i]) < 16
        &&& digit(s[2 * i + 1]) < 16
        &&& 16 * digit(s[2 * i]) + digit(s[2 * i + 1]) == #[trigger] bytes[i]
    } by {
        let b = bytes[i] as int;
        assert((2 * i) / 2 == i && (2 * i + 1) / 2 == i && (2 * i) % 2 == 0 && (2 * i + 1) % 2 == 1);
        assert(s[2 * i] == h[2 * i] && s[2 * i + 1] == h[2 * i + 1]);
        lemma_digit_char(b / 16, true);
        lemma_digit_char(b % 16, true);
    }
}

/// A label stands in a line, and the number behind it is this one.
pub open spec fn says_at(line: Seq<char>, at: int, label: Seq<char>, radix: int, n: int) -> bool {
    let next = at + label.len();
    &&& 0 <= at
    &&& next < line.len()
    &&& line.subrange(at, next) == label
    &&& digit(line[next]) < radix
    &&& number(line.skip(next), radix) == n
}

/// A label stands somewhere in a line, and the number behind it is this one.
pub open spec fn says(line: Seq<char>, label: Seq<char>, radix: int, n: int) -> bool {
    exists|at: int| #[trigger] says_at(line, at, label, radix, n)
}

/// A label stands in a line, and this text behind it.
pub open spec fn names_at(line: Seq<char>, at: int, label: Seq<char>, word: Seq<char>) -> bool {
    let next = at + label.len();
    &&& 0 <= at
    &&& next + word.len() <= line.len()
    &&& line.subrange(at, next) == label
    &&& line.subrange(next, next + word.len()) == word
}

/// A label stands somewhere in a line, and this text behind it.
pub open spec fn names(line: Seq<char>, label: Seq<char>, word: Seq<char>) -> bool {
    exists|at: int| #[trigger] names_at(line, at, label, word)
}

/// A label stands in a line, and these bytes behind it in hexadecimal.
pub open spec fn shows_at(line: Seq<char>, at: int, label: Seq<char>, bytes: Seq<u8>) -> bool {
    let next = at + label.len();
    &&& 0 <= at
    &&& next <= line.len()
    &&& line.subrange(at, next) == label
    &&& begins_with_bytes(line.skip(next), bytes)
}

/// A label stands somewhere in a line, and these bytes behind it in hexadecimal.
pub open spec fn shows(line: Seq<char>, label: Seq<char>, bytes: Seq<u8>) -> bool {
    exists|at: int| #[trigger] shows_at(line, at, label, bytes)
}

/// A decimal number behind a label is read back.
pub proof fn lemma_says_decimal(line: Seq<char>, pre: Seq<char>, label: Seq<char>, n: nat, rest: Seq<char>)
    requires
        line == pre + label + text::decimal(n) + rest,
        ends_number(rest, 10),
    ensures
        says_at(line, pre.len() as int, label, 10, n as int),
        says(line, label, 10, n as int),
{
    let d = text::decimal(n);
    let next = pre.len() + label.len();
    decimal_notation(n);
    lemma_number(d, rest, 10);
    assert(line.subrange(pre.len() as int, next as int) =~= label);
    assert(line.skip(next as int) =~= d + rest);
    assert(line[next as int] == d[0]);
    assert(says_at(line, pre.len() as int, label, 10, n as int));
}

/// A 32-bit number behind a label is read back from eight hexadecimal digits.
pub proof fn lemma_says_word(
    line: Seq<char>,
    pre: Seq<char>,
    label: Seq<char>,
    n: u32,
    upper: bool,
    rest: Seq<char>,
)
    requires
        line == pre + label + text::hexadecimal(n as nat, 8, upper) + rest,
        ends_number(rest, 16),
    ensures
        says_at(line, pre.len() as int, label, 16, n as int),
        says(line, label, 16, n as int),
{
    let d = text::hexadecimal(n as nat, 8, upper);
    let next = pre.len() + label.len();
    widths();
    hexadecimal_notation(n as nat, 8, upper);
    lemma_number(d, rest, 16);
    assert(line.subrange(pre.len() as int, next as int) =~= label);
    assert(line.skip(next as int) =~= d + rest);
    assert(line[next as int] == d[0]);
    assert(says_at(line, pre.len() as int, label, 16, n as int));
}

/// A byte behind a label is read back from two hexadecimal digits.
pub proof fn lemma_says_byte(line: Seq<char>, pre: Seq<char>, label: Seq<char>, n: u8, rest: Seq<char>)
    requires
        line == pre + label + text::hexadecimal(n as nat, 2, false) + rest,
        ends_number(rest, 16),
    ensures
        says_at(line, pre.len() as int, label, 16, n as int),
        says(line, label, 16, n as int),
{
    let d = text::hexadecimal(n as nat, 2, false);
    let next = pre.len() + label.len();
    widths();
    hexadecimal_notation(n as nat, 2, false);
    lemma_number(d, rest, 16);
    assert(line.subrange(pre.len() as int, next as int) =~= label);
    assert(line.skip(next as int) =~= d + rest);
    assert(line[next as int] == d[0]);
    assert(says_at(line, pre.len() as int, label, 16, n as int));
}

/// A text behind a label stands there.
pub proof fn lemma_names(line: Seq<char>, pre: Seq<char>, label: Seq<char>, word: Seq<char>, rest: Seq<char>)
    requires
        line == pre + label + word + rest,
    ensures
        names_at(line, pre.len() as int, label, word),
        names(line, label, word),
{
    let next = (pre.len() + label.len()) as int;
    assert(line.subrange(pre.len() as int, next) =~= label);
    assert(line.subrange(next, next + word.len()) =~= word);
    assert(names_at(line, pre.len() as int, label, word));
}

/// Bytes behind a label are read back.
pub proof fn lemma_shows(line: Seq<char>, pre: Seq<char>, label: Seq<char>, bytes: Seq<u8>, rest: Seq<char>)
    requires
        line == pre + label + text::hex_upper(bytes) + rest,
    ensures
        shows_at(line, pre.len() as int, label, bytes),
        shows(line, label, bytes),
{
    let next = (pre.len() + label.len()) as int;
    bytes_notation(bytes, rest);
    assert(line.subrange(pre.len() as int, next) =~= label);
    assert(line.skip(next) =~= text::hex_upper(bytes) + rest);
    assert(shows_at(line, pre.len() as int, label, bytes));
}

/// Three decimal numbers with dots between them.
pub open spec fn is_dotted(s: Seq<char>, a: int, b: int, c: int) -> bool {
    exists|i: int, j: int|
        {
            &&& 0 < i < j - 1 < s.len() - 2
            &&& #[trigger] s[i] == '.'
            &&& #[trigger] s[j] == '.'
            &&& are_digits(s.take(i), 10)
            &&& value(s.take(i), 10) == a
            &&& are_digits(s.subrange(i + 1, j), 10)
            &&& value(s.subrange(i + 1, j), 10) == b
            &&& are_digits(s.skip(j + 1), 10)
            &&& value(s.skip(j + 1), 10) == c
            &&& i > 1 ==> s[0] != '0'
            &&& j > i + 2 ==> s[i + 1] != '0'
            &&& s.len() > j + 2 ==> s[j + 1] != '0'
        }
}

/// A packed version is written as its highest byte, the next and the next, with dots between them.
pub proof fn version_notation(v: u32)
    ensures
        is_dotted(
            version::version_text(v),
            v as int / 16777216,
            v as int / 65536 % 256,
            v as int / 256 % 256,
        ),
{
    let a = text::decimal((v / 0x100_0000) as nat);
    let b = text::decimal((v / 0x1_0000 % 0x100) as nat);
    let c = text::decimal((v / 0x100 % 0x100) as nat);
    let s = version::version_text(v);
    decimal_notation((v / 0x100_0000) as nat);
    decimal_notation((v / 0x1_0000 % 0x100) as nat);
    decimal_notation((v / 0x100 % 0x100) as nat);
    let i = a.len() as int;
    let j = i + 1 + b.len();
    assert(s.take(i) =~= a);
    assert(s.subrange(i + 1, j) =~= b);
    assert(s.skip(j + 1) =~= c);
    assert(s[i] == '.' && s[j] == '.');
    assert(s[0] == a[0] && s[i + 1] == b[0] && s[j + 1] == c[0]);
}

} // verus!
