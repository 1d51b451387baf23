//! What is given on a command line and in files.

use vstd::prelude::*;
use vstd::utf8;

use crate::args;
use crate::crypto;
use crate::delta;
use crate::delta::{InPlaceParams, PatchType};
use crate::input;
use crate::laws::container;
use crate::laws::notation;
use crate::text;

verus! {

/// The number that text stands for, in a radix: digits of the radix, perhaps after a plus sign, and not above
/// `max`.
pub open spec fn number_of(s: Seq<char>, radix: int, max: int) -> Option<int> {
    let digits = if s.len() > 0 && s[0] == '+' {
        s.skip(1)
    } else {
        s
    };
    if digits.len() > 0 && notation::are_digits(digits, radix) && notation::value(digits, radix) <= max {
        Some(notation::value(digits, radix))
    } else {
        None
    }
}

proof fn lemma_digit(c: char, radix: int)
    requires
        c as int <= 127,
        radix == 10 || radix == 16,
    ensures
        args::digit_value(c as u8, radix) is Some <==> notation::digit(c) < radix,
        args::digit_value(c as u8, radix) is Some ==> args::digit_value(c as u8, radix) == Some(notation::digit(c)),
{
}

proof fn lemma_cast(c: char)
    requires
        c as int <= 127,
    ensures
        c as u8 as int == c as int,
{
}

proof fn lemma_value(s: Seq<char>, bytes: Seq<u8>, radix: int)
    requires
        s.len() == bytes.len(),
        forall|i: int| 0 <= i < s.len() ==> (#[trigger] s[i]) as int <= 127 && bytes[i] == s[i] as u8,
        radix == 10 || radix == 16,
        notation::are_digits(s, radix),
    ensures
        args::digits_value(bytes, radix) == notation::value(s, radix),
    decreases s.len(),
{
    if s.len() > 0 {
        let last = s.len() - 1;
        let (t, b) = (s.drop_last(), bytes.drop_last());
        assert(s[last] as int <= 127 && bytes[last] == s[last] as u8);
        lemma_digit(s[last], radix);
        assert forall|i: int| 0 <= i < t.len() implies (#[trigger] t[i]) as int <= 127 && b[i] == t[i] as u8 by {
            assert(t[i] == s[i]);
        }
        assert forall|i: int| 0 <= i < t.len() implies notation::digit(#[trigger] t[i]) < radix by {
            assert(t[i] == s[i]);
        }
        lemma_value(t, b, radix);
        assert(radix * args::digits_value(b, radix) == notation::value(t, radix) * radix) by (nonlinear_arith)
            requires
                args::digits_value(b, radix) == notation::value(t, radix),
        ;
    }
}

proof fn lemma_digits(s: Seq<char>, bytes: Seq<u8>, radix: int)
    requires
        s.len() == bytes.len(),
        forall|i: int| 0 <= i < s.len() ==> (#[trigger] s[i]) as int <= 127 && bytes[i] == s[i] as u8,
        radix == 10 || radix == 16,
    ensures
        args::all_digits(bytes, radix) <==> s.len() > 0 && notation::are_digits(s, radix),
        notation::are_digits(s, radix) ==> args::digits_value(bytes, radix) == notation::value(s, radix),
{
    assert forall|i: int| 0 <= i < s.len() implies (args::digit_value(#[trigger] bytes[i], radix) is Some
        <==> notation::digit(s[i]) < radix) by {
        assert(s[i] as int <= 127 && bytes[i] == s[i] as u8);
        lemma_digit(s[i], radix);
    }
    if args::all_digits(bytes, radix) {
        assert forall|i: int| 0 <= i < s.len() implies notation::digit(#[trigger] s[i]) < radix by {
            assert(args::digit_value(bytes[i], radix) is Some);
        }
    }
    if notation::are_digits(s, radix) {
        lemma_value(s, bytes, radix);
        assert forall|i: int| 0 <= i < s.len() implies args::digit_value(#[trigger] bytes[i], radix) is Some by {
            assert(notation::digit(s[i]) < radix);
        }
    }
}

proof fn lemma_number_of(s: Seq<char>, bytes: Seq<u8>, radix: int, max: int)
    requires
        s.len() == bytes.len(),
        forall|i: int| 0 <= i < s.len() ==> (#[trigger] s[i]) as int <= 127 && bytes[i] == s[i] as u8,
        radix == 10 || radix == 16,
    ensures
        args::unsigned(bytes, radix, max) == number_of(s, radix, max),
{
    if s.len() > 0 {
        assert(s[0] as int <= 127 && bytes[0] == s[0] as u8);
        lemma_cast(s[0]);
    }
    if s.len() > 0 && s[0] == '+' {
        let (t, b) = (s.skip(1), bytes.skip(1));
        assert forall|i: int| 0 <= i < t.len() implies (#[trigger] t[i]) as int <= 127 && b[i] == t[i] as u8 by {
            assert(t[i] == s[i + 1]);
        }
        lemma_digits(t, b, radix);
    } else {
        lemma_digits(s, bytes, radix);
    }
}

proof fn lemma_ascii(s: Seq<char>)
    requires
        utf8::is_ascii_chars(s),
    ensures
        utf8::encode_utf8(s).len() == s.len(),
        forall|i: int|
            0 <= i < s.len() ==> (#[trigger] s[i]) as int <= 127 && utf8::encode_utf8(s)[i] == s[i] as u8,
{
    utf8::is_ascii_chars_encode_utf8(s);
}

/// Text that begins with `0x` or `0X` stands for the 32-bit number in hexadecimal behind that, other text for
/// the one in decimal that it is. A plus sign may stand before the digits. All other text stands for none.
pub proof fn numbers(s: Seq<char>)
    requires
        utf8::is_ascii_chars(s),
    ensures
        args::number_in(utf8::encode_utf8(s)) == if s.len() >= 2 && s[0] == '0' && (s[1] == 'x' || s[1] == 'X') {
            number_of(s.skip(2), 16, 0xFFFF_FFFF)
        } else {
            number_of(s, 10, 0xFFFF_FFFF)
        },
{
    let bytes = utf8::encode_utf8(s);
    lemma_ascii(s);
    if s.len() >= 2 {
        assert(bytes[0] == s[0] as u8 && bytes[1] == s[1] as u8 && s[0] as int <= 127 && s[1] as int <= 127);
        let (t, b) = (s.skip(2), bytes.skip(2));
        assert forall|i: int| 0 <= i < t.len() implies (#[trigger] t[i]) as int <= 127 && b[i] == t[i] as u8 by {
            assert(t[i] == s[i + 2]);
        }
        lemma_number_of(t, b, 16, 0xFFFF_FFFF);
    }
    lemma_number_of(s, bytes, 10, 0xFFFF_FFFF);
}

/// A number is read from its decimal notation, and from its hexadecimal notation behind `0x`.
pub proof fn numbers_are_read_back(n: u32, upper: bool)
    ensures
        args::number_in(utf8::encode_utf8(text::decimal(n as nat))) == Some(n as int),
        args::number_in(utf8::encode_utf8(seq!['0', 'x'] + text::hexadecimal(n as nat, 8, upper))) == Some(n as int),
{
    let d = text::decimal(n as nat);
    let h = text::hexadecimal(n as nat, 8, upper);
    let x = seq!['0', 'x'] + h;
    notation::decimal_notation(n as nat);
    notation::hexadecimal_notation(n as nat, 8, upper);
    notation::widths();
    assert forall|i: int| 0 <= i < d.len() implies (#[trigger] d[i]) as int <= 127 by {
        assert(notation::digit(d[i]) < 10);
    }
    assert forall|i: int| 0 <= i < x.len() implies (#[trigger] x[i]) as int <= 127 by {
        if i >= 2 {
            assert(x[i] == h[i - 2]);
            assert(notation::digit(h[i - 2]) < 16);
        }
    }
    assert(notation::digit(d[0]) < 10);
    if d.len() >= 2 {
        assert(notation::digit(d[1]) < 10);
    }
    assert(notation::digit(h[0]) < 16);
    numbers(d);
    numbers(x);
    assert(x.skip(2) =~= h);
}

/// Where an environment and a number are given, the number counts. An environment stands for the number that
/// the first four bytes of its SHA-256 digest hold, the lowest first.
pub proof fn targets(id: Seq<char>, env: Seq<char>)
    ensures
        args::target_asked_for(Some(id), Some(env)) == args::target_asked_for(Some(id), None),
        args::target_asked_for(Some(id), None) == match args::number_in(utf8::encode_utf8(text::trimmed(id))) {
            Some(v) => Some(Some(v)),
            None => None,
        },
        args::target_asked_for(None, Some(env)) == Some(
            Some(container::word(crypto::sha256_of(utf8::encode_utf8(env))@, 0)),
        ),
        args::target_asked_for(None, None) == Some(None::<int>),
{
}

proof fn lemma_last_colon(s: Seq<char>, at: int)
    requires
        0 <= at < s.len(),
        s[at] == ':',
        forall|i: int| at < i < s.len() ==> #[trigger] s[i] != ':',
    ensures
        args::last_colon(s) == Some(at),
    decreases s.len(),
{
    if at < s.len() - 1 {
        assert(s[s.len() - 1] != ':');
        lemma_last_colon(s.drop_last(), at);
    }
}

proof fn lemma_no_colon(s: Seq<char>)
    requires
        forall|i: int| 0 <= i < s.len() ==> #[trigger] s[i] != ':',
    ensures
        args::last_colon(s) is None,
    decreases s.len(),
{
    if s.len() > 0 {
        assert(s[s.len() - 1] != ':');
        lemma_no_colon(s.drop_last());
    }
}

/// An address without a colon is a host, with the port 5001. Behind the last colon of an address stands a port
/// of 16 bits in decimal, and before it the host.
pub proof fn addresses(host: Seq<char>, port: Seq<char>)
    requires
        utf8::is_ascii_chars(port),
        forall|i: int| 0 <= i < port.len() ==> #[trigger] port[i] != ':',
    ensures
        (forall|i: int| 0 <= i < host.len() ==> #[trigger] host[i] != ':') ==> args::host_and_port(host) == Some(
            (host, 5001int),
        ),
        args::host_and_port(host + seq![':'] + port) == match number_of(port, 10, 0xFFFF) {
            Some(n) => Some((host, n)),
            None => None,
        },
{
    let s = host + seq![':'] + port;
    let at = host.len() as int;
    assert forall|i: int| at < i < s.len() implies #[trigger] s[i] != ':' by {
        assert(s[i] == port[i - at - 1]);
    }
    lemma_last_colon(s, at);
    assert(s.skip(at + 1) =~= port);
    assert(s.take(at) =~= host);
    lemma_ascii(port);
    lemma_number_of(port, utf8::encode_utf8(port), 10, 0xFFFF);
    if forall|i: int| 0 <= i < host.len() ==> #[trigger] host[i] != ':' {
        lemma_no_colon(host);
    }
}

/// The words `encode`, the base, the target and the patch file, the layout and the compression, and for an
/// in-place patch the window and the segment size in decimal.
pub open spec fn encodes(
    words: Seq<Seq<char>>,
    base: Seq<char>,
    target: Seq<char>,
    out: Seq<char>,
    layout: PatchType,
    window: Option<InPlaceParams>,
) -> bool {
    &&& words.len() == (if layout == PatchType::InPlace {
        12int
    } else {
        8
    })
    &&& words[0] == "encode"@
    &&& words[1] == base
    &&& words[2] == target
    &&& words[3] == out
    &&& words[4] == "--patch-type"@
    &&& words[5] == (if layout == PatchType::InPlace {
        "in-place"@
    } else {
        "sequential"@
    })
    &&& words[6] == "--compression"@
    &&& words[7] == "crle"@
    &&& layout == PatchType::InPlace ==> {
        &&& words[8] == "--memory-size"@
        &&& notation::are_digits(words[9], 10)
        &&& notation::value(words[9], 10) == window->0.memory_size
        &&& words[10] == "--segment-size"@
        &&& notation::are_digits(words[11], 10)
        &&& notation::value(words[11], 10) == window->0.segment_size
    }
}

/// The words `apply`, the base, the patch and the output file, and the layout, and for an in-place patch the
/// window and the size of the target in decimal.
pub open spec fn applies(
    words: Seq<Seq<char>>,
    base: Seq<char>,
    patch: Seq<char>,
    out: Seq<char>,
    layout: PatchType,
    memory_size: u32,
    to_size: u32,
) -> bool {
    &&& words.len() == (if layout == PatchType::InPlace {
        10int
    } else {
        6
    })
    &&& words[0] == "apply"@
    &&& words[1] == base
    &&& words[2] == patch
    &&& words[3] == out
    &&& words[4] == "--patch-type"@
    &&& words[5] == (if layout == PatchType::InPlace {
        "in-place"@
    } else {
        "sequential"@
    })
    &&& layout == PatchType::InPlace ==> {
        &&& words[6] == "--memory-size"@
        &&& notation::are_digits(words[7], 10)
        &&& notation::value(words[7], 10) == memory_size
        &&& words[8] == "--to-size"@
        &&& notation::are_digits(words[9], 10)
        &&& notation::value(words[9], 10) == to_size
    }
}

/// The tool is run with the words for what is asked; only an in-place patch without a window cannot be asked
/// for.
pub proof fn tool_commands(
    base: Seq<char>,
    other: Seq<char>,
    out: Seq<char>,
    layout: PatchType,
    window: Option<InPlaceParams>,
    memory_size: u32,
    to_size: u32,
)
    ensures
        delta::encode_command(base, other, out, layout, window) is None <==> layout == PatchType::InPlace
            && window is None,
        delta::encode_command(base, other, out, layout, window) is Some ==> encodes(
            delta::encode_command(base, other, out, layout, window)->0,
            base,
            other,
            out,
            layout,
            window,
        ),
        applies(
            delta::apply_command(base, other, out, layout, memory_size, to_size),
            base,
            other,
            out,
            layout,
            memory_size,
            to_size,
        ),
{
    notation::decimal_notation(memory_size as nat);
    notation::decimal_notation(to_size as nat);
    if window is Some {
        notation::decimal_notation(window->0.memory_size as nat);
        notation::decimal_notation(window->0.segment_size as nat);
    }
}

/// A letter in lower case.
pub open spec fn lower(c: char) -> int {
    if 'A' <= c <= 'Z' {
        c as int + 32
    } else {
        c as int
    }
}

/// A file is Intel HEX if its name ends with `.hex`, in letters of either case, and else it is the image. Nothing
/// is in an empty one.
pub proof fn inputs(src: Seq<char>, raw: Seq<u8>)
    ensures
        ({
            let n = src.len() as int;
            let named = n >= 4 && lower(src[n - 4]) == '.' as int && lower(src[n - 3]) == 'h' as int && lower(
                src[n - 2],
            ) == 'e' as int && lower(src[n - 1]) == 'x' as int;
            &&& input::names_hex(src) <==> named
            &&& raw.len() > 0 && !named ==> input::image_in(src, raw) == Ok::<Seq<u8>, input::InputError>(raw)
            &&& raw.len() > 0 && named ==> match input::intel_hex::hex_image(raw) {
                Ok(image) => input::image_in(src, raw) == Ok::<Seq<u8>, input::InputError>(image),
                Err(e) => input::image_in(src, raw) == Err::<Seq<u8>, input::InputError>(
                    input::InputError::Hex(e),
                ),
            }
            &&& raw.len() == 0 ==> input::image_in(src, raw) == Err::<Seq<u8>, input::InputError>(
                input::InputError::Empty,
            )
        }),
{
}

/// The text begins with this one.
pub open spec fn starts(s: Seq<char>, with: Seq<char>) -> bool {
    &&& s.len() >= with.len()
    &&& forall|i: int| 0 <= i < with.len() ==> s[i] == #[trigger] with[i]
}

/// An address of the web begins with `http://` or `https://`, in lower case.
pub proof fn web_addresses(s: Seq<char>)
    ensures
        input::names_url(s) <==> starts(s, seq!['h', 't', 't', 'p', ':', '/', '/']) || starts(
            s,
            seq!['h', 't', 't', 'p', 's', ':', '/', '/'],
        ),
{
    reveal_strlit("http://");
    reveal_strlit("https://");
    let a = seq!['h', 't', 't', 'p', ':', '/', '/'];
    let b = seq!['h', 't', 't', 'p', 's', ':', '/', '/'];
    assert("http://"@ =~= a);
    assert("https://"@ =~= b);
    lemma_starts(s, a);
    lemma_starts(s, b);
}

proof fn lemma_starts(s: Seq<char>, with: Seq<char>)
    ensures
        text::begins_with(s, with) <==> starts(s, with),
{
    if text::begins_with(s, with) {
        assert forall|i: int| 0 <= i < with.len() implies s[i] == #[trigger] with[i] by {
            assert(s.take(with.len() as int)[i] == s[i]);
        }
    }
    if starts(s, with) {
        assert(s.take(with.len() as int) =~= with);
    }
}

/// A key file that is text of 64 hexadecimal digits, but for white space around them, holds the key that they
/// stand for. Any other of 32 bytes holds those bytes, and any other of another length no key.
pub proof fn keys_in_files(raw: Seq<u8>)
    ensures
        ({
            let s = text::trimmed(utf8::decode_utf8(raw));
            let as_text = utf8::valid_utf8(raw) && crypto::key_in_hex(s) is Some;
            &&& as_text ==> crypto::key_in(raw) == crypto::key_in_hex(s)
            &&& !as_text && raw.len() == 32 ==> crypto::key_in(raw) == Some(raw)
            &&& !as_text && raw.len() != 32 ==> crypto::key_in(raw) is None
            &&& crypto::key_in(raw) is Some ==> crypto::key_in(raw)->0.len() == 32
        }),
{
}

/// A key is 64 hexadecimal digits, two a byte, the high one first; other text is none.
pub proof fn keys(s: Seq<char>)
    requires
        utf8::is_ascii_chars(s),
    ensures
        ({
            let digits = s.len() == 64 && notation::are_digits(s, 16);
            &&& crypto::key_in_hex(s) is Some <==> digits
            &&& digits ==> {
                let key = crypto::key_in_hex(s)->0;
                &&& key.len() == 32
                &&& forall|i: int|
                    0 <= i < 32 ==> #[trigger] key[i] == 16 * notation::digit(s[2 * i]) + notation::digit(
                        s[2 * i + 1],
                    )
            }
        }),
{
    let bytes = utf8::encode_utf8(s);
    lemma_ascii(s);
    assert forall|i: int| 0 <= i < s.len() implies {
        &&& text::hex_value(#[trigger] bytes[i]) is Some <==> notation::digit(s[i]) < 16
        &&& notation::digit(s[i]) < 16 ==> text::hex_value(bytes[i]) == Some(notation::digit(s[i]))
    } by {
        assert(s[i] as int <= 127 && bytes[i] == s[i] as u8);
    }
    if text::is_hex(bytes) {
        assert forall|i: int| 0 <= i < s.len() implies notation::digit(#[trigger] s[i]) < 16 by {
            assert(text::hex_value(bytes[i]) is Some);
        }
    }
    if notation::are_digits(s, 16) {
        assert forall|i: int| 0 <= i < s.len() implies text::hex_value(#[trigger] bytes[i]) is Some by {
            assert(notation::digit(s[i]) < 16);
        }
    }
    if s.len() == 64 && notation::are_digits(s, 16) {
        let key = crypto::key_in_hex(s)->0;
        assert forall|i: int| 0 <= i < 32 implies #[trigger] key[i] == 16 * notation::digit(s[2 * i])
            + notation::digit(s[2 * i + 1]) by {
            assert(notation::digit(s[2 * i]) < 16 && notation::digit(s[2 * i + 1]) < 16);
            assert(text::hex_value(bytes[2 * i]) == Some(notation::digit(s[2 * i])));
            assert(text::hex_value(bytes[2 * i + 1]) == Some(notation::digit(s[2 * i + 1])));
        }
    }
}

} // verus!
