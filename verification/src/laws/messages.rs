//! What names and messages say.

use vstd::prelude::*;

use crate::args;
use crate::build;
use crate::build::layout::Content;
use crate::build::Refusal;
use crate::crypto;
use crate::endf::version;
use crate::endf::version::VersionError;
use crate::format::{Codec, ParseError};
use crate::input::intel_hex::HexError;
use crate::input::InputError;
use crate::laws::notation;
use crate::laws::reports;
use crate::merkle;
use crate::text;

verus! {

/// A file name says, with underscores between them, the hardware tag, or `fw` where it is empty, the target in
/// hexadecimal, the version behind a `v`, the codec, and the merkle root; and then comes `.mota`.
pub open spec fn is_name(name: Seq<char>, c: Content) -> bool {
    let hw = if c.hw_id.len() == 0 {
        "fw"@
    } else {
        c.hw_id
    };
    let v = version::version_text(c.fw_version);
    let tag = match c.codec {
        Codec::Full => "full"@,
        Codec::DetoolsSequential => "seqdelta"@,
        Codec::DetoolsInplace => "ipdelta"@,
    };
    let root = merkle::tree_root(c.leaves());
    let at = hw.len() as int;
    &&& name.len() == at + 18 + v.len() + tag.len() + 2 * root.len()
    &&& name.take(at) == hw
    &&& notation::says_at(name, at, "_"@, 16, c.target_id as int)
    &&& notation::names_at(name, at + 9, "_v"@, v)
    &&& notation::names_at(name, at + 11 + v.len(), "_"@, tag)
    &&& notation::shows_at(name, at + 12 + v.len() + tag.len(), "_"@, root)
    &&& reports::ends_with(name, ""@, ".mota"@)
}

/// The suggested name of a container says what it is.
pub proof fn file_names(c: Content)
    ensures
        is_name(build::file_name(c), c),
{
    let hw = if c.hw_id.len() == 0 {
        "fw"@
    } else {
        c.hw_id
    };
    lemma_name(
        build::file_name(c),
        hw,
        c.target_id,
        version::version_text(c.fw_version),
        c.codec.name_tag_text(),
        merkle::tree_root(c.leaves()),
    );
}

proof fn lemma_name(name: Seq<char>, hw: Seq<char>, target: u32, v: Seq<char>, tag: Seq<char>, root: Seq<u8>)
    requires
        name == hw + "_"@ + text::hexadecimal(target as nat, 8, true) + "_v"@ + v + "_"@ + tag + "_"@
            + text::hex_upper(root) + ".mota"@,
    ensures
        ({
            let at = hw.len() as int;
            &&& name.len() == at + 18 + v.len() + tag.len() + 2 * root.len()
            &&& name.take(at) == hw
            &&& notation::says_at(name, at, "_"@, 16, target as int)
            &&& notation::names_at(name, at + 9, "_v"@, v)
            &&& notation::names_at(name, at + 11 + v.len(), "_"@, tag)
            &&& notation::shows_at(name, at + 12 + v.len() + tag.len(), "_"@, root)
            &&& reports::ends_with(name, ""@, ".mota"@)
        }),
{
    let h = text::hexadecimal(target as nat, 8, true);
    let r = text::hex_upper(root);
    let (a, b, e) = ("_"@, "_v"@, ".mota"@);
    reveal_strlit("_");
    reveal_strlit("_v");
    reveal_strlit(".mota");
    reveal_strlit("");
    notation::hexadecimal_notation(target as nat, 8, true);
    notation::bytes_notation(root, e);
    assert(name.take(hw.len() as int) =~= hw);
    assert(notation::says_at(name, hw.len() as int, a, 16, target as int)) by {
        let rest = b + v + a + tag + a + r + e;
        assert(rest[0] == '_');
        assert(name =~= hw + a + h + rest);
        notation::lemma_says_word(name, hw, a, target, true, rest);
    }
    let p1 = hw + a + h;
    assert(notation::names_at(name, p1.len() as int, b, v)) by {
        assert(name =~= p1 + b + v + (a + tag + a + r + e));
        notation::lemma_names(name, p1, b, v, a + tag + a + r + e);
    }
    let p2 = p1 + b + v;
    assert(notation::names_at(name, p2.len() as int, a, tag)) by {
        assert(name =~= p2 + a + tag + (a + r + e));
        notation::lemma_names(name, p2, a, tag, a + r + e);
    }
    let p3 = p2 + a + tag;
    assert(notation::shows_at(name, p3.len() as int, a, root)) by {
        assert(name =~= p3 + a + r + e);
        notation::lemma_shows(name, p3, a, root, e);
    }
    let p4 = p3 + a + r;
    assert(notation::names_at(name, p4.len() as int, ""@, e)) by {
        assert(name =~= p4 + ""@ + e + seq![]);
        notation::lemma_names(name, p4, ""@, e, seq![]);
    }
}

/// What is said of why no container is built names what it is about: the hardware tags of the base and of the
/// target, the window and the segment size, or the number of blocks.
pub open spec fn explains(r: Refusal, s: Seq<char>) -> bool {
    match r {
        Refusal::OtherHardware { base, target } => {
            &&& notation::names_at(s, 0, "base hardware "@, text::quoted(base))
            &&& notation::names(s, " != target hardware "@, text::quoted(target))
        },
        Refusal::BadWindow { memory, segment } => {
            &&& notation::says_at(s, 0, "in-place: --inplace-memory ("@, 10, memory as int)
            &&& notation::says(s, ") must be a non-zero multiple of --segment-size ("@, 10, segment as int)
        },
        Refusal::BlockCount(n) => notation::says_at(s, 0, "payload yields an invalid block count ("@, 10, n),
        Refusal::BaseWithoutTrailer => s
            == "--base must be a real firmware image with its EndF trailer (the device's running image); this one has none"@,
        Refusal::ZeroSegment => s == "in-place: --segment-size must be non-zero"@,
        Refusal::Unreadable(e) => s == e.text(),
    }
}

/// Every reason is explained.
pub proof fn refusals_are_explained(r: Refusal)
    requires
        r matches Refusal::BlockCount(n) ==> n >= 0,
    ensures
        explains(r, r.text()),
{
    let s = r.text();
    match r {
        Refusal::OtherHardware { base, target } => {
            let (a, b) = ("base hardware "@, " != target hardware "@);
            let c = "; a cross-hardware delta will not apply (use --force to override)"@;
            let (x, y) = (text::quoted(base), text::quoted(target));
            assert(s =~= seq![] + a + x + (b + y + c));
            notation::lemma_names(s, seq![], a, x, b + y + c);
            assert(s =~= (a + x) + b + y + c);
            notation::lemma_names(s, a + x, b, y, c);
        },
        Refusal::BadWindow { memory, segment } => {
            let (a, b) = ("in-place: --inplace-memory ("@, ") must be a non-zero multiple of --segment-size ("@);
            let c = ")"@;
            let (x, y) = (text::decimal(memory as nat), text::decimal(segment as nat));
            reveal_strlit(") must be a non-zero multiple of --segment-size (");
            reveal_strlit(")");
            let rest = b + y + c;
            assert(rest[0] == ')');
            assert(s =~= seq![] + a + x + rest);
            notation::lemma_says_decimal(s, seq![], a, memory as nat, rest);
            assert(s =~= (a + x) + b + y + c);
            notation::lemma_says_decimal(s, a + x, b, segment as nat, c);
        },
        Refusal::BlockCount(n) => {
            let a = "payload yields an invalid block count ("@;
            reveal_strlit(")");
            assert(s =~= seq![] + a + text::decimal(n as nat) + ")"@);
            notation::lemma_says_decimal(s, seq![], a, n as nat, ")"@);
        },
        _ => {},
    }
}

/// What is said of a container of another version of the format ends with that version.
pub proof fn other_formats_are_named(v: u8)
    ensures
        notation::says_at(ParseError::UnsupportedVersion(v).text(), 0, "unsupported format_ver "@, 10, v as int),
{
    let s = ParseError::UnsupportedVersion(v).text();
    let a = "unsupported format_ver "@;
    assert(s =~= seq![] + a + text::decimal(v as nat) + seq![]);
    notation::lemma_says_decimal(s, seq![], a, v as nat, seq![]);
}

/// What is said of an input that holds no image names the input, and for Intel HEX says why.
pub proof fn inputs_are_named(src: Seq<char>, e: HexError)
    ensures
        reports::ends_with(InputError::Empty.text(src), "input is empty: "@, src),
        notation::names_at(InputError::Hex(e).text(src), 0, "parsing Intel HEX: "@, src),
        reports::ends_with(InputError::Hex(e).text(src), ": "@, e.text()),
{
    let s = InputError::Empty.text(src);
    let t = InputError::Hex(e).text(src);
    let (a, b) = ("input is empty: "@, "parsing Intel HEX: "@);
    assert(s =~= seq![] + a + src + seq![]);
    notation::lemma_names(s, seq![], a, src, seq![]);
    assert(t =~= seq![] + b + src + (": "@ + e.text()));
    notation::lemma_names(t, seq![], b, src, ": "@ + e.text());
    assert(t =~= (b + src) + ": "@ + e.text() + seq![]);
    notation::lemma_names(t, b + src, ": "@, e.text(), seq![]);
}

/// What is said of text that is no version or no number ends with the text, in quotes.
pub proof fn texts_are_quoted(s: Seq<char>)
    ensures
        reports::ends_with(VersionError::Bad.text(s), "bad version: "@, text::quoted(s)),
        reports::ends_with(VersionError::TooLarge.text(s), "version component too large: "@, text::quoted(s)),
        reports::ends_with(args::no_number_text(s), "not a valid number: "@, text::quoted(text::trimmed(s))),
{
    let (a, b, c) = ("bad version: "@, "version component too large: "@, "not a valid number: "@);
    let (x, y) = (text::quoted(s), text::quoted(text::trimmed(s)));
    assert(VersionError::Bad.text(s) =~= seq![] + a + x + seq![]);
    notation::lemma_names(VersionError::Bad.text(s), seq![], a, x, seq![]);
    assert(VersionError::TooLarge.text(s) =~= seq![] + b + x + seq![]);
    notation::lemma_names(VersionError::TooLarge.text(s), seq![], b, x, seq![]);
    assert(args::no_number_text(s) =~= seq![] + c + y + seq![]);
    notation::lemma_names(args::no_number_text(s), seq![], c, y, seq![]);
}

/// A key file holds the key in hexadecimal, two digits a byte, and a line end.
pub proof fn key_files(key: Seq<u8>)
    ensures
        crypto::key_file(key).len() == 2 * key.len() + 1,
        notation::begins_with_bytes(crypto::key_file(key), key),
        crypto::key_file(key).last() == '\n',
{
    notation::bytes_notation(key, seq!['\n']);
    assert(crypto::key_file(key) =~= text::hex_upper(key) + seq!['\n']);
}

} // verus!
