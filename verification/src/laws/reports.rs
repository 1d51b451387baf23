//! What printed lines say: every value is read back from behind its label.

use vstd::arithmetic::power2;
use vstd::prelude::*;

use crate::endf::version;
use crate::format::Manifest;
use crate::laws::notation;
use crate::report;
use crate::report::inspect;
use crate::report::serve;
use crate::text;

verus! {

/// The lowest flag: the payload is the image.
pub open spec fn is_full(m: Manifest) -> bool {
    m.flags % 2 == 1
}

/// The second flag: the container is signed.
pub open spec fn is_signed(m: Manifest) -> bool {
    m.flags / 2 % 2 == 1
}

/// The flags of a manifest are its lowest two bits.
pub proof fn flags(m: Manifest)
    ensures
        m.full() <==> is_full(m),
        m.signed() <==> is_signed(m),
{
    let f = m.flags;
    assert(f & 1 != 0 <==> f % 2 == 1) by (bit_vector);
    assert(f & 2 != 0 <==> (f / 2) % 2 == 1) by (bit_vector);
}

/// The hardware tag, or a word for none.
pub open spec fn tag_or(m: Manifest, none: Seq<char>) -> Seq<char> {
    let hw = crate::format::utf8_lossy(crate::format::until_nul(m.hw_id@));
    if hw.len() == 0 {
        none
    } else {
        hw
    }
}

/// A line is a label and a decimal number.
pub open spec fn is_count(line: Seq<char>, label: Seq<char>, n: int) -> bool {
    let digits = line.skip(label.len() as int);
    &&& line.len() > label.len()
    &&& line.take(label.len() as int) == label
    &&& notation::are_digits(digits, 10)
    &&& notation::value(digits, 10) == n
    &&& digits.len() > 1 ==> digits[0] != '0'
}

/// A line is a label and bytes in hexadecimal, with this behind them.
pub open spec fn is_dump(line: Seq<char>, label: Seq<char>, bytes: Seq<u8>, rest: Seq<char>) -> bool {
    &&& notation::shows_at(line, 0, label, bytes)
    &&& line.len() == label.len() + 2 * bytes.len() + rest.len()
    &&& line.skip((label.len() + 2 * bytes.len()) as int) == rest
}

proof fn lemma_count(label: Seq<char>, n: nat)
    ensures
        is_count(label + text::decimal(n), label, n as int),
{
    let line = label + text::decimal(n);
    notation::decimal_notation(n);
    assert(line.take(label.len() as int) =~= label);
    assert(line.skip(label.len() as int) =~= text::decimal(n));
}

proof fn lemma_dump(line: Seq<char>, label: Seq<char>, bytes: Seq<u8>, rest: Seq<char>)
    requires
        line == label + text::hex_upper(bytes) + rest,
    ensures
        is_dump(line, label, bytes, rest),
{
    assert(line =~= seq![] + label + text::hex_upper(bytes) + rest);
    notation::lemma_shows(line, seq![], label, bytes, rest);
    notation::bytes_notation(bytes, rest);
    assert(line.skip((label.len() + 2 * bytes.len()) as int) =~= rest);
}

/// `true` or `false`.
pub open spec fn word_for(b: bool) -> Seq<char> {
    if b {
        "true"@
    } else {
        "false"@
    }
}

/// The first lines about a manifest: the length of the container, the version of the format, the flags, the
/// hash algorithm, the target and the version.
pub open spec fn says_head(lines: Seq<Seq<char>>, m: Manifest, total: int, label: Seq<char>) -> bool {
    &&& is_count(lines[0], "total_size     : "@, total)
    &&& is_count(lines[1], "format_ver     : "@, m.format_ver as int)
    &&& notation::says_at(lines[2], 0, "flags          : 0x"@, 16, m.flags as int)
    &&& notation::names(lines[2], "  FULL="@, word_for(is_full(m)))
    &&& notation::names(lines[2], " SIGNED="@, word_for(is_signed(m)))
    &&& notation::says_at(lines[3], 0, "hash_algo      : 0x"@, 16, m.hash_algo as int)
    &&& notation::says_at(lines[4], 0, "target_id      : 0x"@, 16, m.target_id as int)
    &&& notation::names(lines[4], "  ("@, label + ")"@)
    &&& notation::names_at(lines[5], 0, "fw_version     : "@, version::version_text(m.fw_version))
    &&& notation::says(lines[5], "  (0x"@, 16, m.fw_version as int)
}

proof fn lemma_flags_line(m: Manifest, line: Seq<char>)
    requires
        line == "flags          : 0x"@ + text::hexadecimal(m.flags as nat, 2, false) + "  FULL="@
            + inspect::truth(m.full()) + " SIGNED="@ + inspect::truth(m.signed()),
    ensures
        notation::says_at(line, 0, "flags          : 0x"@, 16, m.flags as int),
        notation::names(line, "  FULL="@, word_for(is_full(m))),
        notation::names(line, " SIGNED="@, word_for(is_signed(m))),
{
    let (a, b, c) = ("flags          : 0x"@, "  FULL="@, " SIGNED="@);
    let h = text::hexadecimal(m.flags as nat, 2, false);
    let (x, y) = (inspect::truth(m.full()), inspect::truth(m.signed()));
    flags(m);
    reveal_strlit("  FULL=");
    let rest = b + x + c + y;
    assert(rest[0] == ' ');
    assert(line =~= seq![] + a + h + rest);
    notation::lemma_says_byte(line, seq![], a, m.flags, rest);
    assert(line =~= (a + h) + b + x + (c + y));
    notation::lemma_names(line, a + h, b, x, c + y);
    assert(line =~= (a + h + b + x) + c + y + seq![]);
    notation::lemma_names(line, a + h + b + x, c, y, seq![]);
}

proof fn lemma_head(m: Manifest, total: nat, label: Seq<char>)
    ensures
        says_head(inspect::head_lines(m, total, label), m, total as int, label),
{
    let lines = inspect::head_lines(m, total, label);
    lemma_count("total_size     : "@, total);
    lemma_count("format_ver     : "@, m.format_ver as nat);
    lemma_flags_line(m, lines[2]);
    assert(notation::says_at(lines[3], 0, "hash_algo      : 0x"@, 16, m.hash_algo as int)) by {
        reveal_strlit(" (sha2-256)");
        let (a, h) = ("hash_algo      : 0x"@, text::hexadecimal(m.hash_algo as nat, 2, false));
        assert(lines[3] =~= seq![] + a + h + " (sha2-256)"@);
        notation::lemma_says_byte(lines[3], seq![], a, m.hash_algo, " (sha2-256)"@);
    }
    assert(notation::says_at(lines[4], 0, "target_id      : 0x"@, 16, m.target_id as int) && notation::names(
        lines[4],
        "  ("@,
        label + ")"@,
    )) by {
        reveal_strlit("  (");
        let (a, h) = ("target_id      : 0x"@, text::hexadecimal(m.target_id as nat, 8, false));
        let rest = "  ("@ + label + ")"@;
        assert(rest[0] == ' ');
        assert(lines[4] =~= seq![] + a + h + rest);
        notation::lemma_says_word(lines[4], seq![], a, m.target_id, false, rest);
        assert(lines[4] =~= (a + h) + "  ("@ + (label + ")"@) + seq![]);
        notation::lemma_names(lines[4], a + h, "  ("@, label + ")"@, seq![]);
    }
    assert(notation::names_at(lines[5], 0, "fw_version     : "@, version::version_text(m.fw_version))
        && notation::says(lines[5], "  (0x"@, 16, m.fw_version as int)) by {
        reveal_strlit(")");
        let (a, v) = ("fw_version     : "@, version::version_text(m.fw_version));
        let h = text::hexadecimal(m.fw_version as nat, 8, false);
        assert(lines[5] =~= seq![] + a + v + ("  (0x"@ + h + ")"@));
        notation::lemma_names(lines[5], seq![], a, v, "  (0x"@ + h + ")"@);
        assert(lines[5] =~= (a + v) + "  (0x"@ + h + ")"@);
        notation::lemma_says_word(lines[5], a + v, "  (0x"@, m.fw_version, false, ")"@);
    }
}

/// The label of the codec with a number.
pub open spec fn label_of(codec_id: u8) -> Seq<char> {
    if codec_id == 0 {
        "full"@
    } else if codec_id == 1 {
        "detools-sequential"@
    } else if codec_id == 2 {
        "detools-in-place"@
    } else {
        "?"@
    }
}

/// The lines about sizes: the image, the payload, the blocks, and the codec.
pub open spec fn says_sizes(lines: Seq<Seq<char>>, m: Manifest) -> bool {
    &&& is_count(lines[0], "image_size     : "@, m.image_size as int)
    &&& is_count(lines[1], "payload_size   : "@, m.payload_size as int)
    &&& notation::says_at(
        lines[2],
        0,
        "block_size     : "@,
        10,
        power2::pow2(m.block_size_log2 as nat) as int,
    )
    &&& notation::says(lines[2], "  (log2="@, 10, m.block_size_log2 as int)
    &&& notation::says(lines[2], ")  block_count="@, 10, m.block_count as int)
    &&& notation::says_at(lines[3], 0, "codec_id       : "@, 10, m.codec_id as int)
    &&& notation::names(lines[3], " ("@, label_of(m.codec_id) + ")"@)
}

proof fn lemma_blocks_line(line: Seq<char>, size: nat, log2: nat, count: nat)
    requires
        line == "block_size     : "@ + text::decimal(size) + "  (log2="@ + text::decimal(log2)
            + ")  block_count="@ + text::decimal(count),
    ensures
        notation::says_at(line, 0, "block_size     : "@, 10, size as int),
        notation::says(line, "  (log2="@, 10, log2 as int),
        notation::says(line, ")  block_count="@, 10, count as int),
{
    let (a, b, c) = ("block_size     : "@, "  (log2="@, ")  block_count="@);
    let (x, y, z) = (text::decimal(size), text::decimal(log2), text::decimal(count));
    assert(notation::says_at(line, 0, a, 10, size as int)) by {
        reveal_strlit("  (log2=");
        let rest = b + y + c + z;
        assert(rest[0] == ' ');
        assert(line =~= seq![] + a + x + rest);
        notation::lemma_says_decimal(line, seq![], a, size, rest);
    }
    assert(notation::says(line, b, 10, log2 as int)) by {
        reveal_strlit(")  block_count=");
        let rest = c + z;
        assert(rest[0] == ')');
        assert(line =~= (a + x) + b + y + rest);
        notation::lemma_says_decimal(line, a + x, b, log2, rest);
    }
    assert(notation::says(line, c, 10, count as int)) by {
        assert(line =~= (a + x + b + y) + c + z + seq![]);
        notation::lemma_says_decimal(line, a + x + b + y, c, count, seq![]);
    }
}

proof fn lemma_codec_line(line: Seq<char>, codec_id: nat, w: Seq<char>)
    requires
        line == "codec_id       : "@ + text::decimal(codec_id) + " ("@ + w + ")"@,
    ensures
        notation::says_at(line, 0, "codec_id       : "@, 10, codec_id as int),
        notation::names(line, " ("@, w + ")"@),
{
    reveal_strlit(" (");
    let (d, n) = ("codec_id       : "@, text::decimal(codec_id));
    let rest = " ("@ + w + ")"@;
    assert(rest[0] == ' ');
    assert(line =~= seq![] + d + n + rest);
    notation::lemma_says_decimal(line, seq![], d, codec_id, rest);
    assert(line =~= (d + n) + " ("@ + (w + ")"@) + seq![]);
    notation::lemma_names(line, d + n, " ("@, w + ")"@, seq![]);
}

proof fn lemma_sizes(m: Manifest)
    ensures
        says_sizes(inspect::size_lines(m), m),
{
    let lines = inspect::size_lines(m);
    lemma_count("image_size     : "@, m.image_size as nat);
    lemma_count("payload_size   : "@, m.payload_size as nat);
    lemma_blocks_line(
        lines[2],
        power2::pow2(m.block_size_log2 as nat),
        m.block_size_log2 as nat,
        m.block_count as nat,
    );
    lemma_codec_line(lines[3], m.codec_id as nat, m.codec_label());
}

/// The lines about hashes: the root, the image hash, and the hardware tag.
pub open spec fn says_hashes(lines: Seq<Seq<char>>, m: Manifest) -> bool {
    &&& is_dump(lines[0], "merkle_root    : "@, m.merkle_root@, seq![])
    &&& is_dump(lines[1], "image_hash     : "@, m.image_hash@, seq![])
    &&& lines[2] == "hw_id          : "@ + tag_or(m, "(none)"@)
}

proof fn lemma_hashes(m: Manifest)
    ensures
        says_hashes(inspect::hash_lines(m), m),
{
    let lines = inspect::hash_lines(m);
    assert(lines[0] =~= "merkle_root    : "@ + text::hex_upper(m.merkle_root@) + seq![]);
    lemma_dump(lines[0], "merkle_root    : "@, m.merkle_root@, seq![]);
    assert(lines[1] =~= "image_hash     : "@ + text::hex_upper(m.image_hash@) + seq![]);
    lemma_dump(lines[1], "image_hash     : "@, m.image_hash@, seq![]);
}

/// The bytes are all zero.
pub open spec fn all_zero(bytes: Seq<u8>) -> bool {
    forall|i: int| 0 <= i < bytes.len() ==> #[trigger] bytes[i] == 0
}

/// The lines from the base on: the base of a delta, the signer and the signature of a signed container, the
/// approval, and the number of leaves.
pub open spec fn says_rest(lines: Seq<Seq<char>>, m: Manifest) -> bool {
    let base = if is_full(m) {
        0int
    } else {
        1
    };
    let sig = if is_signed(m) {
        2int
    } else {
        0
    };
    let at = base + sig;
    let approved = m.approval@ == seq![0x41u8, 0x50, 0x52, 0x56];
    &&& lines.len() == at + 2
    &&& !is_full(m) ==> is_dump(
        lines[0],
        "base_hash      : "@,
        m.base_hash@,
        if all_zero(m.base_hash@) {
            "  (zero)"@
        } else {
            seq![]
        },
    )
    &&& is_signed(m) ==> is_dump(lines[base], "signer_pubkey  : "@, m.signer@, seq![])
    &&& is_signed(m) ==> is_dump(lines[base + 1], "signature      : "@, m.signature@, seq![])
    &&& is_dump(
        lines[at],
        "approval       : "@,
        m.approval@,
        if approved {
            "  (APPROVED)"@
        } else {
            "  (not approved)"@
        },
    )
    &&& notation::says_at(lines[at + 1], 0, "leaves[]       : "@, 10, m.block_count as int)
}

proof fn lemma_tail(m: Manifest)
    ensures
        ({
            let lines = inspect::tail_lines(m);
            let approved = m.approval@ == seq![0x41u8, 0x50, 0x52, 0x56];
            &&& is_dump(
                lines[0],
                "approval       : "@,
                m.approval@,
                if approved {
                    "  (APPROVED)"@
                } else {
                    "  (not approved)"@
                },
            )
            &&& notation::says_at(lines[1], 0, "leaves[]       : "@, 10, m.block_count as int)
        }),
{
    let lines = inspect::tail_lines(m);
    let yes = seq![0x41u8, 0x50, 0x52, 0x56];
    assert(crate::format::APPROVAL_YES@ =~= yes);
    reveal_strlit("  (");
    reveal_strlit("APPROVED");
    reveal_strlit("not approved");
    reveal_strlit(")");
    reveal_strlit("  (APPROVED)");
    reveal_strlit("  (not approved)");
    let rest = if m.approval@ == yes {
        "  (APPROVED)"@
    } else {
        "  (not approved)"@
    };
    assert("  ("@ + report::either(m.approval@ == yes, "APPROVED"@, "not approved"@) + ")"@ =~= rest);
    assert(lines[0] =~= "approval       : "@ + text::hex_upper(m.approval@) + rest);
    lemma_dump(lines[0], "approval       : "@, m.approval@, rest);
    reveal_strlit(" x 4 bytes");
    let a = "leaves[]       : "@;
    assert(lines[1] =~= seq![] + a + text::decimal(m.block_count as nat) + " x 4 bytes"@);
    notation::lemma_says_decimal(lines[1], seq![], a, m.block_count as nat, " x 4 bytes"@);
}

proof fn lemma_rest(m: Manifest)
    ensures
        says_rest(inspect::base_lines(m) + inspect::signature_lines(m) + inspect::tail_lines(m), m),
{
    let base = inspect::base_lines(m);
    let sig = inspect::signature_lines(m);
    let tail = inspect::tail_lines(m);
    flags(m);
    lemma_tail(m);
    if !is_full(m) {
        let zero = forall|i: int| 0 <= i < 8 ==> #[trigger] m.base_hash@[i] == 0;
        assert(zero == all_zero(m.base_hash@));
        reveal_strlit("");
        assert(""@ =~= seq![]);
        let rest = if zero {
            "  (zero)"@
        } else {
            seq![]
        };
        lemma_dump(base[0], "base_hash      : "@, m.base_hash@, rest);
    }
    if is_signed(m) {
        assert(sig[0] =~= "signer_pubkey  : "@ + text::hex_upper(m.signer@) + seq![]);
        lemma_dump(sig[0], "signer_pubkey  : "@, m.signer@, seq![]);
        assert(sig[1] =~= "signature      : "@ + text::hex_upper(m.signature@) + seq![]);
        lemma_dump(sig[1], "signature      : "@, m.signature@, seq![]);
    }
}

/// Every field of a manifest stands behind its label.
pub open spec fn says_all(lines: Seq<Seq<char>>, m: Manifest, total: int, label: Seq<char>) -> bool {
    &&& lines.len() >= 13
    &&& says_head(lines.subrange(0, 6), m, total, label)
    &&& says_sizes(lines.subrange(6, 10), m)
    &&& says_hashes(lines.subrange(10, 13), m)
    &&& says_rest(lines.skip(13), m)
}

proof fn lemma_all(
    a: Seq<Seq<char>>,
    b: Seq<Seq<char>>,
    c: Seq<Seq<char>>,
    d: Seq<Seq<char>>,
    e: Seq<Seq<char>>,
    f: Seq<Seq<char>>,
    m: Manifest,
    total: int,
    label: Seq<char>,
)
    requires
        a.len() == 6,
        b.len() == 4,
        c.len() == 3,
        says_head(a, m, total, label),
        says_sizes(b, m),
        says_hashes(c, m),
        says_rest(d + e + f, m),
    ensures
        says_all(a + b + c + d + e + f, m, total, label),
{
    let all = a + b + c + d + e + f;
    assert(all.subrange(0, 6) =~= a);
    assert(all.subrange(6, 10) =~= b);
    assert(all.subrange(10, 13) =~= c);
    assert(all.skip(13) =~= d + e + f);
}

/// Reading the lines about a manifest gives back every field of it, each from behind its own label.
#[verifier::rlimit(60)]
#[verifier::spinoff_prover]
pub proof fn fields_are_read_back(m: Manifest, total: nat, label: Seq<char>)
    ensures
        says_all(inspect::inspect_lines(m, total, label), m, total as int, label),
{
    lemma_head(m, total, label);
    lemma_sizes(m);
    lemma_hashes(m);
    lemma_rest(m);
    lemma_all(
        inspect::head_lines(m, total, label),
        inspect::size_lines(m),
        inspect::hash_lines(m),
        inspect::base_lines(m),
        inspect::signature_lines(m),
        inspect::tail_lines(m),
        m,
        total as int,
        label,
    );
}

/// The kind of a container: its codec decides, and the lowest flag where the codec is no patch.
pub open spec fn kind_of(m: Manifest) -> Seq<char> {
    if m.codec_id == 2 {
        "in-place delta"@
    } else if m.codec_id == 1 || !is_full(m) {
        "sequential delta"@
    } else {
        "full"@
    }
}

/// `signed` or `unsigned`.
pub open spec fn signed_or_not(m: Manifest) -> Seq<char> {
    if is_signed(m) {
        "signed"@
    } else {
        "unsigned"@
    }
}

/// The line ends with a label and this text.
pub open spec fn ends_with(line: Seq<char>, label: Seq<char>, word: Seq<char>) -> bool {
    notation::names_at(line, line.len() - word.len() - label.len(), label, word)
}

proof fn lemma_ends(line: Seq<char>, pre: Seq<char>, label: Seq<char>, word: Seq<char>)
    requires
        line == pre + label + word,
    ensures
        ends_with(line, label, word),
{
    assert(line =~= pre + label + word + seq![]);
    notation::lemma_names(line, pre, label, word, seq![]);
}

/// What is said of a container that was built: the file, the kind, the target, the version, the hardware tag and
/// whether it is signed, and then the sizes of the image, the payload and the container, and the number of
/// blocks.
pub open spec fn says_built(lines: Seq<Seq<char>>, m: Manifest, path: Seq<char>, total: int) -> bool {
    &&& lines.len() == 3
    &&& lines[0] == "wrote "@ + path
    &&& notation::names_at(lines[1], 0, "  "@, kind_of(m))
    &&& notation::says(lines[1], "  target="@, 16, m.target_id as int)
    &&& notation::names(lines[1], "  v"@, version::version_text(m.fw_version))
    &&& notation::names(lines[1], "  hw="@, tag_or(m, "?"@))
    &&& ends_with(lines[1], "  "@, signed_or_not(m))
    &&& notation::says_at(lines[2], 0, "  image="@, 10, m.image_size as int)
    &&& notation::says(lines[2], "B  payload="@, 10, m.payload_size as int)
    &&& notation::says(lines[2], "B  blocks="@, 10, m.block_count as int)
    &&& notation::says(lines[2], "  total="@, 10, total)
}

proof fn lemma_what(line: Seq<char>, kind: Seq<char>, target: u32, v: Seq<char>, hw: Seq<char>, word: Seq<char>)
    requires
        line == "  "@ + kind + "  target="@ + text::hexadecimal(target as nat, 8, true) + "  v"@ + v + "  hw="@ + hw
            + "  "@ + word,
    ensures
        notation::names_at(line, 0, "  "@, kind),
        notation::says(line, "  target="@, 16, target as int),
        notation::names(line, "  v"@, v),
        notation::names(line, "  hw="@, hw),
        ends_with(line, "  "@, word),
{
    let (a, b, c, d) = ("  "@, "  target="@, "  v"@, "  hw="@);
    let h = text::hexadecimal(target as nat, 8, true);
    assert(notation::names_at(line, 0, a, kind)) by {
        let rest = b + h + c + v + d + hw + a + word;
        assert(line =~= seq![] + a + kind + rest);
        notation::lemma_names(line, seq![], a, kind, rest);
    }
    assert(notation::says(line, b, 16, target as int)) by {
        reveal_strlit("  v");
        let rest = c + v + d + hw + a + word;
        assert(rest[0] == ' ');
        assert(line =~= (a + kind) + b + h + rest);
        notation::lemma_says_word(line, a + kind, b, target, true, rest);
    }
    let pre = a + kind + b + h;
    assert(notation::names(line, c, v)) by {
        let rest = d + hw + a + word;
        assert(line =~= pre + c + v + rest);
        notation::lemma_names(line, pre, c, v, rest);
    }
    assert(notation::names(line, d, hw)) by {
        assert(line =~= (pre + c + v) + d + hw + (a + word));
        notation::lemma_names(line, pre + c + v, d, hw, a + word);
    }
    lemma_ends(line, pre + c + v + d + hw, a, word);
}

proof fn lemma_built_sizes(line: Seq<char>, image: nat, payload: nat, blocks: nat, total: nat)
    requires
        line == "  image="@ + text::decimal(image) + "B  payload="@ + text::decimal(payload) + "B  blocks="@
            + text::decimal(blocks) + "  total="@ + text::decimal(total) + "B"@,
    ensures
        notation::says_at(line, 0, "  image="@, 10, image as int),
        notation::says(line, "B  payload="@, 10, payload as int),
        notation::says(line, "B  blocks="@, 10, blocks as int),
        notation::says(line, "  total="@, 10, total as int),
{
    let (a, b, c, d, e) = ("  image="@, "B  payload="@, "B  blocks="@, "  total="@, "B"@);
    let (x, y, z, t) = (text::decimal(image), text::decimal(payload), text::decimal(blocks), text::decimal(total));
    assert(notation::says_at(line, 0, a, 10, image as int)) by {
        reveal_strlit("B  payload=");
        let rest = b + y + c + z + d + t + e;
        assert(rest[0] == 'B');
        assert(line =~= seq![] + a + x + rest);
        notation::lemma_says_decimal(line, seq![], a, image, rest);
    }
    assert(notation::says(line, b, 10, payload as int)) by {
        reveal_strlit("B  blocks=");
        let rest = c + z + d + t + e;
        assert(rest[0] == 'B');
        assert(line =~= (a + x) + b + y + rest);
        notation::lemma_says_decimal(line, a + x, b, payload, rest);
    }
    assert(notation::says(line, c, 10, blocks as int)) by {
        reveal_strlit("  total=");
        let rest = d + t + e;
        assert(rest[0] == ' ');
        assert(line =~= (a + x + b + y) + c + z + rest);
        notation::lemma_says_decimal(line, a + x + b + y, c, blocks, rest);
    }
    assert(notation::says(line, d, 10, total as int)) by {
        reveal_strlit("B");
        assert(line =~= (a + x + b + y + c + z) + d + t + e);
        notation::lemma_says_decimal(line, a + x + b + y + c + z, d, total, e);
    }
}

/// Reading what is said of a container that was built gives back what it says.
pub proof fn built_is_read_back(m: Manifest, path: Seq<char>, total: nat)
    ensures
        says_built(report::built_lines(m, path, total), m, path, total as int),
{
    let lines = report::built_lines(m, path, total);
    flags(m);
    lemma_what(
        lines[1],
        m.kind(),
        m.target_id,
        version::version_text(m.fw_version),
        m.hardware("?"@),
        report::either(m.signed(), "signed"@, "unsigned"@),
    );
    lemma_built_sizes(
        lines[2],
        m.image_size as nat,
        m.payload_size as nat,
        m.block_count as nat,
        total,
    );
}

/// What is said of a container without problems: the file, what it is, the target and its label, the version,
/// the hardware tag, whether it is signed, the number of blocks and the size.
pub open spec fn says_ok(line: Seq<char>, file: Seq<char>, m: Manifest, label: Seq<char>, size: int) -> bool {
    let kind = if is_full(m) {
        "full"@
    } else {
        "delta"@
    };
    &&& notation::names_at(line, 0, "OK    "@, file)
    &&& notation::names(line, " : "@, kind)
    &&& notation::says(line, " target="@, 16, m.target_id as int)
    &&& notation::names(line, " ["@, label)
    &&& notation::names(line, "] v"@, version::version_text(m.fw_version))
    &&& notation::names(line, " hw="@, tag_or(m, "?"@))
    &&& notation::names(line, " "@, signed_or_not(m) + " blocks="@)
    &&& notation::says(line, " blocks="@, 10, m.block_count as int)
    &&& notation::says(line, " size="@, 10, size)
}

/// The end of a line: the number of blocks and the size.
proof fn lemma_blocks_and_size(line: Seq<char>, pre: Seq<char>, word: Seq<char>, blocks: nat, size: nat)
    requires
        line == pre + " "@ + word + " blocks="@ + text::decimal(blocks) + " size="@ + text::decimal(size),
    ensures
        notation::names(line, " "@, word + " blocks="@),
        notation::says(line, " blocks="@, 10, blocks as int),
        notation::says(line, " size="@, 10, size as int),
{
    let (a, b, c) = (" "@, " blocks="@, " size="@);
    let (x, y) = (text::decimal(blocks), text::decimal(size));
    assert(notation::names(line, a, word + b)) by {
        assert(line =~= pre + a + (word + b) + (x + c + y));
        notation::lemma_names(line, pre, a, word + b, x + c + y);
    }
    assert(notation::says(line, b, 10, blocks as int)) by {
        reveal_strlit(" size=");
        let rest = c + y;
        assert(rest[0] == ' ');
        assert(line =~= (pre + a + word) + b + x + rest);
        notation::lemma_says_decimal(line, pre + a + word, b, blocks, rest);
    }
    assert(notation::says(line, c, 10, size as int)) by {
        assert(line =~= (pre + a + word + b + x) + c + y + seq![]);
        notation::lemma_says_decimal(line, pre + a + word + b + x, c, size, seq![]);
    }
}

/// The middle of a line: the target, its label, and the version.
proof fn lemma_target(
    line: Seq<char>,
    pre: Seq<char>,
    target: u32,
    label: Seq<char>,
    v: Seq<char>,
    rest: Seq<char>,
)
    requires
        line == pre + " target="@ + text::hexadecimal(target as nat, 8, true) + " ["@ + label + "] v"@ + v + rest,
    ensures
        notation::says(line, " target="@, 16, target as int),
        notation::names(line, " ["@, label),
        notation::names(line, "] v"@, v),
{
    let (a, b, c) = (" target="@, " ["@, "] v"@);
    let h = text::hexadecimal(target as nat, 8, true);
    assert(notation::says(line, a, 16, target as int)) by {
        reveal_strlit(" [");
        let tail = b + label + c + v + rest;
        assert(tail[0] == ' ');
        assert(line =~= pre + a + h + tail);
        notation::lemma_says_word(line, pre, a, target, true, tail);
    }
    assert(notation::names(line, b, label)) by {
        assert(line =~= (pre + a + h) + b + label + (c + v + rest));
        notation::lemma_names(line, pre + a + h, b, label, c + v + rest);
    }
    assert(notation::names(line, c, v)) by {
        assert(line =~= (pre + a + h + b + label) + c + v + rest);
        notation::lemma_names(line, pre + a + h + b + label, c, v, rest);
    }
}

proof fn lemma_ok(
    line: Seq<char>,
    file: Seq<char>,
    kind: Seq<char>,
    target: u32,
    label: Seq<char>,
    v: Seq<char>,
    hw: Seq<char>,
    word: Seq<char>,
    blocks: nat,
    size: nat,
)
    requires
        line == "OK    "@ + file + " : "@ + kind + " target="@ + text::hexadecimal(target as nat, 8, true) + " ["@
            + label + "] v"@ + v + " hw="@ + hw + " "@ + word + " blocks="@ + text::decimal(blocks) + " size="@
            + text::decimal(size),
    ensures
        notation::names_at(line, 0, "OK    "@, file),
        notation::names(line, " : "@, kind),
        notation::says(line, " target="@, 16, target as int),
        notation::names(line, " ["@, label),
        notation::names(line, "] v"@, v),
        notation::names(line, " hw="@, hw),
        notation::names(line, " "@, word + " blocks="@),
        notation::says(line, " blocks="@, 10, blocks as int),
        notation::says(line, " size="@, 10, size as int),
{
    let h = text::hexadecimal(target as nat, 8, true);
    let head = "OK    "@ + file;
    let start = head + " : "@ + kind;
    let middle = " target="@ + h + " ["@ + label + "] v"@ + v;
    let tag = " hw="@ + hw;
    let end = " "@ + word + " blocks="@ + text::decimal(blocks) + " size="@ + text::decimal(size);
    assert(line =~= seq![] + "OK    "@ + file + (" : "@ + kind + middle + tag + end));
    notation::lemma_names(line, seq![], "OK    "@, file, " : "@ + kind + middle + tag + end);
    assert(line =~= head + " : "@ + kind + (middle + tag + end));
    notation::lemma_names(line, head, " : "@, kind, middle + tag + end);
    assert(line =~= start + " target="@ + h + " ["@ + label + "] v"@ + v + (tag + end));
    lemma_target(line, start, target, label, v, tag + end);
    assert(line =~= (start + middle) + " hw="@ + hw + end);
    notation::lemma_names(line, start + middle, " hw="@, hw, end);
    let pre = start + middle + tag;
    assert(line =~= pre + " "@ + word + " blocks="@ + text::decimal(blocks) + " size="@ + text::decimal(size));
    lemma_blocks_and_size(line, pre, word, blocks, size);
}

/// Reading what is said of a container without problems gives back what it says.
pub proof fn ok_is_read_back(file: Seq<char>, m: Manifest, label: Seq<char>, size: nat)
    ensures
        says_ok(report::ok_line(file, m, label, size), file, m, label, size as int),
{
    flags(m);
    lemma_ok(
        report::ok_line(file, m, label, size),
        file,
        report::either(m.full(), "full"@, "delta"@),
        m.target_id,
        label,
        version::version_text(m.fw_version),
        m.hardware("?"@),
        report::either(m.signed(), "signed"@, "unsigned"@),
        m.block_count as nat,
        size,
    );
}

/// Problems are written one after the other, each in brackets.
pub proof fn problems_in_brackets(a: Seq<Seq<char>>, b: Seq<Seq<char>>, problem: Seq<char>)
    ensures
        report::bracketed(seq![]).len() == 0,
        report::bracketed(seq![problem]) == " ["@ + problem + "]"@,
        report::bracketed(a + b) == report::bracketed(a) + report::bracketed(b),
    decreases b.len(),
{
    let one = seq![problem];
    let none: Seq<Seq<char>> = seq![];
    assert(one.drop_last() =~= none);
    assert(one.last() == problem);
    assert(report::bracketed(none) =~= seq![]);
    assert(report::bracketed(one) =~= " ["@ + problem + "]"@);
    if b.len() == 0 {
        assert(a + b =~= a);
        assert(report::bracketed(a) + report::bracketed(b) =~= report::bracketed(a));
    } else {
        problems_in_brackets(a, b.drop_last(), problem);
        assert((a + b).drop_last() =~= a + b.drop_last());
        assert(report::bracketed(a + b) =~= report::bracketed(a) + report::bracketed(b));
    }
}

/// A container with problems is said to fail, by the name of its file, and the problems follow.
pub proof fn fail_is_read_back(file: Seq<char>, problems: Seq<Seq<char>>)
    ensures
        ({
            let line = report::fail_line(file, problems);
            &&& notation::names_at(line, 0, "FAIL  "@, file)
            &&& ends_with(line, " :"@, report::bracketed(problems))
        }),
{
    let line = report::fail_line(file, problems);
    let rest = " :"@ + report::bracketed(problems);
    assert(line =~= seq![] + "FAIL  "@ + file + rest);
    notation::lemma_names(line, seq![], "FAIL  "@, file, rest);
    lemma_ends(line, "FAIL  "@ + file, " :"@, report::bracketed(problems));
}

/// The tag of the codec with a number.
pub open spec fn tag_of(codec_id: u8) -> Seq<char> {
    if codec_id == 0 {
        "full"@
    } else if codec_id == 1 {
        "seqdelta"@
    } else if codec_id == 2 {
        "ipdelta"@
    } else {
        "?"@
    }
}

/// What is said of a container in a folder: the file, the root, the target and its label, the version, the
/// codec, whether it is signed, the number of blocks and the size.
pub open spec fn says_entry(line: Seq<char>, name: Seq<char>, m: Manifest, label: Seq<char>, size: int) -> bool {
    &&& notation::names_at(line, 0, "  - "@, name)
    &&& notation::shows(line, " : mid="@, m.merkle_root@)
    &&& notation::says(line, " target="@, 16, m.target_id as int)
    &&& notation::names(line, " ["@, label)
    &&& notation::names(line, "] v"@, version::version_text(m.fw_version) + " "@ + tag_of(m.codec_id) + " "@)
    &&& notation::names(line, " "@, signed_or_not(m) + " blocks="@)
    &&& notation::says(line, " blocks="@, 10, m.block_count as int)
    &&& notation::says(line, " size="@, 10, size)
}

proof fn lemma_entry(
    line: Seq<char>,
    name: Seq<char>,
    root: Seq<u8>,
    target: u32,
    label: Seq<char>,
    v: Seq<char>,
    tag: Seq<char>,
    word: Seq<char>,
    blocks: nat,
    size: nat,
)
    requires
        line == "  - "@ + name + " : mid="@ + text::hex_upper(root) + " target="@ + text::hexadecimal(
            target as nat,
            8,
            true,
        ) + " ["@ + label + "] v"@ + v + " "@ + tag + " "@ + word + " blocks="@ + text::decimal(blocks) + " size="@
            + text::decimal(size),
    ensures
        notation::names_at(line, 0, "  - "@, name),
        notation::shows(line, " : mid="@, root),
        notation::says(line, " target="@, 16, target as int),
        notation::names(line, " ["@, label),
        notation::names(line, "] v"@, v + " "@ + tag + " "@),
        notation::names(line, " "@, word + " blocks="@),
        notation::says(line, " blocks="@, 10, blocks as int),
        notation::says(line, " size="@, 10, size as int),
{
    let h = text::hexadecimal(target as nat, 8, true);
    let mid = text::hex_upper(root);
    let head = "  - "@ + name;
    let start = head + " : mid="@ + mid;
    let w = v + " "@ + tag + " "@;
    let middle = " target="@ + h + " ["@ + label + "] v"@ + w;
    let end = word + " blocks="@ + text::decimal(blocks) + " size="@ + text::decimal(size);
    assert(line =~= seq![] + "  - "@ + name + (" : mid="@ + mid + middle + end));
    notation::lemma_names(line, seq![], "  - "@, name, " : mid="@ + mid + middle + end);
    assert(line =~= head + " : mid="@ + mid + (middle + end));
    notation::lemma_shows(line, head, " : mid="@, root, middle + end);
    assert(line =~= start + " target="@ + h + " ["@ + label + "] v"@ + w + end);
    lemma_target(line, start, target, label, w, end);
    let pre = start + " target="@ + h + " ["@ + label + "] v"@ + v + " "@ + tag;
    assert(line =~= pre + " "@ + word + " blocks="@ + text::decimal(blocks) + " size="@ + text::decimal(size));
    lemma_blocks_and_size(line, pre, word, blocks, size);
}

/// Reading what is said of a container in a folder gives back what it says.
pub proof fn entry_is_read_back(name: Seq<char>, m: Manifest, label: Seq<char>, size: nat)
    ensures
        says_entry(serve::entry_text(name, m, label, size), name, m, label, size as int),
{
    flags(m);
    lemma_entry(
        serve::entry_text(name, m, label, size),
        name,
        m.merkle_root@,
        m.target_id,
        label,
        version::version_text(m.fw_version),
        m.codec_tag(),
        report::either(m.signed(), "signed"@, "unsigned"@),
        m.block_count as nat,
        size,
    );
}

/// What is said of the container that captures start from: the file, the root, the number of blocks and the size
/// of the payload.
pub open spec fn says_seed(line: Seq<char>, name: Seq<char>, m: Manifest) -> bool {
    &&& notation::names_at(line, 0, "seed: "@, name)
    &&& notation::shows(line, " mid="@, m.merkle_root@)
    &&& notation::says(line, " blocks="@, 10, m.block_count as int)
    &&& notation::says(line, " payload="@, 10, m.payload_size as int)
}

proof fn lemma_seed(line: Seq<char>, name: Seq<char>, root: Seq<u8>, blocks: nat, payload: nat, rest: Seq<char>)
    requires
        line == "seed: "@ + name + " mid="@ + text::hex_upper(root) + " blocks="@ + text::decimal(blocks)
            + " payload="@ + text::decimal(payload) + rest,
        notation::ends_number(rest, 10),
    ensures
        notation::names_at(line, 0, "seed: "@, name),
        notation::shows(line, " mid="@, root),
        notation::says(line, " blocks="@, 10, blocks as int),
        notation::says(line, " payload="@, 10, payload as int),
{
    let (a, b, c, d) = ("seed: "@, " mid="@, " blocks="@, " payload="@);
    let (h, x, y) = (text::hex_upper(root), text::decimal(blocks), text::decimal(payload));
    assert(notation::names_at(line, 0, a, name)) by {
        assert(line =~= seq![] + a + name + (b + h + c + x + d + y + rest));
        notation::lemma_names(line, seq![], a, name, b + h + c + x + d + y + rest);
    }
    assert(notation::shows(line, b, root)) by {
        assert(line =~= (a + name) + b + h + (c + x + d + y + rest));
        notation::lemma_shows(line, a + name, b, root, c + x + d + y + rest);
    }
    assert(notation::says(line, c, 10, blocks as int)) by {
        reveal_strlit(" payload=");
        let tail = d + y + rest;
        assert(tail[0] == ' ');
        assert(line =~= (a + name + b + h) + c + x + tail);
        notation::lemma_says_decimal(line, a + name + b + h, c, blocks, tail);
    }
    notation::lemma_says_decimal(line, a + name + b + h + c + x, d, payload, rest);
}

/// Reading what is said of the container that captures start from gives back what it says.
pub proof fn seed_is_read_back(name: Seq<char>, m: Manifest)
    ensures
        says_seed(serve::seed_text(name, m), name, m),
{
    let rest = " (staged into each capture for `ota pull … validate`)"@;
    reveal_strlit(" (staged into each capture for `ota pull … validate`)");
    lemma_seed(
        serve::seed_text(name, m),
        name,
        m.merkle_root@,
        m.block_count as nat,
        m.payload_size as nat,
        rest,
    );
}

/// What is said of a folder: how many containers there are, where, and whether folders below count.
pub open spec fn says_folder(line: Seq<char>, count: int, dir: Seq<char>, recursive: bool) -> bool {
    &&& notation::says_at(line, 0, "motatool serve: "@, 10, count)
    &&& ends_with(
        line,
        " valid .mota in "@,
        if recursive {
            dir + " (recursive)"@
        } else {
            dir
        },
    )
}

/// Reading what is said of a folder gives back what it says.
pub proof fn folder_is_read_back(count: nat, dir: Seq<char>, recursive: bool)
    ensures
        says_folder(serve::folder_text(count, dir, recursive), count as int, dir, recursive),
{
    let line = serve::folder_text(count, dir, recursive);
    let (a, b) = ("motatool serve: "@, " valid .mota in "@);
    let n = text::decimal(count);
    let place = if recursive {
        dir + " (recursive)"@
    } else {
        dir
    };
    reveal_strlit("");
    reveal_strlit(" valid .mota in ");
    assert(""@ =~= seq![]);
    assert(line =~= a + n + b + place);
    let rest = b + place;
    assert(rest[0] == ' ');
    assert(line =~= seq![] + a + n + rest);
    notation::lemma_says_decimal(line, seq![], a, count, rest);
    lemma_ends(line, a + n, b, place);
}

} // verus!
