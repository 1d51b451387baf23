//! Every field of a manifest, in words.

use vstd::arithmetic::power2;
use vstd::prelude::*;
use vstd::string::*;

use crate::endf;
use crate::endf::version_str;
use crate::format::{Manifest, APPROVAL_YES};
use crate::laws::reports;
use crate::report;
use crate::report::{bytes_line, number_line, push_hardware, push_line};
use crate::text;
use crate::text::{push_decimal, push_hex};

verus! {

/// `true` or `false`.
pub open spec fn truth(b: bool) -> Seq<char> {
    report::either(b, "true"@, "false"@)
}

/// What the container is.
pub open spec fn head_lines(m: Manifest, total: nat, label: Seq<char>) -> Seq<Seq<char>> {
    seq![
        "total_size     : "@ + text::decimal(total),
        "format_ver     : "@ + text::decimal(m.format_ver as nat),
        "flags          : 0x"@ + text::hexadecimal(m.flags as nat, 2, false) + "  FULL="@ + truth(
            m.full(),
        ) + " SIGNED="@ + truth(m.signed()),
        "hash_algo      : 0x"@ + text::hexadecimal(m.hash_algo as nat, 2, false) + " (sha2-256)"@,
        "target_id      : 0x"@ + text::hexadecimal(m.target_id as nat, 8, false) + "  ("@ + label + ")"@,
        "fw_version     : "@ + endf::version::version_text(m.fw_version) + "  (0x"@ + text::hexadecimal(
            m.fw_version as nat,
            8,
            false,
        ) + ")"@,
    ]
}

/// The sizes and the codec.
pub open spec fn size_lines(m: Manifest) -> Seq<Seq<char>> {
    seq![
        "image_size     : "@ + text::decimal(m.image_size as nat),
        "payload_size   : "@ + text::decimal(m.payload_size as nat),
        "block_size     : "@ + text::decimal(power2::pow2(m.block_size_log2 as nat)) + "  (log2="@
            + text::decimal(m.block_size_log2 as nat) + ")  block_count="@ + text::decimal(
            m.block_count as nat,
        ),
        "codec_id       : "@ + text::decimal(m.codec_id as nat) + " ("@ + m.codec_label() + ")"@,
    ]
}

/// The hashes and the hardware tag.
pub open spec fn hash_lines(m: Manifest) -> Seq<Seq<char>> {
    seq![
        "merkle_root    : "@ + text::hex_upper(m.merkle_root@),
        "image_hash     : "@ + text::hex_upper(m.image_hash@),
        "hw_id          : "@ + m.hardware("(none)"@),
    ]
}

/// The base of a delta, and whether it is zero.
pub open spec fn base_lines(m: Manifest) -> Seq<Seq<char>> {
    if m.full() {
        seq![]
    } else {
        seq![
            "base_hash      : "@ + text::hex_upper(m.base_hash@) + report::either(
                forall|i: int| 0 <= i < 8 ==> #[trigger] m.base_hash@[i] == 0,
                "  (zero)"@,
                ""@,
            ),
        ]
    }
}

/// The signature, if there is one.
pub open spec fn signature_lines(m: Manifest) -> Seq<Seq<char>> {
    if m.signed() {
        seq![
            "signer_pubkey  : "@ + text::hex_upper(m.signer@),
            "signature      : "@ + text::hex_upper(m.signature@),
        ]
    } else {
        seq![]
    }
}

/// The approval and the number of leaves.
pub open spec fn tail_lines(m: Manifest) -> Seq<Seq<char>> {
    seq![
        "approval       : "@ + text::hex_upper(m.approval@) + "  ("@ + report::either(
            m.approval@ == APPROVAL_YES@,
            "APPROVED"@,
            "not approved"@,
        ) + ")"@,
        "leaves[]       : "@ + text::decimal(m.block_count as nat) + " x 4 bytes"@,
    ]
}

/// Every field of a manifest: that of a container of `total` bytes, whose target is called `label`.
pub open spec fn inspect_lines(m: Manifest, total: nat, label: Seq<char>) -> Seq<Seq<char>> {
    head_lines(m, total, label) + size_lines(m) + hash_lines(m) + base_lines(m) + signature_lines(m)
        + tail_lines(m)
}

/// Appends `true` or `false`.
fn push_truth(s: &mut String, b: bool)
    ensures
        final(s)@ == old(s)@ + truth(b),
{
    if b {
        s.append("true");
    } else {
        s.append("false");
    }
}

fn push_head(lines: &mut Vec<String>, m: &Manifest, total: u64, label: &str)
    ensures
        text::texts(final(lines)@) == text::texts(old(lines)@) + head_lines(*m, total as nat, label@),
{
    push_line(lines, number_line("total_size     : ", total));
    push_line(lines, number_line("format_ver     : ", m.format_ver as u64));

    let mut flags: String = "flags          : 0x".to_owned();
    push_hex(&mut flags, m.flags as u32, 2, false);
    flags.append("  FULL=");
    push_truth(&mut flags, m.is_full());
    flags.append(" SIGNED=");
    push_truth(&mut flags, m.is_signed());
    push_line(lines, flags);

    let mut algo: String = "hash_algo      : 0x".to_owned();
    push_hex(&mut algo, m.hash_algo as u32, 2, false);
    algo.append(" (sha2-256)");
    push_line(lines, algo);

    let mut target: String = "target_id      : 0x".to_owned();
    push_hex(&mut target, m.target_id, 8, false);
    target.append("  (");
    target.append(label);
    target.append(")");
    push_line(lines, target);

    let mut version: String = "fw_version     : ".to_owned();
    version.append(version_str(m.fw_version).as_str());
    version.append("  (0x");
    push_hex(&mut version, m.fw_version, 8, false);
    version.append(")");
    push_line(lines, version);
    assert(text::texts(lines@) =~= text::texts(old(lines)@) + head_lines(*m, total as nat, label@));
}

fn push_sizes(lines: &mut Vec<String>, m: &Manifest)
    requires
        m.block_size_log2 < 32,
    ensures
        text::texts(final(lines)@) == text::texts(old(lines)@) + size_lines(*m),
{
    push_line(lines, number_line("image_size     : ", m.image_size as u64));
    push_line(lines, number_line("payload_size   : ", m.payload_size as u64));

    let mut blocks: String = number_line("block_size     : ", m.block_size() as u64);
    blocks.append("  (log2=");
    push_decimal(&mut blocks, m.block_size_log2 as u64);
    blocks.append(")  block_count=");
    push_decimal(&mut blocks, m.block_count as u64);
    push_line(lines, blocks);

    let mut codec: String = number_line("codec_id       : ", m.codec_id as u64);
    codec.append(" (");
    codec.append(
        match m.codec() {
            Some(c) => c.label(),
            None => "?",
        },
    );
    codec.append(")");
    push_line(lines, codec);
    assert(text::texts(lines@) =~= text::texts(old(lines)@) + size_lines(*m));
}

fn push_hashes(lines: &mut Vec<String>, m: &Manifest)
    ensures
        text::texts(final(lines)@) == text::texts(old(lines)@) + hash_lines(*m),
{
    push_line(lines, bytes_line("merkle_root    : ", &m.merkle_root));
    push_line(lines, bytes_line("image_hash     : ", &m.image_hash));
    let mut hw: String = "hw_id          : ".to_owned();
    push_hardware(&mut hw, m, "(none)");
    push_line(lines, hw);
    assert(text::texts(lines@) =~= text::texts(old(lines)@) + hash_lines(*m));
}

/// Whether all bytes are zero.
fn all_zero(bytes: &[u8; 8]) -> (zero: bool)
    ensures
        zero == forall|i: int| 0 <= i < 8 ==> #[trigger] bytes@[i] == 0,
{
    let mut i: usize = 0;
    while i < 8
        invariant
            i <= 8,
            forall|k: int| 0 <= k < i ==> #[trigger] bytes@[k] == 0,
        decreases 8 - i,
    {
        if bytes[i] != 0 {
            assert(bytes@[i as int] != 0);
            return false;
        }
        i = i + 1;
    }
    true
}

fn push_base(lines: &mut Vec<String>, m: &Manifest)
    ensures
        text::texts(final(lines)@) == text::texts(old(lines)@) + base_lines(*m),
{
    if !m.is_full() {
        let mut base: String = bytes_line("base_hash      : ", &m.base_hash);
        base.append(
            if all_zero(&m.base_hash) {
                "  (zero)"
            } else {
                ""
            },
        );
        push_line(lines, base);
    }
    assert(text::texts(lines@) =~= text::texts(old(lines)@) + base_lines(*m));
}

fn push_signature(lines: &mut Vec<String>, m: &Manifest)
    ensures
        text::texts(final(lines)@) == text::texts(old(lines)@) + signature_lines(*m),
{
    if m.is_signed() {
        push_line(lines, bytes_line("signer_pubkey  : ", &m.signer));
        push_line(lines, bytes_line("signature      : ", &m.signature));
    }
    assert(text::texts(lines@) =~= text::texts(old(lines)@) + signature_lines(*m));
}

fn push_tail(lines: &mut Vec<String>, m: &Manifest)
    ensures
        text::texts(final(lines)@) == text::texts(old(lines)@) + tail_lines(*m),
{
    let mut approval: String = bytes_line("approval       : ", &m.approval);
    approval.append("  (");
    approval.append(
        if m.is_approved() {
            "APPROVED"
        } else {
            "not approved"
        },
    );
    approval.append(")");
    push_line(lines, approval);
    let mut leaves: String = number_line("leaves[]       : ", m.block_count as u64);
    leaves.append(" x 4 bytes");
    push_line(lines, leaves);
    assert(text::texts(lines@) =~= text::texts(old(lines)@) + tail_lines(*m));
}

/// Every field of a manifest, one a line.
pub fn describe(m: &Manifest, total: u64, label: &str) -> (lines: Vec<String>)
    requires
        m.block_size_log2 < 32,
    ensures
        text::texts(lines@) == inspect_lines(*m, total as nat, label@),
        reports::says_all(text::texts(lines@), *m, total as int, label@),
{
    proof {
        reports::fields_are_read_back(*m, total as nat, label@);
    }
    let mut lines: Vec<String> = Vec::new();
    assert(text::texts(lines@) =~= seq![]);
    push_head(&mut lines, m, total, label);
    push_sizes(&mut lines, m);
    push_hashes(&mut lines, m);
    push_base(&mut lines, m);
    push_signature(&mut lines, m);
    push_tail(&mut lines, m);
    assert(text::texts(lines@) =~= inspect_lines(*m, total as nat, label@));
    lines
}

} // verus!
