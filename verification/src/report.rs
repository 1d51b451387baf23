//! What the commands print about containers.

pub mod inspect;
pub mod serve;

use vstd::prelude::*;
use vstd::string::*;

use crate::endf;
use crate::endf::version_str;
use crate::format::{same_bytes, Codec, Manifest, MFLAG_FULL, MFLAG_SIGNED};
use crate::laws::notation;
use crate::laws::reports;
use crate::text;
use crate::text::{hex_encode_upper, push_decimal, push_hex};
use crate::verify;

verus! {

/// `yes` or `no`.
pub open spec fn either(choice: bool, yes: Seq<char>, no: Seq<char>) -> Seq<char> {
    if choice {
        yes
    } else {
        no
    }
}

impl Manifest {
    /// The payload is the image.
    pub open spec fn full(self) -> bool {
        self.flags & MFLAG_FULL != 0
    }

    /// The container is signed.
    pub open spec fn signed(self) -> bool {
        self.flags & MFLAG_SIGNED != 0
    }

    /// The hardware tag, or `none` where it is empty.
    pub open spec fn hardware(self, none: Seq<char>) -> Seq<char> {
        let hw = crate::format::utf8_lossy(crate::format::until_nul(self.hw_id@));
        either(hw.len() == 0, none, hw)
    }

    /// `full`, `in-place delta` or `sequential delta`.
    pub open spec fn kind(self) -> Seq<char> {
        if self.full() && self.codec_id != Codec::DetoolsSequential.id() && self.codec_id
            != Codec::DetoolsInplace.id() {
            "full"@
        } else if self.codec_id == Codec::DetoolsInplace.id() {
            "in-place delta"@
        } else {
            "sequential delta"@
        }
    }

    /// The label of the codec.
    pub open spec fn codec_label(self) -> Seq<char> {
        if self.codec_id == Codec::Full.id() {
            Codec::Full.label_text()
        } else if self.codec_id == Codec::DetoolsSequential.id() {
            Codec::DetoolsSequential.label_text()
        } else if self.codec_id == Codec::DetoolsInplace.id() {
            Codec::DetoolsInplace.label_text()
        } else {
            "?"@
        }
    }

    /// The short tag of the codec.
    pub open spec fn codec_tag(self) -> Seq<char> {
        if self.codec_id == Codec::Full.id() {
            Codec::Full.name_tag_text()
        } else if self.codec_id == Codec::DetoolsSequential.id() {
            Codec::DetoolsSequential.name_tag_text()
        } else if self.codec_id == Codec::DetoolsInplace.id() {
            Codec::DetoolsInplace.name_tag_text()
        } else {
            "?"@
        }
    }
}

/// The kind of a container, in words.
pub fn kind_label(m: &Manifest) -> (s: &'static str)
    ensures
        s@ == m.kind(),
{
    match m.codec() {
        Some(Codec::DetoolsInplace) => "in-place delta",
        Some(Codec::DetoolsSequential) => "sequential delta",
        _ => if m.is_full() {
            "full"
        } else {
            "sequential delta"
        },
    }
}

/// `signed` or `unsigned`.
pub(crate) fn signed_word(m: &Manifest) -> (s: &'static str)
    ensures
        s@ == either(m.signed(), "signed"@, "unsigned"@),
{
    if m.is_signed() {
        "signed"
    } else {
        "unsigned"
    }
}

/// Appends the hardware tag, or `none` where it is empty.
pub(crate) fn push_hardware(s: &mut String, m: &Manifest, none: &str)
    ensures
        final(s)@ == old(s)@ + m.hardware(none@),
{
    let hw: String = m.hw_id_str();
    if hw.as_str().is_empty() {
        s.append(none);
    } else {
        s.append(hw.as_str());
    }
}

/// What is said of a container that was built, in the file `path`: where it is, what it is, and its sizes.
pub open spec fn built_lines(m: Manifest, path: Seq<char>, total: nat) -> Seq<Seq<char>> {
    seq![
        "wrote "@ + path,
        "  "@ + m.kind() + "  target="@ + text::hexadecimal(m.target_id as nat, 8, true) + "  v"@
            + endf::version::version_text(m.fw_version) + "  hw="@ + m.hardware("?"@) + "  "@ + either(
            m.signed(),
            "signed"@,
            "unsigned"@,
        ),
        "  image="@ + text::decimal(m.image_size as nat) + "B  payload="@ + text::decimal(
            m.payload_size as nat,
        ) + "B  blocks="@ + text::decimal(m.block_count as nat) + "  total="@ + text::decimal(
            total,
        ) + "B"@,
    ]
}

/// Adds a line.
pub(crate) fn push_line(lines: &mut Vec<String>, line: String)
    ensures
        text::texts(final(lines)@) == text::texts(old(lines)@).push(line@),
{
    lines.push(line);
    assert(text::texts(lines@) =~= text::texts(old(lines)@).push(line@));
}

/// The line `<label><n>`.
pub(crate) fn number_line(label: &str, n: u64) -> (line: String)
    ensures
        line@ == label@ + text::decimal(n as nat),
{
    let mut line: String = label.to_owned();
    push_decimal(&mut line, n);
    line
}

/// The line `<label><bytes in hexadecimal>`.
pub(crate) fn bytes_line(label: &str, bytes: &[u8]) -> (line: String)
    ensures
        line@ == label@ + text::hex_upper(bytes@),
{
    let mut line: String = label.to_owned();
    line.append(hex_encode_upper(bytes).as_str());
    line
}

/// What is said of a container that was built, in the file `path`.
pub fn describe_built(m: &Manifest, path: &str, total: u64) -> (lines: Vec<String>)
    ensures
        text::texts(lines@) == built_lines(*m, path@, total as nat),
        reports::says_built(text::texts(lines@), *m, path@, total as int),
{
    proof {
        reports::built_is_read_back(*m, path@, total as nat);
    }
    let mut lines: Vec<String> = Vec::new();
    let mut wrote: String = "wrote ".to_owned();
    wrote.append(path);
    push_line(&mut lines, wrote);

    let mut what: String = "  ".to_owned();
    what.append(kind_label(m));
    what.append("  target=");
    push_hex(&mut what, m.target_id, 8, true);
    what.append("  v");
    what.append(version_str(m.fw_version).as_str());
    what.append("  hw=");
    push_hardware(&mut what, m, "?");
    what.append("  ");
    what.append(signed_word(m));
    push_line(&mut lines, what);

    let mut sizes: String = number_line("  image=", m.image_size as u64);
    sizes.append("B  payload=");
    push_decimal(&mut sizes, m.payload_size as u64);
    sizes.append("B  blocks=");
    push_decimal(&mut sizes, m.block_count as u64);
    sizes.append("  total=");
    push_decimal(&mut sizes, total);
    sizes.append("B");
    push_line(&mut lines, sizes);
    assert(text::texts(lines@) =~= built_lines(*m, path@, total as nat));
    lines
}

/// The line about a public key.
pub fn public_key_line(public_key: &[u8; 32]) -> (line: String)
    ensures
        line@ == "pubkey: "@ + text::hex_upper(public_key@),
        notation::shows_at(line@, 0, "pubkey: "@, public_key@),
{
    proof {
        let line = "pubkey: "@ + text::hex_upper(public_key@);
        assert(line =~= seq![] + "pubkey: "@ + text::hex_upper(public_key@) + seq![]);
        notation::lemma_shows(line, seq![], "pubkey: "@, public_key@, seq![]);
    }
    bytes_line("pubkey: ", public_key)
}

/// What is wrong with the signer of a container, where a key is asked for.
pub open spec fn signer_problems(m: Manifest, want: Option<[u8; 32]>) -> Seq<Seq<char>> {
    match want {
        None => seq![],
        Some(key) => if !m.signed() {
            seq!["not signed (but --pub was given)"@]
        } else if m.signer@ != key@ {
            seq!["signed by a different key than --pub"@]
        } else {
            seq![]
        },
    }
}

/// What was found of a container.
pub struct Verdict {
    /// If the container can be parsed.
    pub manifest: Option<Manifest>,
    pub problems: Vec<String>,
}

impl Verdict {
    /// The verdict is the one for this container, where a signature of `want` is asked for if it is given:
    /// the problems of the container, and then that of its signer.
    pub open spec fn judges(self, blob: Seq<u8>, want: Option<[u8; 32]>) -> bool {
        match self.manifest {
            Some(m) => {
                &&& crate::format::container_error(blob) is None
                &&& m.describes(blob)
                &&& text::texts(self.problems@) == verify::problems_of(blob) + signer_problems(m, want)
            },
            None => {
                &&& crate::format::container_error(blob) is Some
                &&& text::texts(self.problems@) == verify::problems_of(blob)
            },
        }
    }

    /// Whether nothing is wrong with the container.
    pub fn ok(&self) -> (ok: bool)
        ensures
            ok == (self.manifest is Some && self.problems@.len() == 0),
    {
        self.manifest.is_some() && self.problems.len() == 0
    }
}

/// Verifies a container, and that `want` signed it if a key is given.
pub fn judge(blob: &[u8], want: &Option<[u8; 32]>) -> (v: Verdict)
    ensures
        v.judges(blob@, *want),
{
    let mut problems: Vec<String> = verify::verify(blob);
    match Manifest::parse(blob) {
        Ok(m) => {
            if let Some(key) = want {
                if !m.is_signed() {
                    push_line(&mut problems, "not signed (but --pub was given)".to_owned());
                } else if !same_bytes(&m.signer, key) {
                    push_line(&mut problems, "signed by a different key than --pub".to_owned());
                }
            }
            assert(text::texts(problems@) =~= verify::problems_of(blob@) + signer_problems(m, *want));
            Verdict { manifest: Some(m), problems }
        },
        Err(_) => Verdict { manifest: None, problems },
    }
}

/// Each text in brackets.
pub open spec fn bracketed(problems: Seq<Seq<char>>) -> Seq<char>
    decreases problems.len(),
{
    if problems.len() == 0 {
        seq![]
    } else {
        bracketed(problems.drop_last()) + " ["@ + problems.last() + "]"@
    }
}

/// The line for a container without problems.
pub open spec fn ok_line(file: Seq<char>, m: Manifest, label: Seq<char>, size: nat) -> Seq<char> {
    "OK    "@ + file + " : "@ + either(m.full(), "full"@, "delta"@) + " target="@ + text::hexadecimal(
        m.target_id as nat,
        8,
        true,
    ) + " ["@ + label + "] v"@ + endf::version::version_text(m.fw_version) + " hw="@ + m.hardware("?"@)
        + " "@ + either(m.signed(), "signed"@, "unsigned"@) + " blocks="@ + text::decimal(
        m.block_count as nat,
    ) + " size="@ + text::decimal(size)
}

/// The line for a container with problems.
pub open spec fn fail_line(file: Seq<char>, problems: Seq<Seq<char>>) -> Seq<char> {
    "FAIL  "@ + file + " :"@ + bracketed(problems)
}

/// The line for the container in `file`, of `size` bytes, whose target is called `label`.
pub fn verdict_line(file: &str, v: &Verdict, label: &str, size: u64) -> (line: String)
    ensures
        line@ == match v.manifest {
            Some(m) if v.problems@.len() == 0 => ok_line(file@, m, label@, size as nat),
            _ => fail_line(file@, text::texts(v.problems@)),
        },
        match v.manifest {
            Some(m) if v.problems@.len() == 0 => reports::says_ok(line@, file@, m, label@, size as int),
            _ => {
                &&& notation::names_at(line@, 0, "FAIL  "@, file@)
                &&& reports::ends_with(line@, " :"@, bracketed(text::texts(v.problems@)))
            },
        },
{
    proof {
        if v.manifest is Some {
            reports::ok_is_read_back(file@, v.manifest->0, label@, size as nat);
        }
        reports::fail_is_read_back(file@, text::texts(v.problems@));
    }
    if let Some(m) = &v.manifest {
        if v.problems.len() == 0 {
            let mut line: String = "OK    ".to_owned();
            line.append(file);
            line.append(" : ");
            line.append(
                if m.is_full() {
                    "full"
                } else {
                    "delta"
                },
            );
            line.append(" target=");
            push_hex(&mut line, m.target_id, 8, true);
            line.append(" [");
            line.append(label);
            line.append("] v");
            line.append(version_str(m.fw_version).as_str());
            line.append(" hw=");
            push_hardware(&mut line, m, "?");
            line.append(" ");
            line.append(signed_word(m));
            line.append(" blocks=");
            push_decimal(&mut line, m.block_count as u64);
            line.append(" size=");
            push_decimal(&mut line, size);
            return line;
        }
    }
    let mut line: String = "FAIL  ".to_owned();
    line.append(file);
    line.append(" :");
    let ghost head = line@;
    let ghost all = text::texts(v.problems@);
    let n: usize = v.problems.len();
    let mut i: usize = 0;
    assert(head + bracketed(all.take(0)) =~= head);
    while i < n
        invariant
            n == v.problems@.len(),
            all == text::texts(v.problems@),
            i <= n,
            line@ == head + bracketed(all.take(i as int)),
        decreases n - i,
    {
        assert(all.take(i + 1).drop_last() =~= all.take(i as int));
        assert(all.take(i + 1).last() == v.problems@[i as int]@);
        line.append(" [");
        line.append(v.problems[i].as_str());
        line.append("]");
        i = i + 1;
        assert(line@ =~= head + bracketed(all.take(i as int)));
    }
    assert(all.take(n as int) =~= all);
    line
}

} // verus!
