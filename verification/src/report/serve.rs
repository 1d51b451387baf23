//! What serving a folder of containers prints and decides.

use vstd::prelude::*;
use vstd::string::*;

use crate::endf;
use crate::endf::version_str;
use crate::format::{put, Manifest, ParseError};
use crate::laws::reports;
use crate::laws::verification;
use crate::report;
use crate::report::signed_word;
use crate::text;
use crate::text::{hex_encode_upper, push_decimal, push_hex};
use crate::verify;

verus! {

/// The line about a folder with `count` containers.
pub open spec fn folder_text(count: nat, dir: Seq<char>, recursive: bool) -> Seq<char> {
    "motatool serve: "@ + text::decimal(count) + " valid .mota in "@ + dir + report::either(
        recursive,
        " (recursive)"@,
        ""@,
    )
}

/// The line about a folder with `count` containers.
pub fn folder_line(count: u64, dir: &str, recursive: bool) -> (line: String)
    ensures
        line@ == folder_text(count as nat, dir@, recursive),
        reports::says_folder(line@, count as int, dir@, recursive),
{
    proof {
        reports::folder_is_read_back(count as nat, dir@, recursive);
    }
    let mut line: String = "motatool serve: ".to_owned();
    push_decimal(&mut line, count);
    line.append(" valid .mota in ");
    line.append(dir);
    line.append(
        if recursive {
            " (recursive)"
        } else {
            ""
        },
    );
    line
}

/// The line about one container of `size` bytes in the file `name`, whose target is called `label`.
pub open spec fn entry_text(name: Seq<char>, m: Manifest, label: Seq<char>, size: nat) -> Seq<char> {
    "  - "@ + name + " : mid="@ + text::hex_upper(m.merkle_root@) + " target="@ + text::hexadecimal(
        m.target_id as nat,
        8,
        true,
    ) + " ["@ + label + "] v"@ + endf::version::version_text(m.fw_version) + " "@ + m.codec_tag() + " "@
        + report::either(m.signed(), "signed"@, "unsigned"@) + " blocks="@ + text::decimal(
        m.block_count as nat,
    ) + " size="@ + text::decimal(size)
}

/// The line about one container.
pub fn entry_line(name: &str, m: &Manifest, label: &str, size: u64) -> (line: String)
    ensures
        line@ == entry_text(name@, *m, label@, size as nat),
        reports::says_entry(line@, name@, *m, label@, size as int),
{
    proof {
        reports::entry_is_read_back(name@, *m, label@, size as nat);
    }
    let mut line: String = "  - ".to_owned();
    line.append(name);
    line.append(" : mid=");
    line.append(hex_encode_upper(&m.merkle_root).as_str());
    line.append(" target=");
    push_hex(&mut line, m.target_id, 8, true);
    line.append(" [");
    line.append(label);
    line.append("] v");
    line.append(version_str(m.fw_version).as_str());
    line.append(" ");
    line.append(
        match m.codec() {
            Some(c) => c.name_tag(),
            None => "?",
        },
    );
    line.append(" ");
    line.append(signed_word(m));
    line.append(" blocks=");
    push_decimal(&mut line, m.block_count as u64);
    line.append(" size=");
    push_decimal(&mut line, size);
    line
}

/// The line about the container in the file `name` that captures start from.
pub open spec fn seed_text(name: Seq<char>, m: Manifest) -> Seq<char> {
    "seed: "@ + name + " mid="@ + text::hex_upper(m.merkle_root@) + " blocks="@ + text::decimal(
        m.block_count as nat,
    ) + " payload="@ + text::decimal(m.payload_size as nat)
        + " (staged into each capture for `ota pull … validate`)"@
}

/// The line about the container that captures start from.
pub fn seed_line(name: &str, m: &Manifest) -> (line: String)
    ensures
        line@ == seed_text(name@, *m),
        reports::says_seed(line@, name@, *m),
{
    proof {
        reports::seed_is_read_back(name@, *m);
    }
    let mut line: String = "seed: ".to_owned();
    line.append(name);
    line.append(" mid=");
    line.append(hex_encode_upper(&m.merkle_root).as_str());
    line.append(" blocks=");
    push_decimal(&mut line, m.block_count as u64);
    line.append(" payload=");
    push_decimal(&mut line, m.payload_size as u64);
    line.append(" (staged into each capture for `ota pull … validate`)");
    line
}

/// What captures start from: the manifest and the payload of a container.
pub struct Seed {
    pub manifest: Manifest,
    pub payload: Vec<u8>,
}

/// Takes a container apart for captures to start from.
pub fn take_seed(blob: &[u8]) -> (r: Result<Seed, ParseError>)
    ensures
        match r {
            Ok(seed) => {
                &&& crate::format::container_error(blob@) is None
                &&& seed.manifest.describes(blob@)
                &&& seed.payload@ == verify::payload_in(blob@)
                &&& seed.payload@ == verification::payload_at(blob@)
            },
            Err(e) => crate::format::container_error(blob@) == Some(e),
        },
{
    let m: Manifest = match Manifest::parse(blob) {
        Ok(m) => m,
        Err(e) => return Err(e),
    };
    let size: usize = blob.len();
    proof {
        verify::lemma_block_count(blob@);
        verification::payload_by_bytes(blob@);
    }
    let start: usize = m.payload_off();
    let end: usize = start + m.payload_size as usize;
    let mut payload: Vec<u8> = Vec::new();
    put(&mut payload, vstd::slice::slice_subrange(blob, start, end));
    assert(payload@ =~= verify::payload_in(blob@));
    Ok(Seed { manifest: m, payload })
}

/// Whether the node's console is told to turn relaying on and off: on a serial line, which the console
/// shares, unless that is declined.
pub fn toggles_relay(tcp: bool, declined: bool) -> (r: bool)
    ensures
        r == (!tcp && !declined),
{
    !tcp && !declined
}

} // verus!
