//! Patch layouts, and the command lines by which the `detools` patch tool is run.

use vstd::prelude::*;
use vstd::string::*;

use crate::laws::commands;
use crate::text;
use crate::text::push_decimal;

verus! {

/// The layout of a patch. `Sequential` decodes into a fresh buffer (ESP32 A/B slot); `InPlace` rebuilds
/// within a bounded window that starts out holding the base (nRF52 single slot).
#[derive(Clone, Copy, PartialEq, Eq, Debug, Structural)]
pub enum PatchType {
    Sequential,
    InPlace,
}

impl PatchType {
    /// The text of [`PatchType::cli`].
    pub open spec fn cli_text(self) -> Seq<char> {
        match self {
            PatchType::Sequential => "sequential"@,
            PatchType::InPlace => "in-place"@,
        }
    }

    /// The name of the layout on a command line.
    pub fn cli(self) -> (s: &'static str)
        ensures
            s@ == self.cli_text(),
    {
        match self {
            PatchType::Sequential => "sequential",
            PatchType::InPlace => "in-place",
        }
    }
}

/// The window of an in-place patch. It must match the layout of the device's bootloader.
#[derive(Clone, Copy, Debug)]
pub struct InPlaceParams {
    pub memory_size: u32,
    pub segment_size: u32,
}

/// The arguments that make the tool diff `base` against `target` and write a patch to `out`. An in-place
/// patch needs a window.
pub open spec fn encode_command(
    base: Seq<char>,
    target: Seq<char>,
    out: Seq<char>,
    layout: PatchType,
    window: Option<InPlaceParams>,
) -> Option<Seq<Seq<char>>> {
    let common = seq![
        "encode"@,
        base,
        target,
        out,
        "--patch-type"@,
        layout.cli_text(),
        "--compression"@,
        "crle"@,
    ];
    match (layout, window) {
        (PatchType::Sequential, _) => Some(common),
        (PatchType::InPlace, None) => None,
        (PatchType::InPlace, Some(w)) => Some(
            common + seq![
                "--memory-size"@,
                text::decimal(w.memory_size as nat),
                "--segment-size"@,
                text::decimal(w.segment_size as nat),
            ],
        ),
    }
}

/// The arguments that make the tool apply the patch in `patch` to `base` and write the result to `out`.
pub open spec fn apply_command(
    base: Seq<char>,
    patch: Seq<char>,
    out: Seq<char>,
    layout: PatchType,
    memory_size: u32,
    to_size: u32,
) -> Seq<Seq<char>> {
    let common = seq!["apply"@, base, patch, out, "--patch-type"@, layout.cli_text()];
    match layout {
        PatchType::Sequential => common,
        PatchType::InPlace => common + seq![
            "--memory-size"@,
            text::decimal(memory_size as nat),
            "--to-size"@,
            text::decimal(to_size as nat),
        ],
    }
}

/// Adds an argument.
fn push_word(args: &mut Vec<String>, word: &str)
    ensures
        text::texts(final(args)@) == text::texts(old(args)@).push(word@),
{
    args.push(word.to_owned());
    assert(text::texts(args@) =~= text::texts(old(args)@).push(word@));
}

/// Adds a number as an argument.
fn push_number(args: &mut Vec<String>, n: u32)
    ensures
        text::texts(final(args)@) == text::texts(old(args)@).push(text::decimal(n as nat)),
{
    let mut s = String::new();
    push_decimal(&mut s, n as u64);
    assert(s@ =~= text::decimal(n as nat));
    args.push(s);
    assert(text::texts(args@) =~= text::texts(old(args)@).push(text::decimal(n as nat)));
}

/// The arguments for making a patch from the files `base` and `target`, written to `out`. `None` if an
/// in-place patch is asked for without a window.
pub fn encode_args(
    base: &str,
    target: &str,
    out: &str,
    layout: PatchType,
    window: Option<InPlaceParams>,
) -> (args: Option<Vec<String>>)
    ensures
        match args {
            Some(a) => encode_command(base@, target@, out@, layout, window) == Some(text::texts(a@)),
            None => encode_command(base@, target@, out@, layout, window) is None,
        },
        args is None <==> layout == PatchType::InPlace && window is None,
        args matches Some(a) ==> commands::encodes(text::texts(a@), base@, target@, out@, layout, window),
{
    proof {
        commands::tool_commands(base@, target@, out@, layout, window, 0, 0);
    }
    let mut args: Vec<String> = Vec::new();
    push_word(&mut args, "encode");
    push_word(&mut args, base);
    push_word(&mut args, target);
    push_word(&mut args, out);
    push_word(&mut args, "--patch-type");
    push_word(&mut args, layout.cli());
    push_word(&mut args, "--compression");
    push_word(&mut args, "crle");
    if layout == PatchType::InPlace {
        match window {
            Some(w) => {
                push_word(&mut args, "--memory-size");
                push_number(&mut args, w.memory_size);
                push_word(&mut args, "--segment-size");
                push_number(&mut args, w.segment_size);
            },
            None => return None,
        }
    }
    assert(encode_command(base@, target@, out@, layout, window)->0 =~= text::texts(args@));
    Some(args)
}

/// The arguments for applying the patch in `patch` to the file `base`, written to `out`.
pub fn apply_args(
    base: &str,
    patch: &str,
    out: &str,
    layout: PatchType,
    memory_size: u32,
    to_size: u32,
) -> (args: Vec<String>)
    ensures
        text::texts(args@) == apply_command(base@, patch@, out@, layout, memory_size, to_size),
        commands::applies(text::texts(args@), base@, patch@, out@, layout, memory_size, to_size),
{
    proof {
        commands::tool_commands(base@, patch@, out@, layout, None, memory_size, to_size);
    }
    let mut args: Vec<String> = Vec::new();
    push_word(&mut args, "apply");
    push_word(&mut args, base);
    push_word(&mut args, patch);
    push_word(&mut args, out);
    push_word(&mut args, "--patch-type");
    push_word(&mut args, layout.cli());
    if layout == PatchType::InPlace {
        push_word(&mut args, "--memory-size");
        push_number(&mut args, memory_size);
        push_word(&mut args, "--to-size");
        push_number(&mut args, to_size);
    }
    assert(text::texts(args@) =~= apply_command(base@, patch@, out@, layout, memory_size, to_size));
    args
}

} // verus!
