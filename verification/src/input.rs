//! What a firmware input is: an image as it is, or an Intel HEX file.

pub mod intel_hex;

use vstd::prelude::*;
use vstd::string::*;

use crate::format::put;
use crate::text;
use crate::text::starts_with;

use intel_hex::{parse_intel_hex, HexError};

verus! {

/// `s` is an `http(s)` URL.
pub open spec fn names_url(s: Seq<char>) -> bool {
    text::begins_with(s, "http://"@) || text::begins_with(s, "https://"@)
}

/// Whether `s` is an `http(s)` URL.
pub fn is_url(s: &str) -> (r: bool)
    ensures
        r == names_url(s@),
{
    starts_with(s, "http://") || starts_with(s, "https://")
}

/// `s` ends with `.hex`, in letters of either case.
pub open spec fn names_hex(s: Seq<char>) -> bool {
    let n = s.len() as int;
    &&& n >= 4
    &&& s[n - 4] == '.'
    &&& s[n - 3] == 'h' || s[n - 3] == 'H'
    &&& s[n - 2] == 'e' || s[n - 2] == 'E'
    &&& s[n - 1] == 'x' || s[n - 1] == 'X'
}

/// Whether `s` ends with `.hex`, in letters of either case.
pub fn is_hex_name(s: &str) -> (r: bool)
    ensures
        r == names_hex(s@),
{
    let n: usize = s.unicode_len();
    if n < 4 {
        return false;
    }
    let h: char = s.get_char(n - 3);
    let e: char = s.get_char(n - 2);
    let x: char = s.get_char(n - 1);
    s.get_char(n - 4) == '.' && (h == 'h' || h == 'H') && (e == 'e' || e == 'E') && (x == 'x' || x == 'X')
}

/// Why an input holds no image.
#[derive(Clone, Copy, PartialEq, Eq, Debug, Structural)]
pub enum InputError {
    /// There are no bytes.
    Empty,
    /// It is named as Intel HEX, but is none.
    Hex(HexError),
}

impl InputError {
    /// The text of [`InputError::message`].
    pub open spec fn text(self, src: Seq<char>) -> Seq<char> {
        match self {
            InputError::Empty => "input is empty: "@ + src,
            InputError::Hex(e) => "parsing Intel HEX: "@ + src + ": "@ + e.text(),
        }
    }

    /// The error about the input `src`, in words.
    pub fn message(&self, src: &str) -> (s: String)
        ensures
            s@ == self.text(src@),
    {
        match self {
            InputError::Empty => {
                let mut s: String = "input is empty: ".to_owned();
                s.append(src);
                s
            },
            InputError::Hex(e) => {
                let mut s: String = "parsing Intel HEX: ".to_owned();
                s.append(src);
                s.append(": ");
                s.append(e.message());
                s
            },
        }
    }
}

/// The image that an input holds: that of an Intel HEX file if it is named so, else the bytes as they are.
pub open spec fn image_in(src: Seq<char>, raw: Seq<u8>) -> Result<Seq<u8>, InputError> {
    if raw.len() == 0 {
        Err(InputError::Empty)
    } else if names_hex(src) {
        match intel_hex::hex_image(raw) {
            Ok(image) => Ok(image),
            Err(e) => Err(InputError::Hex(e)),
        }
    } else {
        Ok(raw)
    }
}

/// The image in the bytes `raw` that were read from the path or URL `src`.
pub fn decode_input(src: &str, raw: &[u8]) -> (r: Result<Vec<u8>, InputError>)
    ensures
        match r {
            Ok(image) => image_in(src@, raw@) == Ok::<Seq<u8>, InputError>(image@),
            Err(e) => image_in(src@, raw@) == Err::<Seq<u8>, InputError>(e),
        },
{
    if raw.len() == 0 {
        return Err(InputError::Empty);
    }
    if is_hex_name(src) {
        match parse_intel_hex(raw) {
            Ok(image) => Ok(image),
            Err(e) => Err(InputError::Hex(e)),
        }
    } else {
        let mut image: Vec<u8> = Vec::new();
        put(&mut image, raw);
        assert(image@ =~= raw@);
        Ok(image)
    }
}

} // verus!
