//! The mota-seeder link protocol between a host and a node.
//!
//! Request: `M S  op(1)  args…  xsum(1 = XOR of op and args)`.
//! Response: `m s  op(1)  status(1)  payload…  xsum(1 = XOR of all prior)`.

use vstd::prelude::*;

verus! {

/// `MS`
pub const REQ_MAGIC: [u8; 2] = [0x4d, 0x53];

/// `ms`
pub const RSP_MAGIC: [u8; 2] = [0x6d, 0x73];

/// Gives count(1).
pub const OP_COUNT: u8 = 0x01;

/// idx(1), gives a description.
pub const OP_DESCRIBE: u8 = 0x02;

/// idx(1) off(4) len(2), gives bytes.
pub const OP_READ: u8 = 0x03;

/// mid(4), gives present(1) total(4).
pub const OP_STAT: u8 = 0x04;

/// mid(4) total(4), creates a file filled with `0xFF`.
pub const OP_BEGIN: u8 = 0x05;

/// mid(4) off(4) len(2) data(len).
pub const OP_WRITE: u8 = 0x06;

/// mid(4) off(4) len(2), gives bytes (`0xFF` where nothing was written).
pub const OP_SREAD: u8 = 0x07;

/// mid(4), validates and publishes.
pub const OP_FIN: u8 = 0x08;

pub const STATUS_OK: u8 = 0x00;

pub const STATUS_ERR: u8 = 0x01;

/// The size of a description on the wire.
pub const DESC_WIRE: usize = 38;

/// The most data bytes of one write or read.
pub const WRITE_MAX: usize = 512;

/// Fixed header length (the bytes after `op`) of a request, or `None` for an unknown op. `OP_WRITE`
/// additionally carries `len` data bytes after its header.
pub fn request_header_len(op: u8) -> (len: Option<usize>)
    ensures
        len == (if op == OP_COUNT {
            Some(0usize)
        } else if op == OP_DESCRIBE {
            Some(1usize)
        } else if op == OP_READ {
            Some(7usize)
        } else if op == OP_STAT || op == OP_FIN {
            Some(4usize)
        } else if op == OP_BEGIN {
            Some(8usize)
        } else if op == OP_SREAD || op == OP_WRITE {
            Some(10usize)
        } else {
            None
        }),
        len == (match op {
            1u8 => Some(0usize),
            2u8 => Some(1usize),
            3u8 => Some(7usize),
            4u8 => Some(4usize),
            5u8 => Some(8usize),
            6u8 => Some(10usize),
            7u8 => Some(10usize),
            8u8 => Some(4usize),
            _ => None,
        }),
{
    if op == OP_COUNT {
        Some(0)
    } else if op == OP_DESCRIBE {
        Some(1)
    } else if op == OP_READ {
        Some(7)
    } else if op == OP_STAT || op == OP_FIN {
        Some(4)
    } else if op == OP_BEGIN {
        Some(8)
    } else if op == OP_SREAD || op == OP_WRITE {
        Some(10)
    } else {
        None
    }
}

} // verus!
