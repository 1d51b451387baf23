//! motatool: build, verify and inspect MeshCore `.mota` firmware-update containers.

pub mod args;
pub mod build;
pub mod crypto;
pub mod decode;
pub mod delta;
pub mod encode;
pub mod endf;
pub mod format;
pub mod input;
pub mod laws;
pub mod merkle;
pub mod report;
pub mod text;
pub mod verify;

pub use build::{build, BuildOpts, Built};
pub use delta::PatchType;
pub use format::{Codec, FwIdent, Manifest};
pub use verify::verify;
