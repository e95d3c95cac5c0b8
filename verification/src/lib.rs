//! Verified core of the Carlinkit OTA / boot support library.
//!
//! The library holds the computing parts: checksums, OTA image parsing and
//! packing, U-Boot environment signing, kernel module dependency resolution,
//! property files and small configuration formatters. Everything that talks to
//! the operating system lives in the companion application crate.
use vstd::prelude::*;

pub mod bytes;
pub mod crc;
pub mod text;
pub mod md5;
pub mod ota;
pub mod ota_packer;
pub mod ota_roundtrip;
pub mod hwid;
pub mod modules_info;
pub mod signer;
pub mod props;
pub mod web;
pub mod flash;
pub mod modprobe;
pub mod config;
pub mod radio;
pub mod boot;
pub mod sanitizer;
pub mod args;

verus! {

} // verus!
