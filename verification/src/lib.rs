//! A content-addressed object store and smart-HTTP fetch client for the
//! repository format of a widely deployed version-control system.
//!
//! The library holds the verified core: canonical object encoding and
//! parsing, the loose-object store layout, packet-line framing, pack
//! decoding with delta application, and the pure parts of the fetch
//! protocol.  Filesystem and network work lives outside, in thin callers
//! that hand this crate plain bytes.

pub mod clock;
pub mod digest;
pub mod errors;
pub mod hexcode;
pub mod object;
pub mod objlaws;
pub mod objparse;
pub mod pack;
pub mod store;
pub mod transfer;
pub mod util;
pub mod zlib;
