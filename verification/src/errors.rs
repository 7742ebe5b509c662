use vstd::prelude::*;

verus! {

/// The error taxonomy of the library.
///
/// Every fallible operation reports one of these kinds; the contracts of the
/// parsing and decoding functions say exactly which kind comes on which input.
#[derive(Debug, Clone, Copy, PartialEq, Eq, Structural)]
pub enum GitError {
    /// A filesystem read, write, create or mkdir failed.
    StoreIO,
    /// A lookup for an identity that has no file in the store.
    MissingObject,
    /// A loose object failed to decompress or parse, or its recomputed
    /// identity disagrees with the requested one.
    CorruptObject,
    /// A canonical object form violates its structure.
    InvalidObject,
    /// A packet line has a non-hex length, too few bytes, or a length below 4.
    BadPktLine,
    /// A pack stream has a bad magic, unknown version, digest mismatch,
    /// out-of-range record header, or an unresolved delta base.
    PackCorrupt,
    /// A delta stream has a zero-length insert, an out-of-range copy, or a
    /// target length mismatch.
    BadDelta,
    /// A variable-length integer runs off the end of its input.
    TruncatedVarint,
    /// The advertisement or the upload-pack response has the wrong shape.
    ProtocolError,
    /// A non-success HTTP status or a wrong content type.
    HttpError,
}

} // verus!
