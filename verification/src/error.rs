//! Error types for the trickydata client. Each failure is a structured value
//! so that contracts can say exactly which failure comes for which input.

use vstd::prelude::*;

use crate::decode_as::DecodeAs;

verus! {

/// Why a payload is not valid in its text encoding.
#[derive(Debug, Clone, Copy, PartialEq, Eq, Structural)]
pub enum TextFault {
    /// `ascii`: the first byte at or above 0x80, and its index.
    NonAscii { byte: u8, index: usize },
    /// `utf8`: the length of the longest valid prefix, and the length of the
    /// invalid sequence after it (`None` when the input ends mid-sequence).
    Utf8 { valid_up_to: usize, error_len: Option<usize> },
    /// `utf16-le`/`utf32-le`: the byte length is not a multiple of the code
    /// unit width.
    PartialUnit { len: usize, unit: usize },
    /// `utf16-le`: the first code unit that is a surrogate without its partner.
    UnpairedSurrogate(u16),
    /// `utf32-le`: the first code unit that is not a Unicode scalar value.
    NotScalar(u32),
}

/// A payload could not be decoded into its declared (or would-be) type.
///
/// Raised by [`crate::Example::value`] for deliberately-invalid inputs: the
/// value never silently falls back to bytes.
#[derive(Debug, Clone, Copy, PartialEq, Eq, Structural)]
pub enum DecodeError {
    /// The payload was not the exact width an integer/float decode requires
    /// (numerics are little-endian with no padding).
    WrongLength { decode_as: DecodeAs, expected: usize, got: usize },
    /// The bytes were not valid in the declared text encoding.
    InvalidText { decode_as: DecodeAs, detail: TextFault },
}

/// `Example::as_text()` was called on a non-text input.
#[derive(Debug, Clone, PartialEq, Eq)]
pub struct NotTextError {
    pub name: String,
    pub decode_as: DecodeAs,
}

/// Which part of a `.trickydata` container ran out of bytes.
#[derive(Debug, Clone, Copy, PartialEq, Eq, Structural)]
pub enum Section {
    LeadingChecksum,
    IndexLength,
    CompressedIndex,
    TrailingChecksum,
    BlobSeparator,
}

/// How a `.trickydata` container is malformed, corrupt, or could not be
/// inflated.
#[derive(Debug, Clone, PartialEq, Eq)]
pub enum ArtifactFault {
    /// The bytes do not start with `trickydata:`.
    MissingMagic,
    /// No zero byte ends the version string.
    MissingVersionTerminator,
    /// The version string is not valid UTF-8.
    VersionNotUtf8,
    /// The container ends before `needed` more bytes of `section`.
    Truncated { needed: usize, section: Section },
    /// The md5 of the compressed index differs from the leading checksum.
    IndexChecksumMismatch,
    /// The trailing checksum differs from the leading one.
    TrailingChecksumMismatch,
    /// The byte before the payload blob is not zero.
    MissingBlobSeparator,
    /// The compressed index could not be inflated (the decoder's message).
    Inflate(String),
    /// The header version differs from the version the index records.
    VersionMismatch { header: String, index: String },
}

/// A compiled corpus artifact could not be parsed or loaded.
#[derive(Debug)]
pub enum ParseError {
    /// The index JSON was malformed or did not match the expected shape.
    Json(serde_json::Error),
    /// A `.trickydata` container was malformed, corrupt, or could not be inflated.
    Trickydata(ArtifactFault),
    /// An input referenced a `decode-as`/`invalid-as` token the client does not know.
    UnknownToken { field: &'static str, token: String },
    /// An input's `offset`/`length` fell outside the payload blob.
    BadSlice { name: String, offset: usize, length: usize, blob_len: usize },
}

/// The error type of `serde_json`, carried through unchanged.
#[verifier::external_type_specification]
#[verifier::external_body]
pub struct ExJsonError(serde_json::Error);

/// Resolving a corpus from a version string failed.
#[derive(Debug)]
pub enum ResolveError {
    /// An I/O error reading the corpus artifact.
    Io(std::io::Error),
    /// The artifact was found but could not be parsed.
    Parse(ParseError),
    /// A version that is not the bundled one was requested. Remote fetching is
    /// a deliberate, not-yet-built seam.
    VersionUnavailable { requested: String, bundled: String },
}

/// The error type of `std::io`, carried through unchanged.
#[verifier::external_type_specification]
#[verifier::external_body]
pub struct ExIoError(std::io::Error);


impl From<serde_json::Error> for ParseError {
    fn from(e: serde_json::Error) -> (r: ParseError) {
        ParseError::Json(e)
    }
}

impl vstd::std_specs::convert::FromSpecImpl<serde_json::Error> for ParseError {
    open spec fn obeys_from_spec() -> bool {
        true
    }

    open spec fn from_spec(e: serde_json::Error) -> ParseError {
        ParseError::Json(e)
    }
}

impl From<std::io::Error> for ResolveError {
    fn from(e: std::io::Error) -> (r: ResolveError) {
        ResolveError::Io(e)
    }
}

impl vstd::std_specs::convert::FromSpecImpl<std::io::Error> for ResolveError {
    open spec fn obeys_from_spec() -> bool {
        true
    }

    open spec fn from_spec(e: std::io::Error) -> ResolveError {
        ResolveError::Io(e)
    }
}

impl From<ParseError> for ResolveError {
    fn from(e: ParseError) -> (r: ResolveError) {
        ResolveError::Parse(e)
    }
}

impl vstd::std_specs::convert::FromSpecImpl<ParseError> for ResolveError {
    open spec fn obeys_from_spec() -> bool {
        true
    }

    open spec fn from_spec(e: ParseError) -> ResolveError {
        ResolveError::Parse(e)
    }
}

} // verus!
