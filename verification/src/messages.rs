//! Human-readable messages for the error types.

use vstd::prelude::*;

use crate::decode_as::DecodeAs;
use crate::error::{ArtifactFault, DecodeError, NotTextError, ParseError, ResolveError, Section, TextFault};
use crate::literals::{debug_quoted, decimal, hex_fixed, push_decimal, push_hex, push_str, quoted};

verus! {

/// What went wrong in a text payload.
pub open spec fn fault_message(f: TextFault) -> Seq<char> {
    match f {
        TextFault::NonAscii { byte, index } => "non-ASCII byte 0x"@ + hex_fixed(byte as nat, 2) + " at index "@
            + decimal(index as nat),
        TextFault::Utf8 { valid_up_to, error_len } => match error_len {
            Some(n) => "invalid utf-8 sequence of "@ + decimal(n as nat) + " bytes from index "@ + decimal(
                valid_up_to as nat,
            ),
            None => "incomplete utf-8 byte sequence from index "@ + decimal(valid_up_to as nat),
        },
        TextFault::PartialUnit { len, unit } => "byte length "@ + decimal(len as nat) + " is not a multiple of "@
            + decimal(unit as nat),
        TextFault::UnpairedSurrogate(u) => "unpaired surrogate 0x"@ + hex_fixed(u as nat, 4),
        TextFault::NotScalar(v) => "0x"@ + hex_fixed(v as nat, 8) + " is not a Unicode scalar value"@,
    }
}

/// Why a payload did not decode.
pub open spec fn decode_error_message(e: DecodeError) -> Seq<char> {
    match e {
        DecodeError::WrongLength { decode_as, expected, got } => "cannot decode as "@ + decode_as.token()
            + ": expected "@ + decimal(expected as nat) + " byte(s), got "@ + decimal(got as nat),
        DecodeError::InvalidText { decode_as, detail } => "invalid "@ + decode_as.token() + " text: "@
            + fault_message(detail),
    }
}

/// The name of a container section.
pub open spec fn section_name(s: Section) -> Seq<char> {
    match s {
        Section::LeadingChecksum => "leading checksum"@,
        Section::IndexLength => "index length"@,
        Section::CompressedIndex => "compressed index"@,
        Section::TrailingChecksum => "trailing checksum"@,
        Section::BlobSeparator => "blob separator"@,
    }
}

/// How a container is malformed.
pub open spec fn artifact_message(f: ArtifactFault) -> Seq<char> {
    match f {
        ArtifactFault::MissingMagic => "missing 'trickydata:' magic prefix"@,
        ArtifactFault::MissingVersionTerminator => "missing version terminator"@,
        ArtifactFault::VersionNotUtf8 => "version string is not valid UTF-8"@,
        ArtifactFault::Truncated { needed, section } => "truncated .trickydata: expected "@ + decimal(needed as nat)
            + " more byte(s) for "@ + section_name(section),
        ArtifactFault::IndexChecksumMismatch => "index checksum mismatch (corrupt .trickydata)"@,
        ArtifactFault::TrailingChecksumMismatch => "trailing index checksum mismatch (corrupt .trickydata)"@,
        ArtifactFault::MissingBlobSeparator => "expected zero separator before blob"@,
        ArtifactFault::Inflate(m) => "decompressing index: "@ + m@,
        ArtifactFault::VersionMismatch { header, index } => "header version "@ + debug_quoted(header@)
            + " does not match index version "@ + debug_quoted(index@),
    }
}

/// Why an artifact did not load, for every error but a JSON one (whose text
/// is the JSON parser's).
pub open spec fn parse_message(e: ParseError) -> Seq<char> {
    match e {
        ParseError::Json(_) => "parsing trickydata index: "@,
        ParseError::Trickydata(f) => "parsing .trickydata artifact: "@ + artifact_message(f),
        ParseError::UnknownToken { field, token } => "unknown "@ + field@ + " value "@ + debug_quoted(token@),
        ParseError::BadSlice { name, offset, length, blob_len } => "input "@ + debug_quoted(name@) + " slice "@
            + decimal(offset as nat) + ".."@ + decimal((offset + length) as nat) + " exceeds bin length "@ + decimal(
            blob_len as nat,
        ),
    }
}

/// The message of a parse error can be written: a bad slice's end fits in
/// a `usize`.
pub open spec fn parse_message_defined(e: ParseError) -> bool {
    e matches ParseError::BadSlice { offset, length, .. } ==> offset + length <= usize::MAX
}

/// `format!("{e}")` of a `serde_json::Error`: the JSON parser's own message,
/// which is not stated.
#[verifier::external_body]
fn json_message(e: &serde_json::Error) -> (r: String) {
    format!("{e}")
}

/// `format!("{e}")` of a `std::io::Error`: the operating system's message,
/// which is not stated.
#[verifier::external_body]
fn io_message(e: &std::io::Error) -> (r: String) {
    format!("{e}")
}

fn push_section(s: &mut String, section: Section)
    ensures
        final(s)@ == old(s)@ + section_name(section),
{
    match section {
        Section::LeadingChecksum => push_str(s, "leading checksum"),
        Section::IndexLength => push_str(s, "index length"),
        Section::CompressedIndex => push_str(s, "compressed index"),
        Section::TrailingChecksum => push_str(s, "trailing checksum"),
        Section::BlobSeparator => push_str(s, "blob separator"),
    }
}

impl TextFault {
    /// What went wrong, e.g. `unpaired surrogate 0xd800`.
    pub fn to_string(&self) -> (r: String)
        ensures
            r@ == fault_message(*self),
    {
        let mut s = String::new();
        match *self {
            TextFault::NonAscii { byte, index } => {
                push_str(&mut s, "non-ASCII byte 0x");
                assert(s@ =~= "non-ASCII byte 0x"@);
                push_hex(&mut s, byte as u128, 2);
                push_str(&mut s, " at index ");
                push_decimal(&mut s, index as u128);
            },
            TextFault::Utf8 { valid_up_to, error_len } => match error_len {
                Some(n) => {
                    push_str(&mut s, "invalid utf-8 sequence of ");
                    assert(s@ =~= "invalid utf-8 sequence of "@);
                    push_decimal(&mut s, n as u128);
                    push_str(&mut s, " bytes from index ");
                    push_decimal(&mut s, valid_up_to as u128);
                },
                None => {
                    push_str(&mut s, "incomplete utf-8 byte sequence from index ");
                    assert(s@ =~= "incomplete utf-8 byte sequence from index "@);
                    push_decimal(&mut s, valid_up_to as u128);
                },
            },
            TextFault::PartialUnit { len, unit } => {
                push_str(&mut s, "byte length ");
                assert(s@ =~= "byte length "@);
                push_decimal(&mut s, len as u128);
                push_str(&mut s, " is not a multiple of ");
                push_decimal(&mut s, unit as u128);
            },
            TextFault::UnpairedSurrogate(u) => {
                push_str(&mut s, "unpaired surrogate 0x");
                assert(s@ =~= "unpaired surrogate 0x"@);
                push_hex(&mut s, u as u128, 4);
            },
            TextFault::NotScalar(v) => {
                push_str(&mut s, "0x");
                assert(s@ =~= "0x"@);
                push_hex(&mut s, v as u128, 8);
                push_str(&mut s, " is not a Unicode scalar value");
            },
        }
        s
    }
}

impl DecodeError {
    /// Why the payload did not decode, e.g. `cannot decode as u32-le:
    /// expected 4 byte(s), got 2`.
    pub fn to_string(&self) -> (r: String)
        ensures
            r@ == decode_error_message(*self),
    {
        let mut s = String::new();
        match self {
            DecodeError::WrongLength { decode_as, expected, got } => {
                push_str(&mut s, "cannot decode as ");
                assert(s@ =~= "cannot decode as "@);
                push_str(&mut s, decode_as.as_str());
                push_str(&mut s, ": expected ");
                push_decimal(&mut s, *expected as u128);
                push_str(&mut s, " byte(s), got ");
                push_decimal(&mut s, *got as u128);
            },
            DecodeError::InvalidText { decode_as, detail } => {
                push_str(&mut s, "invalid ");
                assert(s@ =~= "invalid "@);
                push_str(&mut s, decode_as.as_str());
                push_str(&mut s, " text: ");
                let d = detail.to_string();
                push_str(&mut s, d.as_str());
            },
        }
        s
    }
}

impl NotTextError {
    /// The quoted input name and its type, e.g. `"x" (decode-as u8) is not
    /// text`.
    pub fn to_string(&self) -> (r: String)
        ensures
            r@ == debug_quoted(self.name@) + " (decode-as "@ + self.decode_as.token() + ") is not text"@,
    {
        let mut s = quoted(self.name.as_str());
        push_str(&mut s, " (decode-as ");
        push_str(&mut s, self.decode_as.as_str());
        push_str(&mut s, ") is not text");
        s
    }
}

impl ArtifactFault {
    /// How the container is malformed, e.g. `missing version terminator`.
    pub fn to_string(&self) -> (r: String)
        ensures
            r@ == artifact_message(*self),
    {
        let mut s = String::new();
        match self {
            ArtifactFault::MissingMagic => push_str(&mut s, "missing 'trickydata:' magic prefix"),
            ArtifactFault::MissingVersionTerminator => push_str(&mut s, "missing version terminator"),
            ArtifactFault::VersionNotUtf8 => push_str(&mut s, "version string is not valid UTF-8"),
            ArtifactFault::Truncated { needed, section } => {
                push_str(&mut s, "truncated .trickydata: expected ");
                assert(s@ =~= "truncated .trickydata: expected "@);
                push_decimal(&mut s, *needed as u128);
                push_str(&mut s, " more byte(s) for ");
                push_section(&mut s, *section);
            },
            ArtifactFault::IndexChecksumMismatch => push_str(&mut s, "index checksum mismatch (corrupt .trickydata)"),
            ArtifactFault::TrailingChecksumMismatch => push_str(
                &mut s,
                "trailing index checksum mismatch (corrupt .trickydata)",
            ),
            ArtifactFault::MissingBlobSeparator => push_str(&mut s, "expected zero separator before blob"),
            ArtifactFault::Inflate(m) => {
                push_str(&mut s, "decompressing index: ");
                assert(s@ =~= "decompressing index: "@);
                push_str(&mut s, m.as_str());
            },
            ArtifactFault::VersionMismatch { header, index } => {
                push_str(&mut s, "header version ");
                assert(s@ =~= "header version "@);
                let h = quoted(header.as_str());
                push_str(&mut s, h.as_str());
                push_str(&mut s, " does not match index version ");
                let i = quoted(index.as_str());
                push_str(&mut s, i.as_str());
            },
        }
        assert(s@ =~= artifact_message(*self));
        s
    }
}

impl ParseError {
    /// Why the artifact did not load, e.g. `unknown decode-as value
    /// "u24-le"`. A JSON error's text after its prefix is the JSON
    /// parser's own message.
    pub fn to_string(&self) -> (r: String)
        requires
            parse_message_defined(*self),
        ensures
            !(self is Json) ==> r@ == parse_message(*self),
            self is Json ==> exists|m: Seq<char>| r@ == parse_message(*self) + m,
    {
        let mut s = String::new();
        match self {
            ParseError::Json(e) => {
                push_str(&mut s, "parsing trickydata index: ");
                assert(s@ =~= "parsing trickydata index: "@);
                let m = json_message(e);
                push_str(&mut s, m.as_str());
                assert(s@ == parse_message(*self) + m@);
            },
            ParseError::Trickydata(f) => {
                push_str(&mut s, "parsing .trickydata artifact: ");
                assert(s@ =~= "parsing .trickydata artifact: "@);
                let m = f.to_string();
                push_str(&mut s, m.as_str());
            },
            ParseError::UnknownToken { field, token } => {
                push_str(&mut s, "unknown ");
                assert(s@ =~= "unknown "@);
                push_str(&mut s, field);
                push_str(&mut s, " value ");
                let q = quoted(token.as_str());
                push_str(&mut s, q.as_str());
            },
            ParseError::BadSlice { name, offset, length, blob_len } => {
                push_str(&mut s, "input ");
                assert(s@ =~= "input "@);
                let q = quoted(name.as_str());
                push_str(&mut s, q.as_str());
                push_str(&mut s, " slice ");
                push_decimal(&mut s, *offset as u128);
                push_str(&mut s, "..");
                push_decimal(&mut s, (*offset + *length) as u128);
                push_str(&mut s, " exceeds bin length ");
                push_decimal(&mut s, *blob_len as u128);
            },
        }
        s
    }
}

impl ResolveError {
    /// Why no corpus could be resolved. An I/O error's text after its
    /// prefix is the operating system's message; a parse error's is its
    /// own message.
    pub fn to_string(&self) -> (r: String)
        requires
            *self matches ResolveError::Parse(e) ==> parse_message_defined(e),
        ensures
            *self matches ResolveError::Io(_) ==> exists|m: Seq<char>| r@ == "reading corpus artifact: "@ + m,
            *self matches ResolveError::Parse(e) ==> (!(e is Json) ==> r@ == parse_message(e)) && (e is Json
                ==> exists|m: Seq<char>| r@ == parse_message(e) + m),
            *self matches ResolveError::VersionUnavailable { requested, bundled } ==> r@ == "version "@
                + debug_quoted(requested@) + " is not available: remote fetching is not built yet (bundled version is "@
                + debug_quoted(bundled@) + ")"@,
    {
        match self {
            ResolveError::Io(e) => {
                let mut s = String::new();
                push_str(&mut s, "reading corpus artifact: ");
                assert(s@ =~= "reading corpus artifact: "@);
                let m = io_message(e);
                push_str(&mut s, m.as_str());
                assert(s@ == "reading corpus artifact: "@ + m@);
                s
            },
            ResolveError::Parse(e) => e.to_string(),
            ResolveError::VersionUnavailable { requested, bundled } => {
                let mut s = String::new();
                push_str(&mut s, "version ");
                assert(s@ =~= "version "@);
                let q = quoted(requested.as_str());
                push_str(&mut s, q.as_str());
                push_str(&mut s, " is not available: remote fetching is not built yet (bundled version is ");
                let b = quoted(bundled.as_str());
                push_str(&mut s, b.as_str());
                push_str(&mut s, ")");
                s
            },
        }
    }
}

} // verus!
