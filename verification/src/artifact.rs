//! The `.trickydata` container: a magic prefix, the corpus version, a
//! checksummed gzip of the JSON index, and the raw payload blob inline.
//!
//! ```text
//! "trickydata:" version 0x00 md5[16] len:u32le gzip[len] md5[16] 0x00 blob
//! ```
//!
//! Framing and checks happen here; the index JSON is parsed by the caller
//! and handed back to [`crate::Corpus::from_parts`].

use vstd::prelude::*;
use vstd::utf8::{valid_utf8, decode_utf8};

use crate::codec::utf8_to_string;
use crate::corpus::{Corpus, RawIndex, index_version, built_from_index};
use crate::error::{ArtifactFault, ParseError, Section};
use crate::native::le_value;

verus! {

/// The pieces of a well-framed container.
pub struct Container {
    /// The corpus version from the header.
    pub version: String,
    /// The inflated index JSON.
    pub index: Vec<u8>,
    /// The payload blob.
    pub blob: Vec<u8>,
}

/// The outcome of reading a container's framing.
pub enum Framing {
    Bad(ArtifactFault),
    Good { version: Seq<u8>, gz: Seq<u8>, blob: Seq<u8> },
}

/// The magic prefix `trickydata:`.
pub open spec fn magic() -> Seq<u8> {
    seq![0x74u8, 0x72, 0x69, 0x63, 0x6b, 0x79, 0x64, 0x61, 0x74, 0x61, 0x3a]
}

/// Name for the MD5 digest of a byte string, as the `md5` crate computes it.
pub uninterp spec fn md5_of(data: Seq<u8>) -> Seq<u8>;

/// Name for what `flate2`'s `GzDecoder` read to the end makes of a gzip
/// stream: the bytes it inflates to, or the text of the error it reports
/// when the stream is not valid gzip.
pub uninterp spec fn gunzip_of(gz: Seq<u8>) -> Result<Seq<u8>, Seq<char>>;

/// Index of the first zero byte.
pub open spec fn first_zero(p: Seq<u8>) -> Option<int>
    decreases p.len(),
{
    if p.len() == 0 {
        None
    } else if p[0] == 0 {
        Some(0)
    } else {
        match first_zero(p.drop_first()) {
            Some(i) => Some(i + 1),
            None => None,
        }
    }
}

/// Reading the framing of a container, step by step.
pub open spec fn spec_framing(data: Seq<u8>) -> Framing {
    if data.len() < 11 || data.take(11) != magic() {
        Framing::Bad(ArtifactFault::MissingMagic)
    } else {
        let p = data.skip(11);
        match first_zero(p) {
            None => Framing::Bad(ArtifactFault::MissingVersionTerminator),
            Some(z) => {
                let vb = p.take(z);
                let q = p.skip(z + 1);
                if !valid_utf8(vb) {
                    Framing::Bad(ArtifactFault::VersionNotUtf8)
                } else if q.len() < 16 {
                    Framing::Bad(ArtifactFault::Truncated { needed: 16, section: Section::LeadingChecksum })
                } else {
                    let lead = q.take(16);
                    let q = q.skip(16);
                    if q.len() < 4 {
                        Framing::Bad(ArtifactFault::Truncated { needed: 4, section: Section::IndexLength })
                    } else {
                        let n = le_value(q.take(4));
                        let q = q.skip(4);
                        if q.len() < n {
                            Framing::Bad(ArtifactFault::Truncated { needed: n as usize, section: Section::CompressedIndex })
                        } else {
                            let gz = q.take(n as int);
                            let q = q.skip(n as int);
                            if md5_of(gz) != lead {
                                Framing::Bad(ArtifactFault::IndexChecksumMismatch)
                            } else if q.len() < 16 {
                                Framing::Bad(ArtifactFault::Truncated { needed: 16, section: Section::TrailingChecksum })
                            } else if q.take(16) != lead {
                                Framing::Bad(ArtifactFault::TrailingChecksumMismatch)
                            } else {
                                let q = q.skip(16);
                                if q.len() < 1 {
                                    Framing::Bad(ArtifactFault::Truncated { needed: 1, section: Section::BlobSeparator })
                                } else if q[0] != 0 {
                                    Framing::Bad(ArtifactFault::MissingBlobSeparator)
                                } else {
                                    Framing::Good { version: vb, gz, blob: q.skip(1) }
                                }
                            }
                        }
                    }
                }
            },
        }
    }
}

/// `md5::compute`: the MD5 digest of the bytes, which is named here rather
/// than restated; it is 16 bytes long.
#[verifier::external_body]
fn md5_digest(data: &[u8]) -> (r: [u8; 16])
    ensures
        r@ == md5_of(data@),
        r@.len() == 16,
{
    md5::compute(data).0
}

/// `flate2::read::GzDecoder` read to the end: the inflated bytes, or the
/// text of the decoder's error. Both are named here rather than restated;
/// they depend on the bytes alone.
#[verifier::external_body]
fn gunzip(gz: &[u8]) -> (r: Result<Vec<u8>, String>)
    ensures
        r matches Ok(v) ==> (gunzip_of(gz@) matches Ok(w) && w == v@),
        r matches Err(m) ==> (gunzip_of(gz@) matches Err(t) && t == m@),
{
    let mut out = Vec::new();
    match std::io::Read::read_to_end(&mut flate2::read::GzDecoder::new(gz), &mut out) {
        Ok(_) => Ok(out),
        Err(e) => Err(e.to_string()),
    }
}

fn truncated(needed: usize, section: Section) -> (r: ParseError)
    ensures
        r == ParseError::Trickydata(ArtifactFault::Truncated { needed, section }),
{
    ParseError::Trickydata(ArtifactFault::Truncated { needed, section })
}

fn same_bytes(a: &[u8], b: &[u8]) -> (r: bool)
    ensures
        r == (a@ == b@),
{
    if a.len() != b.len() {
        return false;
    }
    let mut i: usize = 0;
    while i < a.len()
        invariant
            i <= a@.len(),
            a@.len() == b@.len(),
            forall|j: int| 0 <= j < i ==> a@[j] == b@[j],
        decreases a@.len() - i,
    {
        if a[i] != b[i] {
            return false;
        }
        i += 1;
    }
    assert(a@ =~= b@);
    true
}

fn le32(b: &[u8]) -> (r: usize)
    requires
        b@.len() == 4,
    ensures
        r == le_value(b@),
{
    let v = crate::native::decode_uint(crate::decode_as::DecodeAs::U32Le, b);
    proof {
        crate::native::lemma_le_value_bound(b@);
        crate::native::lemma_pow256_values();
    }
    match v {
        Ok(x) => x as usize,
        Err(_) => 0,
    }
}

/// Decode the `.trickydata` byte layout, verifying the repeated MD5 checksum,
/// and inflate the index.
pub fn decode_trickydata(data: &[u8]) -> (r: Result<Container, ParseError>)
    ensures
        match spec_framing(data@) {
            Framing::Bad(f) => r == Err::<Container, ParseError>(ParseError::Trickydata(f)),
            Framing::Good { version, gz, blob } => match gunzip_of(gz) {
                Err(m) => r matches Err(ParseError::Trickydata(ArtifactFault::Inflate(d))) && d@ == m,
                Ok(index) => r matches Ok(c) && c.version@ == decode_utf8(version) && c.index@ == index && c.blob@ == blob,
            },
        },
{
    let magic_bytes: [u8; 11] = [0x74u8, 0x72, 0x69, 0x63, 0x6b, 0x79, 0x64, 0x61, 0x74, 0x61, 0x3a];
    assert(magic_bytes@ == magic());
    if data.len() < 11 || !same_bytes(vstd::slice::slice_subrange(data, 0, 11), &magic_bytes) {
        return Err(ParseError::Trickydata(ArtifactFault::MissingMagic));
    }
    let ghost p = data@.skip(11);
    let mut z: usize = 11;
    while z < data.len() && data[z] != 0
        invariant
            11 <= z <= data@.len(),
            forall|j: int| 11 <= j < z ==> data@[j] != 0,
        decreases data@.len() - z,
    {
        z += 1;
    }
    proof {
        lemma_first_zero(p, z - 11);
    }
    if z == data.len() {
        return Err(ParseError::Trickydata(ArtifactFault::MissingVersionTerminator));
    }
    let vb = vstd::slice::slice_subrange(data, 11, z);
    assert(vb@ == p.take(z - 11));
    let version = match utf8_to_string(vb) {
        Ok(v) => v,
        Err(_) => {
            return Err(ParseError::Trickydata(ArtifactFault::VersionNotUtf8));
        },
    };
    let mut pos = z + 1;
    assert(p.skip(z - 11 + 1) == data@.skip(pos as int));
    if data.len() - pos < 16 {
        return Err(truncated(16, Section::LeadingChecksum));
    }
    let lead = vstd::slice::slice_subrange(data, pos, pos + 16);
    assert(data@.skip(pos as int).take(16) == lead@);
    assert(data@.skip(pos as int).skip(16) == data@.skip(pos + 16));
    pos = pos + 16;
    if data.len() - pos < 4 {
        return Err(truncated(4, Section::IndexLength));
    }
    let len_bytes = vstd::slice::slice_subrange(data, pos, pos + 4);
    let n = le32(len_bytes);
    assert(data@.skip(pos as int).take(4) == len_bytes@);
    assert(data@.skip(pos as int).skip(4) == data@.skip(pos + 4));
    pos = pos + 4;
    if data.len() - pos < n {
        return Err(truncated(n, Section::CompressedIndex));
    }
    let gz = vstd::slice::slice_subrange(data, pos, pos + n);
    assert(data@.skip(pos as int).take(n as int) == gz@);
    assert(data@.skip(pos as int).skip(n as int) == data@.skip(pos + n));
    pos = pos + n;
    let digest = md5_digest(gz);
    if !same_bytes(&digest, lead) {
        return Err(ParseError::Trickydata(ArtifactFault::IndexChecksumMismatch));
    }
    if data.len() - pos < 16 {
        return Err(truncated(16, Section::TrailingChecksum));
    }
    let trail = vstd::slice::slice_subrange(data, pos, pos + 16);
    assert(data@.skip(pos as int).take(16) == trail@);
    if !same_bytes(trail, lead) {
        return Err(ParseError::Trickydata(ArtifactFault::TrailingChecksumMismatch));
    }
    assert(data@.skip(pos as int).skip(16) == data@.skip(pos + 16));
    pos = pos + 16;
    if data.len() - pos < 1 {
        return Err(truncated(1, Section::BlobSeparator));
    }
    assert(data@.skip(pos as int)[0] == data@[pos as int]);
    if data[pos] != 0 {
        return Err(ParseError::Trickydata(ArtifactFault::MissingBlobSeparator));
    }
    let blob = vstd::slice::slice_to_vec(vstd::slice::slice_subrange(data, pos + 1, data.len()));
    assert(data@.skip(pos as int).skip(1) == blob@);
    match gunzip(gz) {
        Ok(index) => Ok(Container { version, index, blob }),
        Err(msg) => Err(ParseError::Trickydata(ArtifactFault::Inflate(msg))),
    }
}

proof fn lemma_first_zero(p: Seq<u8>, k: int)
    requires
        0 <= k <= p.len(),
        forall|j: int| 0 <= j < k ==> #[trigger] p[j] != 0,
        k == p.len() || p[k] == 0,
    ensures
        first_zero(p) == (if k == p.len() { None::<int> } else { Some(k) }),
    decreases k,
{
    if k > 0 {
        assert(p[0] != 0);
        assert forall|j: int| 0 <= j < k - 1 implies #[trigger] p.drop_first()[j] != 0 by {
            assert(p.drop_first()[j] == p[j + 1]);
        }
        lemma_first_zero(p.drop_first(), k - 1);
    }
}

impl Corpus {
    /// Build a corpus from a decoded container and its parsed index. The
    /// version in the container's header must equal the one the index records
    /// (`dev` when it records none).
    pub fn from_parts(container: &Container, doc: RawIndex) -> (r: Result<Corpus, ParseError>)
        ensures
            index_version(doc.version) != container.version@ ==> (r matches Err(
                ParseError::Trickydata(ArtifactFault::VersionMismatch { header, index }),
            ) && header@ == container.version@ && index@ == index_version(doc.version)),
            index_version(doc.version) == container.version@ ==> built_from_index(doc, container.blob@, r),
    {
        let index = match &doc.version {
            Some(v) => v.clone(),
            None => crate::text::owned("dev"),
        };
        if !crate::text::same_text(index.as_str(), container.version.as_str()) {
            return Err(ParseError::Trickydata(ArtifactFault::VersionMismatch { header: container.version.clone(), index }));
        }
        Corpus::from_index(doc, container.blob.as_slice())
    }
}

} // verus!
