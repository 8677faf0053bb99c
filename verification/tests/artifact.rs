//! Reading `.trickydata` containers and building corpora from an index.

use std::io::Write;

use trickydata::artifact::decode_trickydata;
use trickydata::corpus::{Corpus, PairHint, RawEntry, RawIndex, RawPair};
use trickydata::decode_as::DecodeAs;
use trickydata::error::{ArtifactFault, ParseError, Section};

fn gzip(data: &[u8]) -> Vec<u8> {
    let mut enc = flate2::write::GzEncoder::new(Vec::new(), flate2::Compression::default());
    enc.write_all(data).unwrap();
    enc.finish().unwrap()
}

fn container(version: &[u8], gz: &[u8], lead: [u8; 16], trail: [u8; 16], sep: u8, blob: &[u8]) -> Vec<u8> {
    let mut out = b"trickydata:".to_vec();
    out.extend_from_slice(version);
    out.push(0);
    out.extend_from_slice(&lead);
    out.extend_from_slice(&(gz.len() as u32).to_le_bytes());
    out.extend_from_slice(gz);
    out.extend_from_slice(&trail);
    out.push(sep);
    out.extend_from_slice(blob);
    out
}

fn artifact(version: &str, index: &[u8], blob: &[u8]) -> Vec<u8> {
    let gz = gzip(index);
    let d = md5::compute(&gz).0;
    container(version.as_bytes(), &gz, d, d, 0, blob)
}

fn entry(name: &str, path: &str, decode_as: Option<&str>, offset: usize, length: usize, pairs: &[(&str, &str)]) -> RawEntry {
    RawEntry {
        name: name.to_string(),
        description: None,
        tags: vec![],
        decode_as: decode_as.map(|s| s.to_string()),
        invalid_as: None,
        pair: if pairs.is_empty() {
            None
        } else {
            Some(pairs.iter().map(|(w, h)| RawPair { with: w.to_string(), hint: h.to_string() }).collect())
        },
        unicode_meta: None,
        path: Some(path.to_string()),
        offset,
        length,
    }
}

fn fault(r: Result<trickydata::artifact::Container, ParseError>) -> ArtifactFault {
    match r {
        Err(ParseError::Trickydata(f)) => f,
        Err(other) => panic!("unexpected error {other:?}"),
        Ok(_) => panic!("expected an error"),
    }
}

#[test]
fn container_decodes_and_builds_a_corpus() {
    let index = br#"{"version":"0.1.0","inputs":[]}"#;
    let blob = b"\x2a\x01\x00hello";
    let c = decode_trickydata(&artifact("0.1.0", index, blob)).unwrap();
    assert_eq!(c.version, "0.1.0");
    assert_eq!(c.index, index.to_vec());
    assert_eq!(c.blob, blob.to_vec());

    let doc = RawIndex {
        version: Some("0.1.0".to_string()),
        inputs: vec![
            entry("answer", "inputs/int/answer.input", Some("u8"), 0, 1, &[]),
            entry("word", "inputs/text/word.input", Some("utf8"), 3, 5, &[]),
        ],
    };
    let corpus = Corpus::from_parts(&c, doc).unwrap();
    assert_eq!(corpus.version(), "0.1.0");
    assert_eq!(corpus.inputs().len(), 2);
    assert_eq!(corpus.input("word").unwrap().payload, b"hello".to_vec());
    assert_eq!(corpus.input("answer").unwrap().decode_as, DecodeAs::U8);
}

#[test]
fn header_and_index_versions_must_agree() {
    let c = decode_trickydata(&artifact("0.1.0", b"{}", b"")).unwrap();
    let doc = RawIndex { version: Some("0.2.0".to_string()), inputs: vec![] };
    match Corpus::from_parts(&c, doc) {
        Err(ParseError::Trickydata(ArtifactFault::VersionMismatch { header, index })) => {
            assert_eq!(header, "0.1.0");
            assert_eq!(index, "0.2.0");
        },
        _ => panic!("expected a version mismatch"),
    }
    // An index without a version records `dev`.
    let c = decode_trickydata(&artifact("dev", b"{}", b"")).unwrap();
    let corpus = Corpus::from_parts(&c, RawIndex { version: None, inputs: vec![] }).unwrap();
    assert_eq!(corpus.version(), "dev");
}

#[test]
fn framing_faults_are_reported() {
    let gz = gzip(b"{}");
    let d = md5::compute(&gz).0;
    assert_eq!(fault(decode_trickydata(b"trickydat")), ArtifactFault::MissingMagic);
    assert_eq!(fault(decode_trickydata(b"nottrickydata:0.1\0")), ArtifactFault::MissingMagic);
    assert_eq!(fault(decode_trickydata(b"trickydata:0.1.0")), ArtifactFault::MissingVersionTerminator);
    assert_eq!(fault(decode_trickydata(b"trickydata:\xff\0")), ArtifactFault::VersionNotUtf8);
    assert_eq!(
        fault(decode_trickydata(b"trickydata:1\0abc")),
        ArtifactFault::Truncated { needed: 16, section: Section::LeadingChecksum }
    );
    let good = container(b"1", &gz, d, d, 0, b"");
    assert_eq!(
        fault(decode_trickydata(&good[..good.len() - 1])),
        ArtifactFault::Truncated { needed: 1, section: Section::BlobSeparator }
    );
    assert_eq!(
        fault(decode_trickydata(&good[..11 + 2 + 16 + 2])),
        ArtifactFault::Truncated { needed: 4, section: Section::IndexLength }
    );
    assert_eq!(
        fault(decode_trickydata(&good[..11 + 2 + 16 + 4 + 3])),
        ArtifactFault::Truncated { needed: gz.len(), section: Section::CompressedIndex }
    );
    assert_eq!(
        fault(decode_trickydata(&good[..11 + 2 + 16 + 4 + gz.len() + 5])),
        ArtifactFault::Truncated { needed: 16, section: Section::TrailingChecksum }
    );
    let mut bad_lead = d;
    bad_lead[0] ^= 1;
    assert_eq!(fault(decode_trickydata(&container(b"1", &gz, bad_lead, d, 0, b""))), ArtifactFault::IndexChecksumMismatch);
    let mut bad_trail = d;
    bad_trail[15] ^= 1;
    assert_eq!(fault(decode_trickydata(&container(b"1", &gz, d, bad_trail, 0, b""))), ArtifactFault::TrailingChecksumMismatch);
    assert_eq!(fault(decode_trickydata(&container(b"1", &gz, d, d, 7, b""))), ArtifactFault::MissingBlobSeparator);
    let junk = b"not a gzip stream".to_vec();
    let jd = md5::compute(&junk).0;
    assert!(matches!(fault(decode_trickydata(&container(b"1", &junk, jd, jd, 0, b""))), ArtifactFault::Inflate(_)));
}

#[test]
fn index_entries_are_checked() {
    let blob = [1u8, 2, 3];
    let bad_slice = RawIndex { version: None, inputs: vec![entry("a", "a.input", None, 2, 5, &[])] };
    match Corpus::from_index(bad_slice, &blob) {
        Err(ParseError::BadSlice { name, offset, length, blob_len }) => {
            assert_eq!((name.as_str(), offset, length, blob_len), ("a", 2, 5, 3));
        },
        _ => panic!("expected a bad slice"),
    }
    let overflow = RawIndex { version: None, inputs: vec![entry("a", "a.input", None, usize::MAX, 2, &[])] };
    assert!(matches!(Corpus::from_index(overflow, &blob), Err(ParseError::BadSlice { .. })));
    let unknown = RawIndex { version: None, inputs: vec![entry("a", "a.input", Some("u24-le"), 0, 3, &[])] };
    match Corpus::from_index(unknown, &blob) {
        Err(ParseError::UnknownToken { field, token }) => {
            assert_eq!(field, "decode-as");
            assert_eq!(token, "u24-le");
        },
        _ => panic!("expected an unknown token"),
    }
    let mut e = entry("a", "a.input", None, 0, 3, &[]);
    e.invalid_as = Some("f80".to_string());
    match Corpus::from_index(RawIndex { version: None, inputs: vec![e] }, &blob) {
        Err(ParseError::UnknownToken { field, token }) => {
            assert_eq!(field, "invalid-as");
            assert_eq!(token, "f80");
        },
        _ => panic!("expected an unknown token"),
    }
    // Absent decode-as means bytes.
    let plain = RawIndex { version: None, inputs: vec![entry("a", "a.input", None, 0, 3, &[])] };
    let c = Corpus::from_index(plain, &blob).unwrap();
    assert_eq!(c.inputs()[0].decode_as, DecodeAs::Bytes);
    assert!(c.inputs()[0].is_valid());
}

#[test]
fn pair_declarations_resolve_by_relative_path() {
    let blob = [0u8; 4];
    let doc = RawIndex {
        version: None,
        inputs: vec![
            entry("zeta", "inputs/a/zeta.input", None, 0, 1, &[("../b/beta.input", "equal"), ("./alpha.input", "tricky")]),
            entry("alpha", "inputs/a/alpha.input", None, 1, 1, &[("alpha.input", "not-equal"), ("missing.input", "equal")]),
            entry("beta", "inputs/b/beta.input", None, 2, 1, &[("../a/zeta.input", "unknown-hint")]),
        ],
    };
    let c = Corpus::from_index(doc, &blob).unwrap();
    let zeta = c.input("zeta").unwrap();
    let names: Vec<(&str, PairHint)> = zeta.links.iter().map(|l| (l.name.as_str(), l.hint)).collect();
    // Sorted by name; each target once.
    assert_eq!(names, vec![("alpha", PairHint::Tricky), ("beta", PairHint::Equal)]);
    // A declaration links both ways: alpha links back to zeta.
    let alpha = c.input("alpha").unwrap();
    let names: Vec<(&str, PairHint)> = alpha.links.iter().map(|l| (l.name.as_str(), l.hint)).collect();
    assert_eq!(names, vec![("alpha", PairHint::NotEqual), ("zeta", PairHint::Tricky)]);
    // beta's own declaration has an unknown hint and resolves to nothing, but
    // zeta's declaration of beta links beta back to zeta.
    let beta = c.input("beta").unwrap();
    let names: Vec<(&str, PairHint)> = beta.links.iter().map(|l| (l.name.as_str(), l.hint)).collect();
    assert_eq!(names, vec![("zeta", PairHint::Equal)]);
}

#[test]
fn first_hint_between_two_inputs_wins() {
    let blob = [0u8; 2];
    let doc = RawIndex {
        version: None,
        inputs: vec![
            entry("a", "in/a.input", None, 0, 1, &[("b.input", "equal")]),
            entry("b", "in/b.input", None, 1, 1, &[("a.input", "tricky")]),
        ],
    };
    let c = Corpus::from_index(doc, &blob).unwrap();
    assert_eq!(c.input("a").unwrap().links[0].hint, PairHint::Equal);
    assert_eq!(c.input("b").unwrap().links[0].hint, PairHint::Equal);
}

#[test]
fn inputs_are_listed_in_name_order() {
    let blob = [1u8, 2, 3];
    let doc = RawIndex {
        version: None,
        inputs: vec![
            entry("b", "in/b.input", None, 0, 1, &[]),
            entry("c", "in/c.input", None, 1, 1, &[]),
            entry("a", "in/a.input", None, 2, 1, &[]),
        ],
    };
    let c = Corpus::from_index(doc, &blob).unwrap();
    let names: Vec<&str> = c.inputs().iter().map(|i| i.name.as_str()).collect();
    assert_eq!(names, vec!["a", "b", "c"]);
    assert_eq!(c.input("a").unwrap().payload, vec![3]);
    assert_eq!(c.input("b").unwrap().payload, vec![1]);
}

#[test]
fn first_bad_entry_in_index_order_decides_the_error() {
    let blob = [0u8; 1];
    let doc = RawIndex {
        version: None,
        inputs: vec![
            entry("z", "in/z.input", None, 5, 1, &[]),
            entry("a", "in/a.input", Some("no-such-token"), 0, 1, &[]),
        ],
    };
    match Corpus::from_index(doc, &blob) {
        Err(ParseError::BadSlice { name, .. }) => assert_eq!(name, "z"),
        Err(_) => panic!("expected the bad slice of z"),
        Ok(_) => panic!("expected an error"),
    }
}

#[test]
fn input_lookup_takes_the_last_of_a_repeated_name() {
    let blob = [7u8, 8];
    let doc = RawIndex {
        version: None,
        inputs: vec![entry("dup", "x/1.input", None, 0, 1, &[]), entry("dup", "x/2.input", None, 1, 1, &[])],
    };
    let c = Corpus::from_index(doc, &blob).unwrap();
    assert_eq!(c.input("dup").unwrap().payload, vec![8]);
    assert!(c.input("nope").is_none());
}
