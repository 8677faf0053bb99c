use trickydata::codec::{decode_text, encode_text};
use trickydata::decode_as::DecodeAs;
use trickydata::error::{ArtifactFault, DecodeError, NotTextError, ParseError, ResolveError, Section, TextFault};
use trickydata::float::{f16_bits_to_f32_bits, f32_bits_to_f16_bits, f32_bits_to_f64_bits, f64_bits_to_f32_bits};
use trickydata::native::{decode_int, decode_native, decode_uint, Native};
use trickydata::path::norm;
use trickydata::target::{F16Bits, F32Bits, F64Bits, Target};

fn f16(bits: u16) -> f32 {
    f32::from_bits(f16_bits_to_f32_bits(bits))
}

#[test]
fn norm_resolves_dot_dot() {
    assert_eq!(norm("../inputs/utf8/./a.input"), "../inputs/utf8/a.input");
    assert_eq!(norm("a/b/../c"), "a/c");
    assert_eq!(norm("a/b/c/../../d"), "a/d");
}

#[test]
fn little_endian_tokens_are_canonical() {
    assert_eq!(DecodeAs::U16Le.as_str(), "u16-le");
    assert_eq!("u16-le".parse::<DecodeAs>(), Ok(DecodeAs::U16Le));
    assert!("u16".parse::<DecodeAs>().is_err());

    assert_eq!(DecodeAs::F32Le.as_str(), "f32-le");
    assert_eq!("f32-le".parse::<DecodeAs>(), Ok(DecodeAs::F32Le));
    assert!("f32".parse::<DecodeAs>().is_err());

    assert_eq!(DecodeAs::Utf16Le.as_str(), "utf16-le");
    assert_eq!("utf16-le".parse::<DecodeAs>(), Ok(DecodeAs::Utf16Le));
    assert!("utf16".parse::<DecodeAs>().is_err());
}

#[test]
fn f16_one_is_exact() {
    // 1.0 in binary16 is 0x3C00.
    assert_eq!(f16(0x3C00), 1.0);
}

#[test]
fn f16_round_trips_known_values() {
    assert_eq!(f16(0x0000), 0.0);
    assert_eq!(f16(0x8000), -0.0);
    assert_eq!(f16(0x4000), 2.0);
    assert_eq!(f16(0xC000), -2.0);
    assert!(f16(0x7C00).is_infinite());
    assert!(f16(0x7E00).is_nan());
    // Smallest positive subnormal: 2^-24.
    assert_eq!(f16(0x0001), 2f32.powi(-24));
}

#[test]
fn signed_min_values_decode() {
    assert_eq!(decode_int(DecodeAs::I8, &[0x80]).unwrap(), -128);
    assert_eq!(decode_int(DecodeAs::I16Le, &0x8000u16.to_le_bytes()).unwrap(), -32768);
}

#[test]
fn unsigned_max_values_decode() {
    assert_eq!(decode_uint(DecodeAs::U8, &[0xFF]).unwrap(), 255);
    assert_eq!(decode_uint(DecodeAs::U128Le, &[0xFF; 16]).unwrap(), u128::MAX);
}

#[test]
fn wrong_length_errors() {
    assert!(matches!(
        decode_native(DecodeAs::U32Le, &[0, 1]),
        Err(DecodeError::WrongLength { .. })
    ));
}

#[test]
fn invalid_utf8_errors() {
    assert!(matches!(
        decode_native(DecodeAs::Utf8, &[0xFF, 0xFE]),
        Err(DecodeError::InvalidText { .. })
    ));
}

#[test]
fn promotion_is_lossless_widening() {
    // u8 promotes into every wider int (both signs) but not u8->i8 (range).
    assert!(<i16 as Target>::accepts(DecodeAs::U8, true));
    assert!(<i128 as Target>::accepts(DecodeAs::U8, true));
    assert!(!<i8 as Target>::accepts(DecodeAs::U8, true));
    assert!(!<u8 as Target>::accepts(DecodeAs::U16Le, true));
    // Cross-sign that loses range is forbidden.
    assert!(!<i32 as Target>::accepts(DecodeAs::U32Le, true));
    assert!(<i64 as Target>::accepts(DecodeAs::U32Le, true));
    // Ints and floats never mix.
    assert!(!<F32Bits as Target>::accepts(DecodeAs::U8, true));
    assert!(!<F64Bits as Target>::accepts(DecodeAs::U32Le, true));
    assert!(!<i32 as Target>::accepts(DecodeAs::F32Le, true));
    // Float widening only.
    assert!(<F32Bits as Target>::accepts(DecodeAs::F16Le, true));
    assert!(<F64Bits as Target>::accepts(DecodeAs::F32Le, true));
    assert!(!<F32Bits as Target>::accepts(DecodeAs::F64Le, true));
}

#[test]
fn promote_off_is_native_only() {
    assert!(<i32 as Target>::accepts(DecodeAs::I32Le, false));
    assert!(!<i32 as Target>::accepts(DecodeAs::I8, false));
    assert!(!<i32 as Target>::accepts(DecodeAs::U8, false));
    // The bytes sink narrows to native `bytes` when promotion is off.
    assert!(<Vec<u8> as Target>::accepts(DecodeAs::Bytes, false));
    assert!(!<Vec<u8> as Target>::accepts(DecodeAs::Utf8, false));
    assert!(<Vec<u8> as Target>::accepts(DecodeAs::Utf8, true));
}

#[test]
fn extract_narrows_carrier() {
    assert_eq!(<u16 as Target>::extract(&Native::U128(255), &[]), Some(255));
    assert_eq!(<i16 as Target>::extract(&Native::U128(255), &[]), Some(255));
    assert_eq!(<i16 as Target>::extract(&Native::I128(-1), &[]), Some(-1));
    // Out of range yields None.
    assert_eq!(<u8 as Target>::extract(&Native::U128(256), &[]), None);
}

// --- further cases ---------------------------------------------------------

#[test]
fn f16_widening_matches_half() {
    for bits in [0x0000u16, 0x3C00, 0xC000, 0x0001, 0x03FF, 0x7BFF, 0x7C00, 0xFC00, 0x3555] {
        let expected = half::f16::from_bits(bits).to_f32();
        assert_eq!(f16(bits).to_bits(), expected.to_bits(), "bits {bits:#06x}");
    }
    assert!(f16(0x7E01).is_nan());
}

#[test]
fn f32_widening_is_exact() {
    for x in [0.0f32, -0.0, 1.0, -2.5, f32::MAX, f32::MIN_POSITIVE, 1.0e-45, f32::INFINITY] {
        assert_eq!(f64::from_bits(f32_bits_to_f64_bits(x.to_bits())), x as f64);
    }
}

#[test]
fn narrowing_inverts_widening() {
    for x in [1.0f32, -0.0, 3.25, f32::MAX, 1.0e-45] {
        let wide = f32_bits_to_f64_bits(x.to_bits());
        assert_eq!(f64_bits_to_f32_bits(wide), Some(x.to_bits()));
    }
    // 0.1 in binary64 has no exact binary32 twin.
    assert_eq!(f64_bits_to_f32_bits(0.1f64.to_bits()), None);
}

#[test]
fn f16_narrowing_inverts_widening() {
    // Every binary16 pattern comes back from its binary32 widening.
    for bits in 0..=u16::MAX {
        assert_eq!(f32_bits_to_f16_bits(f16_bits_to_f32_bits(bits)), Some(bits), "bits {bits:#06x}");
    }
    // 0.1 and 65520 have no exact binary16 twin; 2^-24 (smallest subnormal) does.
    assert_eq!(f32_bits_to_f16_bits(0.1f32.to_bits()), None);
    assert_eq!(f32_bits_to_f16_bits(65520.0f32.to_bits()), None);
    assert_eq!(f32_bits_to_f16_bits(5.960_464_5e-8f32.to_bits()), Some(0x0001));
    assert_eq!(f32_bits_to_f16_bits(65504.0f32.to_bits()), Some(half::f16::MAX.to_bits()));
}

#[test]
fn f16_target_is_native_only() {
    assert!(<F16Bits as Target>::accepts(DecodeAs::F16Le, true));
    assert!(<F16Bits as Target>::accepts(DecodeAs::F16Le, false));
    assert!(!<F16Bits as Target>::accepts(DecodeAs::F32Le, true));
    assert!(!<F16Bits as Target>::accepts(DecodeAs::U8, true));
    let one = decode_native(DecodeAs::F16Le, &[0x00, 0x3C]).unwrap();
    assert_eq!(<F16Bits as Target>::extract(&one, &[]), Some(F16Bits(0x3C00)));
    // A binary64 value with no binary16 twin is not extracted.
    assert_eq!(<F16Bits as Target>::extract(&Native::F64Bits(0.1f64.to_bits()), &[]), None);
    assert_eq!(<F16Bits as Target>::extract(&Native::U128(1), &[]), None);
}

#[test]
fn decode_float_widths() {
    assert_eq!(decode_native(DecodeAs::F32Le, &1.0f32.to_le_bytes()).unwrap(), Native::F64Bits(1.0f64.to_bits()));
    assert_eq!(decode_native(DecodeAs::F16Le, &[0x00, 0x3C]).unwrap(), Native::F64Bits(1.0f64.to_bits()));
    assert_eq!(decode_native(DecodeAs::Bool, &[1]).unwrap(), Native::Bool(true));
}

#[test]
fn text_round_trips_through_each_encoding() {
    let s = "héllo €";
    for d in [DecodeAs::Utf8, DecodeAs::Utf16Le, DecodeAs::Utf32Le] {
        let bytes = encode_text(d, s).unwrap();
        assert_eq!(decode_text(d, &bytes).unwrap(), s);
    }
    assert_eq!(encode_text(DecodeAs::Utf16Le, "a").unwrap(), vec![0x61, 0x00]);
    assert_eq!(encode_text(DecodeAs::Latin1, "é").unwrap(), vec![0xE9]);
    assert_eq!(encode_text(DecodeAs::Ascii, "é"), None);
    assert_eq!(encode_text(DecodeAs::Latin1, "€"), None);
}

#[test]
fn text_faults_are_reported() {
    assert_eq!(decode_text(DecodeAs::Ascii, &[0x41, 0x80]), Err(TextFault::NonAscii { byte: 0x80, index: 1 }));
    assert_eq!(decode_text(DecodeAs::Utf8, &[0x41, 0xFF]), Err(TextFault::Utf8 { valid_up_to: 1, error_len: Some(1) }));
    assert_eq!(decode_text(DecodeAs::Utf8, &[0xE2, 0x82]), Err(TextFault::Utf8 { valid_up_to: 0, error_len: None }));
    assert_eq!(decode_text(DecodeAs::Utf16Le, &[0x41]), Err(TextFault::PartialUnit { len: 1, unit: 2 }));
    assert_eq!(decode_text(DecodeAs::Utf16Le, &[0x00, 0xD8]), Err(TextFault::UnpairedSurrogate(0xD800)));
    assert_eq!(decode_text(DecodeAs::Utf32Le, &[0x00, 0x00, 0x11, 0x00]), Err(TextFault::NotScalar(0x110000)));
}

#[test]
fn wrong_length_reports_sizes() {
    assert_eq!(
        decode_native(DecodeAs::U32Le, &[0, 1]),
        Err(DecodeError::WrongLength { decode_as: DecodeAs::U32Le, expected: 4, got: 2 })
    );
}

#[test]
fn error_messages_read_well() {
    assert_eq!(
        decode_native(DecodeAs::U32Le, &[0, 1]).unwrap_err().to_string(),
        "cannot decode as u32-le: expected 4 byte(s), got 2"
    );
    assert_eq!(
        decode_native(DecodeAs::Utf16Le, &[0x00, 0xD8]).unwrap_err().to_string(),
        "invalid utf16-le text: unpaired surrogate 0xd800"
    );
    assert_eq!(TextFault::NonAscii { byte: 0x80, index: 3 }.to_string(), "non-ASCII byte 0x80 at index 3");
    assert_eq!(TextFault::PartialUnit { len: 3, unit: 2 }.to_string(), "byte length 3 is not a multiple of 2");
    assert_eq!(TextFault::NotScalar(0x110000).to_string(), "0x00110000 is not a Unicode scalar value");
    // The utf-8 messages read as std's own.
    for bad in [&[0x41u8, 0xFF][..], &[0xE2, 0x82][..], &[0x61, 0x62, 0xC3, 0x28][..]] {
        let std_message = std::str::from_utf8(bad).unwrap_err().to_string();
        let ours = decode_text(DecodeAs::Utf8, bad).unwrap_err().to_string();
        assert_eq!(ours, std_message);
    }
    let e = NotTextError { name: "a\"b".to_string(), decode_as: DecodeAs::U8 };
    assert_eq!(e.to_string(), "\"a\\\"b\" (decode-as u8) is not text");
    assert_eq!(
        ArtifactFault::Truncated { needed: 16, section: Section::TrailingChecksum }.to_string(),
        "truncated .trickydata: expected 16 more byte(s) for trailing checksum"
    );
    assert_eq!(
        ParseError::UnknownToken { field: "decode-as", token: "u24-le".to_string() }.to_string(),
        "unknown decode-as value \"u24-le\""
    );
    assert_eq!(
        ParseError::BadSlice { name: "x".to_string(), offset: 2, length: 5, blob_len: 3 }.to_string(),
        "input \"x\" slice 2..7 exceeds bin length 3"
    );
    assert_eq!(
        ParseError::Trickydata(ArtifactFault::MissingMagic).to_string(),
        "parsing .trickydata artifact: missing 'trickydata:' magic prefix"
    );
    let json = serde_json::from_str::<serde_json::Value>("{").unwrap_err();
    let json_text = json.to_string();
    assert_eq!(ParseError::Json(json).to_string(), format!("parsing trickydata index: {json_text}"));
    let io = ResolveError::Io(std::io::Error::new(std::io::ErrorKind::NotFound, "no such artifact"));
    assert_eq!(io.to_string(), "reading corpus artifact: no such artifact");
    let parse = ResolveError::Parse(ParseError::Trickydata(ArtifactFault::VersionNotUtf8));
    assert_eq!(parse.to_string(), "parsing .trickydata artifact: version string is not valid UTF-8");
    let r = ResolveError::VersionUnavailable { requested: "9".to_string(), bundled: "0.1.0".to_string() };
    assert_eq!(
        r.to_string(),
        "version \"9\" is not available: remote fetching is not built yet (bundled version is \"0.1.0\")"
    );
}
