//! Behaviour of queries and pair queries against a small corpus built in
//! memory from an index and a payload blob.

use std::collections::{HashMap, HashSet};

use trickydata::corpus::{Corpus, PairHint, RawEntry, RawIndex, RawPair};
use trickydata::decode_as::DecodeAs;
use trickydata::error::DecodeError;
use trickydata::example::Example;
use trickydata::literals::{static_examples, static_values, StaticArgs, StaticError, StaticTarget};
use trickydata::pairs::Pair;
use trickydata::query::Sort;
use trickydata::sizing::SizeUnit;
use trickydata::target::{F16Bits, F32Bits, F64Bits, Target};
use unicode_segmentation::UnicodeSegmentation;

struct Builder {
    blob: Vec<u8>,
    inputs: Vec<RawEntry>,
}

impl Builder {
    fn add(
        &mut self,
        name: &str,
        path: &str,
        decode_as: Option<&str>,
        invalid_as: Option<&str>,
        tags: &[&str],
        payload: &[u8],
        pairs: &[(&str, &str)],
    ) {
        let offset = self.blob.len();
        self.blob.extend_from_slice(payload);
        self.inputs.push(RawEntry {
            name: name.to_string(),
            description: Some(format!("the {name} input")),
            tags: tags.iter().map(|t| t.to_string()).collect(),
            decode_as: decode_as.map(|s| s.to_string()),
            invalid_as: invalid_as.map(|s| s.to_string()),
            pair: if pairs.is_empty() {
                None
            } else {
                Some(
                    pairs
                        .iter()
                        .map(|(w, h)| RawPair { with: w.to_string(), hint: h.to_string() })
                        .collect(),
                )
            },
            unicode_meta: None,
            path: Some(path.to_string()),
            offset,
            length: payload.len(),
        });
    }
}

fn fixture() -> (RawIndex, Vec<u8>) {
    let mut b = Builder { blob: Vec::new(), inputs: Vec::new() };
    // floats
    b.add("float_f16_one", "inputs/float/f16_one.input", Some("f16-le"), None, &["float"], &[0x00, 0x3C], &[]);
    b.add("float_f32_one", "inputs/float/f32_one.input", Some("f32-le"), None, &["float"], &1.0f32.to_le_bytes(), &[("f64_one.input", "equal")]);
    b.add("float_f64_one", "inputs/float/f64_one.input", Some("f64-le"), None, &["float"], &1.0f64.to_le_bytes(), &[]);
    b.add("float_f64_max_finite", "inputs/float/f64_max.input", Some("f64-le"), None, &["float"], &f64::MAX.to_le_bytes(), &[]);
    b.add("float_f64_zero", "inputs/float/f64_zero.input", Some("f64-le"), None, &["float"], &0.0f64.to_le_bytes(), &[("f64_negative_zero.input", "tricky")]);
    b.add("float_f64_negative_zero", "inputs/float/f64_negative_zero.input", Some("f64-le"), None, &["float"], &(-0.0f64).to_le_bytes(), &[]);
    b.add("float_f64_nan", "inputs/float/f64_nan.input", Some("f64-le"), None, &["float"], &f64::NAN.to_le_bytes(), &[("f64_nan.input", "not-equal"), ("f64_min_positive.input", "tricky")]);
    b.add("float_f64_min_positive", "inputs/float/f64_min_positive.input", Some("f64-le"), None, &["float"], &f64::MIN_POSITIVE.to_le_bytes(), &[]);
    b.add("float_f32_truncated", "inputs/float/f32_truncated.input", None, Some("f32-le"), &["float", "invalid-f32"], &[0x00, 0x00, 0x80], &[]);
    // integers
    b.add("integer_i8_minimum", "inputs/int/i8_min.input", Some("i8"), None, &["integer"], &[0x80], &[]);
    b.add("integer_i16_minimum", "inputs/int/i16_min.input", Some("i16-le"), None, &["integer"], &i16::MIN.to_le_bytes(), &[]);
    b.add("integer_i32_minimum", "inputs/int/i32_min.input", Some("i32-le"), None, &["integer"], &i32::MIN.to_le_bytes(), &[]);
    b.add("integer_i64_minimum", "inputs/int/i64_min.input", Some("i64-le"), None, &["integer"], &i64::MIN.to_le_bytes(), &[]);
    b.add("integer_i128_minimum", "inputs/int/i128_min.input", Some("i128-le"), None, &["integer"], &i128::MIN.to_le_bytes(), &[]);
    b.add("integer_u8_maximum", "inputs/int/u8_max.input", Some("u8"), None, &["integer"], &[0xFF], &[]);
    b.add("integer_u8_zero", "inputs/int/u8_zero.input", Some("u8"), None, &["integer"], &[0x00], &[]);
    b.add("integer_u16_maximum", "inputs/int/u16_max.input", Some("u16-le"), None, &["integer"], &u16::MAX.to_le_bytes(), &[]);
    b.add("integer_u32_above_u16_maximum", "inputs/int/u32_above.input", Some("u32-le"), None, &["integer"], &65536u32.to_le_bytes(), &[]);
    b.add("integer_u64_maximum", "inputs/int/u64_max.input", Some("u64-le"), None, &["integer"], &u64::MAX.to_le_bytes(), &[]);
    b.add("integer_u128_maximum", "inputs/int/u128_max.input", Some("u128-le"), None, &["integer"], &u128::MAX.to_le_bytes(), &[]);
    // text
    b.add("language_sql_select", "inputs/sql/select.input", Some("utf8"), None, &["sql"], b"SELECT * FROM t;", &[]);
    b.add("language_sql_quote", "inputs/sql/quote.input", Some("ascii"), None, &["sql"], b"' OR '1'='1", &[]);
    b.add("language_sql_comment", "inputs/sql/comment.input", Some("utf8"), None, &["sql"], "-- caf\u{e9}".as_bytes(), &[]);
    b.add("language_sql_data_invalid_utf8", "inputs/sql/invalid_utf8.input", None, Some("utf8"), &["sql", "invalid-utf8"], &[0x27, 0xC3, 0x28], &[]);
    b.add("unicode_lone_surrogate", "inputs/unicode/lone_surrogate.input", None, Some("utf16-le"), &["invalid-utf16"], &[0x00, 0xD8], &[]);
    b.add("unicode_combining_acute", "inputs/unicode/combining.input", Some("utf8"), None, &["unicode"], "e\u{301}".as_bytes(), &[]);
    b.add("unicode_utf16_hi", "inputs/unicode/utf16_hi.input", Some("utf16-le"), None, &["unicode"], &[0x68, 0x00, 0x69, 0x00], &[]);
    b.add("unicode_latin1_cafe", "inputs/unicode/latin1.input", Some("latin1"), None, &["unicode"], &[0x63, 0x61, 0x66, 0xE9], &[]);
    b.add("bool_true", "inputs/bool/true.input", Some("bool"), None, &["bool"], &[0x01], &[]);
    b.add("binary_blob", "inputs/binary/blob.input", Some("bytes"), None, &["binary"], &[0x00, 0x01, 0x02], &[]);
    (RawIndex { version: Some("0.1.0".to_string()), inputs: b.inputs }, b.blob)
}

fn corpus() -> Corpus {
    let (index, blob) = fixture();
    Corpus::from_index(index, &blob).unwrap()
}

fn names<T: Target>(examples: &[Example<T>]) -> HashSet<String> {
    examples.iter().map(|e| e.name().to_string()).collect()
}

// --- membership & lossless promotion ------------------------------------------

#[test]
fn integer_promotion_is_lossless_widening() {
    let c = corpus();
    let native_u8 = names(&c.get::<u8>().promote(false).examples());
    let as_u16 = names(&c.get::<u16>().examples());
    assert!(!native_u8.is_empty());
    assert!(native_u8.is_subset(&as_u16));
    assert!(native_u8.len() < as_u16.len());

    let allowed = [DecodeAs::I8, DecodeAs::I16Le, DecodeAs::I32Le, DecodeAs::U8, DecodeAs::U16Le];
    let i32_examples = c.get::<i32>().examples();
    assert!(!i32_examples.is_empty());
    assert!(i32_examples.iter().all(|e| allowed.contains(&e.decode_as())));
    assert!(i32_examples.iter().any(|e| e.decode_as() != DecodeAs::I32Le));
}

#[test]
fn ints_and_floats_never_mix() {
    let c = corpus();
    let f64_names = names(&c.get::<F64Bits>().examples());
    let f32_names = names(&c.get::<F32Bits>().examples());
    assert!(f64_names.contains("float_f64_max_finite") || !f64_names.is_empty());
    assert!(!f64_names.contains("integer_u32_above_u16_maximum"));
    assert!(!f32_names.contains("integer_u32_above_u16_maximum"));

    let i128_examples = c.get::<i128>().examples();
    assert!(i128_examples
        .iter()
        .all(|e| !matches!(e.decode_as(), DecodeAs::F16Le | DecodeAs::F32Le | DecodeAs::F64Le)));
}

#[test]
fn values_are_homogeneous_and_typed() {
    let c = corpus();
    assert!(!c.get::<String>().values().is_empty());
    assert!(!c.get::<F64Bits>().values().is_empty());
    assert!(!c.get::<u128>().values().is_empty());
    assert!(!c.get::<Vec<u8>>().values().is_empty());
}

// --- return modes -------------------------------------------------------------

#[test]
fn three_return_modes() {
    let c = corpus();
    let examples = c.get::<String>().tags(["sql"]).examples();
    assert!(!examples.is_empty());
    let raw = c.get::<String>().tags(["sql"]).raw();
    assert!(!raw.is_empty());
    let values = c.get::<String>().tags(["sql"]).values();
    assert!(raw.len() >= values.len());
}

// --- bytes universal sink -----------------------------------------------------

#[test]
fn bytes_is_universal_sink() {
    let c = corpus();
    let sql_strings = names(&c.get::<String>().tags(["sql"]).include_invalid(false).examples());
    let sql_bytes = names(&c.get::<Vec<u8>>().tags(["sql"]).examples());
    assert!(!sql_strings.is_empty());
    assert!(sql_strings.is_subset(&sql_bytes));
    let sql_bytes_native = names(&c.get::<Vec<u8>>().tags(["sql"]).promote(false).examples());
    assert!(sql_strings.is_disjoint(&sql_bytes_native));
}

// --- floats unify -------------------------------------------------------------

#[test]
fn floats_unify_widths() {
    let c = corpus();
    let examples = c.get::<F64Bits>().examples();
    let decode_set: HashSet<DecodeAs> = examples.iter().map(|e| e.decode_as()).collect();
    assert!(decode_set.contains(&DecodeAs::F16Le));
    assert!(decode_set.contains(&DecodeAs::F32Le));
    assert!(decode_set.contains(&DecodeAs::F64Le));

    let one = examples.iter().find(|e| e.name() == "float_f32_one").expect("float_f32_one present");
    assert_eq!(f64::from_bits(one.value().unwrap().0), 1.0_f64);
}

// --- integer boundaries -------------------------------------------------------

#[test]
fn integer_boundaries_decode() {
    let c = corpus();
    let signed: HashMap<String, i128> = c
        .get::<i128>()
        .examples()
        .iter()
        .map(|e| (e.name().to_string(), e.value().unwrap()))
        .collect();
    assert_eq!(signed["integer_i8_minimum"], -128);
    assert_eq!(signed["integer_i16_minimum"], -32768);
    assert_eq!(signed["integer_i32_minimum"], -(1i128 << 31));
    assert_eq!(signed["integer_i64_minimum"], -(1i128 << 63));
    assert_eq!(signed["integer_u8_maximum"], 255);
    assert_eq!(signed["integer_u64_maximum"], (1i128 << 64) - 1);

    let i128_min = c.get::<i128>().names(["integer_i128_minimum"]).values()[0];
    assert_eq!(i128_min, i128::MIN);
    let u128_max = c.get::<u128>().names(["integer_u128_maximum"]).values()[0];
    assert_eq!(u128_max, u128::MAX);
}

// --- deliberately-invalid inputs ----------------------------------------------

#[test]
fn invalid_excluded_from_values_but_present_as_examples() {
    let c = corpus();
    let example_names = names(&c.get::<String>().examples());
    assert!(example_names.contains("language_sql_data_invalid_utf8"));
    let values = c.get::<String>().values();
    assert!(!values.is_empty());
}

#[test]
fn invalid_value_is_honest() {
    let c = corpus();
    let examples = c.get::<String>().tags(["invalid-utf8"]).examples();
    assert!(!examples.is_empty());
    for e in &examples {
        assert_eq!(e.invalid_as(), Some(DecodeAs::Utf8));
        assert!(!e.is_valid());
        assert!(!e.is_text());
        assert!(e.value().is_err());
        assert!(e.as_text().is_err());
        assert!(!e.as_bytes().is_empty());
    }
    let raw = c.get::<String>().tags(["invalid-utf8"]).raw();
    assert_eq!(raw.len(), examples.len());
}

#[test]
fn include_invalid_toggle() {
    let c = corpus();
    let on = names(&c.get::<String>().tags(["invalid-utf8"]).examples());
    let off = names(&c.get::<String>().tags(["invalid-utf8"]).include_invalid(false).examples());
    assert!(on.contains("language_sql_data_invalid_utf8"));
    assert!(!off.contains("language_sql_data_invalid_utf8"));
}

#[test]
fn invalid_stays_native_to_bytes() {
    let c = corpus();
    let name = "language_sql_data_invalid_utf8";
    let on = names(&c.get::<Vec<u8>>().tags(["invalid-utf8"]).examples());
    let off = names(&c.get::<Vec<u8>>().tags(["invalid-utf8"]).include_invalid(false).examples());
    assert!(on.contains(name));
    assert!(off.contains(name));
    let e = c.get::<Vec<u8>>().names([name]).examples().into_iter().next().unwrap();
    assert!(e.value().is_ok());
}

#[test]
fn invalid_is_general_not_utf8_specific() {
    let c = corpus();
    let f = c.get::<F32Bits>().tags(["invalid-f32"]).examples();
    assert!(!f.is_empty());
    assert!(f.iter().all(|e| e.invalid_as() == Some(DecodeAs::F32Le) && e.value().is_err()));
    let valid_only = c.get::<F32Bits>().tags(["invalid-f32"]).include_invalid(false).examples();
    assert!(valid_only.is_empty());

    let s = c.get::<String>().tags(["invalid-utf16"]).examples();
    assert!(!s.is_empty());
    assert!(s.iter().all(|e| e.invalid_as() == Some(DecodeAs::Utf16Le) && e.value().is_err()));
}

// --- pairs --------------------------------------------------------------------

#[test]
fn pairs_explicit_hint_only() {
    let c = corpus();
    let tricky = c.pairs::<F64Bits>().hint(PairHint::Tricky).examples();
    assert!(!tricky.is_empty());
    assert!(tricky.iter().all(|p| p.related && p.hint == Some(PairHint::Tricky)));
}

#[test]
fn pairs_value_tuples() {
    let c = corpus();
    let pairs = c.pairs::<F64Bits>().hint(PairHint::Tricky).values();
    assert!(!pairs.is_empty());
}

#[test]
fn pairs_include_unrelated_and_deterministic() {
    let c = corpus();
    let a = c.pairs::<F64Bits>().seed(0).max(30).examples();
    let b = c.pairs::<F64Bits>().seed(0).max(30).examples();
    let keys = |ps: &[Pair<F64Bits>]| -> Vec<(String, String)> {
        ps.iter().map(|p| (p.a.name().to_string(), p.b.name().to_string())).collect()
    };
    assert_eq!(keys(&a), keys(&b));
    assert!(a.iter().any(|p| !p.related));
    assert!(a.len() <= 30);
}

#[test]
fn pair_destructures() {
    let c = corpus();
    let p = c.pairs::<F64Bits>().hint(PairHint::Tricky).examples().into_iter().next().unwrap();
    let collected: Vec<_> = p.into_iter().collect();
    assert_eq!(collected.len(), 2);
}

// --- string sizing ------------------------------------------------------------

#[test]
fn sizing_code_points_no_feature_needed() {
    let c = corpus();
    let out = c.get::<String>().size(SizeUnit::CodePoints, 8).examples();
    assert!(!out.is_empty());
    for e in &out {
        assert_eq!(e.as_text().unwrap().chars().count(), 8);
    }
}

#[test]
fn sized_tag_filter_keeps_tagged_examples() {
    let c = corpus();
    let all: HashSet<String> = names(&c.get::<String>().size(SizeUnit::CodePoints, 20).examples());
    let sql = c.get::<String>().tags(["sql"]).size(SizeUnit::CodePoints, 20).examples();
    assert!(!sql.is_empty());
    for e in &sql {
        assert!(e.tags().iter().any(|t| t == "sql"));
        assert!(all.contains(e.name()));
    }
    let expected: HashSet<String> = c
        .get::<String>()
        .size(SizeUnit::CodePoints, 20)
        .examples()
        .iter()
        .filter(|e| e.tags().iter().any(|t| t == "sql"))
        .map(|e| e.name().to_string())
        .collect();
    assert_eq!(names(&sql), expected);
}

#[test]
fn sizing_extended_graphemes() {
    let c = corpus();
    let out = c.get::<String>().size(SizeUnit::ExtendedGraphemes, 12).examples();
    assert!(!out.is_empty());
    for e in &out {
        assert_eq!(e.as_text().unwrap().graphemes(true).count(), 12);
    }
}

#[test]
fn half_f16_target() {
    let c = corpus();
    // The native f16 target accepts only f16 inputs (nothing narrower exists).
    let f16s = c.get::<F16Bits>().examples();
    assert!(!f16s.is_empty());
    assert!(f16s.iter().all(|e| e.decode_as() == DecodeAs::F16Le));
    // f16 still promotes into the wider float targets.
    let f64_decode: HashSet<DecodeAs> = c
        .get::<F64Bits>()
        .examples()
        .iter()
        .map(|e| e.decode_as())
        .collect();
    assert!(f64_decode.contains(&DecodeAs::F16Le));
    // A known f16 value round-trips.
    let one = c.get::<F16Bits>().examples().into_iter().find(|e| {
        e.value()
            .map(|v| half::f16::from_bits(v.0) == half::f16::from_f32(1.0))
            .unwrap_or(false)
    });
    assert!(one.is_some());
}

// --- corpus resolution --------------------------------------------------------

#[test]
fn version_resolution_seam() {
    let c = corpus();
    let v = c.version().to_string();
    assert!(Corpus::from_version(corpus(), &v).is_ok());
    assert!(Corpus::from_version(corpus(), "latest").is_ok());
    assert!(Corpus::from_version(corpus(), "definitely-not-a-version").is_err());
}

#[test]
fn sort_modes() {
    let c = corpus();
    let sorted = c.get::<F64Bits>().sort(Sort::Name).examples();
    let mut expected: Vec<String> = sorted.iter().map(|e| e.name().to_string()).collect();
    let actual = expected.clone();
    expected.sort();
    assert_eq!(actual, expected);
}

// --- compile-time literals ----------------------------------------------------

fn static_args(tags: &[&str], names: &[&str], promote: bool, include_invalid: bool) -> StaticArgs {
    StaticArgs {
        tags: tags.iter().map(|t| t.to_string()).collect(),
        exclude_tags: Vec::new(),
        names: names.iter().map(|t| t.to_string()).collect(),
        promote,
        include_invalid,
    }
}

#[test]
fn static_values_emit_string_literals() {
    let c = corpus();
    let src = static_values(&c, StaticTarget::Text, &static_args(&["sql"], &[], true, false)).unwrap();
    assert!(src.starts_with("&[\""));
    assert!(src.ends_with("] as &'static [&'static str]"));
    assert!(src.contains('\'') || src.contains("--"));
    assert!(src.contains("\"SELECT * FROM t;\""));
    assert!(!src.contains("0x27"));
}

#[test]
fn static_values_emit_float_literals() {
    let c = corpus();
    let src = static_values(&c, StaticTarget::F64, &static_args(&[], &[], true, true)).unwrap();
    assert!(src.ends_with("] as &'static [f64]"));
    // 1.0 as binary32 and as binary16 (widened through f32), and as binary64.
    assert!(src.contains("f32::from_bits(0x3f800000) as f64"));
    assert!(src.contains("f64::from_bits(0x3ff0000000000000)"));
    // a NaN payload survives as its bit pattern.
    assert!(src.contains(&format!("f64::from_bits(0x{:016x})", f64::NAN.to_bits())));
    // the truncated binary32 input is invalid and has no value.
    assert!(!src.contains("0x000080"));
}

#[test]
fn static_examples_include_invalid_without_value() {
    let c = corpus();
    let src = static_examples(&c, StaticTarget::Text, &static_args(&["invalid-utf8"], &[], true, true)).unwrap();
    assert_eq!(
        src,
        "&[::trickydata::StaticExample::<&'static str> { name: \"language_sql_data_invalid_utf8\", \
         path: \"inputs/sql/invalid_utf8.input\", description: \"the language_sql_data_invalid_utf8 input\", \
         tags: &[\"sql\", \"invalid-utf8\"] as &'static [&'static str], decode_as: ::trickydata::DecodeAs::Bytes, \
         invalid_as: Some(::trickydata::DecodeAs::Utf8), value: None, raw: &[0x27u8, 0xc3u8, 0x28u8] as &'static [u8] }] \
         as &'static [::trickydata::StaticExample<&'static str>]"
    );
}

#[test]
fn static_examples_respect_promote_false_for_bytes() {
    let c = corpus();
    let src = static_examples(&c, StaticTarget::Bytes, &static_args(&["sql"], &[], false, true)).unwrap();
    assert!(src.contains("decode_as: ::trickydata::DecodeAs::Bytes"));
    assert!(!src.contains("decode_as: ::trickydata::DecodeAs::Utf8"));
    assert!(!src.contains("value: None"));
    assert!(src.contains("value: Some(&[0x27u8, 0xc3u8, 0x28u8] as &'static [u8])"));
}

#[test]
fn static_integer_literals_are_exact() {
    let c = corpus();
    let src = static_values(&c, StaticTarget::I16, &static_args(&[], &[], true, true)).unwrap();
    // Corpus order is name order: integer_i16_minimum sorts before integer_i8_minimum.
    assert_eq!(src, "&[i16::MIN, -128i16, 255i16, 0i16] as &'static [i16]");
    let src = static_values(&c, StaticTarget::U128, &static_args(&[], &["integer_u128_maximum", "integer_u64_maximum"], true, true)).unwrap();
    assert_eq!(src, "&[340282366920938463463374607431768211455u128, 18446744073709551615u128] as &'static [u128]");
    let src = static_values(&c, StaticTarget::I128, &static_args(&[], &["integer_i128_minimum"], true, true)).unwrap();
    assert_eq!(src, "&[i128::MIN] as &'static [i128]");
    let src = static_values(&c, StaticTarget::Bool, &static_args(&[], &[], true, true)).unwrap();
    assert_eq!(src, "&[true] as &'static [bool]");
    assert_eq!(StaticTarget::parse("Vec<u8>"), Some(StaticTarget::Bytes));
    assert_eq!(StaticTarget::parse("String"), Some(StaticTarget::Text));
    assert_eq!(StaticTarget::parse("f16"), None);
}

#[test]
fn static_decode_failures_are_errors() {
    let (mut index, mut blob) = fixture();
    let offset = blob.len();
    blob.extend_from_slice(&[0xFF, 0xFE]);
    index.inputs.push(RawEntry {
        name: "broken_utf8".to_string(),
        description: None,
        tags: vec!["broken".to_string()],
        decode_as: Some("utf8".to_string()),
        invalid_as: None,
        pair: None,
        unicode_meta: None,
        path: None,
        offset,
        length: 2,
    });
    let c = Corpus::from_index(index, &blob).unwrap();
    let r = static_values(&c, StaticTarget::Text, &static_args(&["broken"], &[], true, true));
    assert!(matches!(r, Err(StaticError::Decode(DecodeError::InvalidText { decode_as: DecodeAs::Utf8, .. }))));
}

// --- further cases ------------------------------------------------------------

#[test]
fn pair_results_keep_their_shape() {
    let c = corpus();
    let ps = c.pairs::<F64Bits>().seed(7).max(12).examples();
    assert!(ps.len() <= 12);
    let first_unrelated = ps.iter().position(|p| !p.related).unwrap_or(ps.len());
    // explicit links first, each with a hint; drawn pairs after, without one
    assert!(ps[..first_unrelated].iter().all(|p| p.related && p.hint.is_some()));
    assert!(ps[first_unrelated..].iter().all(|p| !p.related && p.hint.is_none()));
    // explicit links are sorted by (a, b) name and never repeat an unordered pair
    let explicit: Vec<(String, String)> =
        ps[..first_unrelated].iter().map(|p| (p.a.name().to_string(), p.b.name().to_string())).collect();
    let mut sorted = explicit.clone();
    sorted.sort();
    assert_eq!(explicit, sorted);
    let key = |a: &str, b: &str| if a <= b { (a.to_string(), b.to_string()) } else { (b.to_string(), a.to_string()) };
    let mut seen = HashSet::new();
    for p in &ps {
        assert!(seen.insert(key(p.a.name(), p.b.name())), "an unordered pair repeats");
    }
    // drawn pairs are never explicitly linked
    let linked: HashSet<(String, String)> = c
        .inputs()
        .iter()
        .flat_map(|i| i.links.iter().map(move |l| key(&i.name, &l.name)))
        .collect();
    assert!(ps[first_unrelated..].iter().all(|p| !linked.contains(&key(p.a.name(), p.b.name()))));
    // forcing the draw off leaves only the explicit links
    let only = c.pairs::<F64Bits>().include_unrelated(false).examples();
    assert!(only.iter().all(|p| p.related));
    assert_eq!(only.len(), 4);
    // a zero cap gives nothing
    assert!(c.pairs::<F64Bits>().max(0).examples().is_empty());
}

#[test]
fn query_caps_and_raw_payloads() {
    let c = corpus();
    let capped = c.get::<i128>().max(2).examples();
    assert_eq!(capped.len(), 2);
    assert_eq!(capped[0].name(), "integer_i128_minimum");
    let raw = c.get::<u8>().raw();
    assert_eq!(raw, vec![vec![0xFF], vec![0x00]]);
    let ordered = c.get::<u8>().sort(Sort::CorpusOrder).values();
    assert_eq!(ordered, vec![255, 0]);
    let by_name = c.get::<u8>().values();
    assert_eq!(by_name, vec![255, 0]);
    let excluded = c.get::<String>().exclude_tags(["sql"]).include_invalid(false).examples();
    assert!(excluded.iter().all(|e| !e.tags().iter().any(|t| t == "sql")));
    let padded = c.get::<String>().size(SizeUnit::ByteLength, 20).pad('-').examples();
    assert!(!padded.is_empty());
    for e in &padded {
        assert!(e.name().ends_with("__padded"));
        assert!(e.pairs().is_empty());
        assert!(e.as_text().unwrap().starts_with('-') || e.as_bytes().len() == 20);
    }
    let utf16 = c.get::<String>().names(["unicode_utf16_hi"]).size(SizeUnit::CodeUnits, 5).examples();
    assert_eq!(utf16.len(), 1);
    assert_eq!(utf16[0].as_text().unwrap(), "aaahi");
    assert_eq!(utf16[0].as_bytes().len(), 10);
}

#[test]
fn example_accessors() {
    let c = corpus();
    let e = c.get::<F64Bits>().names(["float_f32_one"]).examples().into_iter().next().unwrap();
    assert_eq!(e.description(), "the float_f32_one input");
    assert_eq!(e.tags(), &["float".to_string()]);
    assert!(e.unicode_meta().is_none());
    assert_eq!(e.pairs().len(), 1);
    assert_eq!(e.pairs()[0].name, "float_f64_one");
    assert_eq!(e.pairs()[0].hint, PairHint::Equal);
    let copy = e.clone();
    assert_eq!(copy.name(), e.name());
    assert_eq!(copy.as_bytes(), e.as_bytes());
    let f32_one = c.get::<F32Bits>().names(["float_f16_one"]).values();
    assert_eq!(f32_one, vec![F32Bits(1.0f32.to_bits())]);
    // binary64 inputs are not binary32 members
    assert!(c.get::<F32Bits>().names(["float_f64_one"]).values().is_empty());
    let b = c.get::<bool>().values();
    assert_eq!(b, vec![true]);
    let latin1 = c.get::<String>().names(["unicode_latin1_cafe"]).values();
    assert_eq!(latin1, vec!["caf\u{e9}".to_string()]);
}
