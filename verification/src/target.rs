//! The [`Target`] trait: which Rust type a query produces, and the lossless
//! promotion lattice that decides corpus membership.
//!
//! * integer targets accept narrower, sign-compatible integers (never
//!   narrowing, never a cross-sign conversion that loses range);
//! * float targets accept narrower floats (`f16 -> f32 -> f64`);
//! * integers and floats never mix;
//! * `String` unifies every text encoding;
//! * `Vec<u8>` is the universal sink: every input has a byte payload.
//!
//! With `promote = false` a target narrows to its single native `decode-as`.
//! Float targets are produced as their IEEE-754 bit patterns ([`F16Bits`],
//! [`F32Bits`], [`F64Bits`]).

use vstd::prelude::*;

use crate::decode_as::DecodeAs;
use crate::float::{
    f64_bits_to_f32_bits, f32_bits_to_f16_bits, spec_f32_to_f64, spec_f64_narrow_candidate,
    spec_f32_narrow_candidate, law_narrow_inverts_widen, law_f16_narrow_inverts_widen, spec_f16_to_f32,
};
use crate::native::{
    Native, NativeView, spec_decode, le_value, signed_le_value, pow256, lemma_le_value_bound,
    lemma_pow256_values,
};

verus! {

/// A binary16 value, as its bit pattern (`half::f16::from_bits(x.0)`).
#[derive(Debug, Clone, Copy, PartialEq, Eq)]
pub struct F16Bits(pub u16);

/// A binary32 value, as its bit pattern (`f32::from_bits(x.0)`).
#[derive(Debug, Clone, Copy, PartialEq, Eq)]
pub struct F32Bits(pub u32);

/// A binary64 value, as its bit pattern (`f64::from_bits(x.0)`).
#[derive(Debug, Clone, Copy, PartialEq, Eq)]
pub struct F64Bits(pub u64);

/// A Rust type a [`crate::Corpus`] query can produce.
pub trait Target: Sized {
    /// Whether an input with this `decode-as` is a member of the selection.
    spec fn spec_accepts(src: DecodeAs, promote: bool) -> bool;

    /// Whether a decoded value can be turned into this type.
    spec fn spec_extractable(n: NativeView) -> bool;

    /// `v` is the value of this type for the decoded value `n` of payload `raw`.
    spec fn spec_extracted(n: NativeView, raw: Seq<u8>, v: Self) -> bool;

    /// Whether string sizing applies to this target.
    spec fn spec_supports_sizing() -> bool;

    /// Whether string sizing applies to this target. Only `String` padding is
    /// meaningful.
    fn supports_sizing() -> (r: bool)
        ensures
            r == Self::spec_supports_sizing(),
    ;

    /// Whether an input with this `decode-as` is a member of this target's
    /// selection. With `promote` off, only the exact native token matches; with
    /// it on, the full lossless-promotion set matches.
    fn accepts(src: DecodeAs, promote: bool) -> (r: bool)
        ensures
            r == Self::spec_accepts(src, promote),
    ;

    /// Produce the target value from an already-decoded [`Native`] and the raw
    /// payload (the raw payload serves the `Vec<u8>` sink).
    fn extract(native: &Native, raw: &[u8]) -> (r: Option<Self>)
        ensures
            r is Some <==> Self::spec_extractable(native@),
            r matches Some(v) ==> Self::spec_extracted(native@, raw@, v),
    ;

    /// Promotion only ever widens the native selection.
    proof fn lemma_native_is_promoted(src: DecodeAs)
        requires
            Self::spec_accepts(src, false),
        ensures
            Self::spec_accepts(src, true),
    ;

    /// Every input the selection admits decodes to something this type holds.
    proof fn lemma_accepted_is_extractable(src: DecodeAs, p: Seq<u8>)
        requires
            Self::spec_accepts(src, true),
            spec_decode(src, p) is Ok,
        ensures
            Self::spec_extractable(spec_decode(src, p)->Ok_0),
    ;

    /// A sizing target admits every text encoding.
    proof fn lemma_sizing_admits_text(src: DecodeAs)
        ensures
            Self::spec_supports_sizing() && src.spec_is_text() ==> Self::spec_accepts(src, true),
    ;
}

/// Value range of the integer a numeric token decodes to.
pub open spec fn int_min(src: DecodeAs) -> int {
    if src.is_signed() {
        -(pow256(src.width()) / 2)
    } else {
        0
    }
}

pub open spec fn int_max(src: DecodeAs) -> int {
    if src.is_signed() {
        pow256(src.width()) / 2 - 1
    } else {
        pow256(src.width()) - 1
    }
}

/// The decoded integer lies in its token's range.
pub proof fn lemma_decoded_int_range(src: DecodeAs, p: Seq<u8>)
    requires
        src.is_unsigned() || src.is_signed(),
        p.len() == src.width(),
    ensures
        src.is_unsigned() ==> int_min(src) <= le_value(p) <= int_max(src),
        src.is_signed() ==> int_min(src) <= signed_le_value(p) <= int_max(src),
{
    lemma_le_value_bound(p);
    lemma_pow256_values();
    if src.is_signed() {
        crate::native::lemma_le_value_top(p);
    }
}

/// Accepting an integer token is exactly range inclusion.
pub open spec fn fits(src: DecodeAs, lo: int, hi: int) -> bool {
    (src.is_unsigned() || src.is_signed()) && lo <= int_min(src) && int_max(src) <= hi
}

// --- unsigned integers -----------------------------------------------------

impl Target for u8 {
    open spec fn spec_accepts(src: DecodeAs, promote: bool) -> bool {
        src == DecodeAs::U8
    }

    open spec fn spec_extractable(n: NativeView) -> bool {
        n matches NativeView::U128(v) && v <= u8::MAX
    }

    open spec fn spec_extracted(n: NativeView, raw: Seq<u8>, v: u8) -> bool {
        n matches NativeView::U128(w) && w == v
    }

    open spec fn spec_supports_sizing() -> bool {
        false
    }

    fn supports_sizing() -> (r: bool) {
        false
    }

    fn accepts(src: DecodeAs, promote: bool) -> (r: bool) {
        src == DecodeAs::U8
    }

    fn extract(native: &Native, raw: &[u8]) -> (r: Option<u8>) {
        match native {
            Native::U128(v) => if *v <= u8::MAX as u128 {
                Some(*v as u8)
            } else {
                None
            },
            _ => None,
        }
    }

    proof fn lemma_native_is_promoted(src: DecodeAs) {
    }

    proof fn lemma_accepted_is_extractable(src: DecodeAs, p: Seq<u8>) {
        lemma_decoded_int_range(src, p);
        lemma_pow256_values();
    }

    proof fn lemma_sizing_admits_text(src: DecodeAs) {
    }
}

impl Target for u16 {
    open spec fn spec_accepts(src: DecodeAs, promote: bool) -> bool {
        if promote {
            matches!(src, DecodeAs::U8 | DecodeAs::U16Le)
        } else {
            src == DecodeAs::U16Le
        }
    }

    open spec fn spec_extractable(n: NativeView) -> bool {
        n matches NativeView::U128(v) && v <= u16::MAX
    }

    open spec fn spec_extracted(n: NativeView, raw: Seq<u8>, v: u16) -> bool {
        n matches NativeView::U128(w) && w == v
    }

    open spec fn spec_supports_sizing() -> bool {
        false
    }

    fn supports_sizing() -> (r: bool) {
        false
    }

    fn accepts(src: DecodeAs, promote: bool) -> (r: bool) {
        if promote {
            matches!(src, DecodeAs::U8 | DecodeAs::U16Le)
        } else {
            src == DecodeAs::U16Le
        }
    }

    fn extract(native: &Native, raw: &[u8]) -> (r: Option<u16>) {
        match native {
            Native::U128(v) => if *v <= u16::MAX as u128 {
                Some(*v as u16)
            } else {
                None
            },
            _ => None,
        }
    }

    proof fn lemma_native_is_promoted(src: DecodeAs) {
    }

    proof fn lemma_accepted_is_extractable(src: DecodeAs, p: Seq<u8>) {
        lemma_decoded_int_range(src, p);
        lemma_pow256_values();
    }

    proof fn lemma_sizing_admits_text(src: DecodeAs) {
    }
}

impl Target for u32 {
    open spec fn spec_accepts(src: DecodeAs, promote: bool) -> bool {
        if promote {
            matches!(src, DecodeAs::U8 | DecodeAs::U16Le | DecodeAs::U32Le)
        } else {
            src == DecodeAs::U32Le
        }
    }

    open spec fn spec_extractable(n: NativeView) -> bool {
        n matches NativeView::U128(v) && v <= u32::MAX
    }

    open spec fn spec_extracted(n: NativeView, raw: Seq<u8>, v: u32) -> bool {
        n matches NativeView::U128(w) && w == v
    }

    open spec fn spec_supports_sizing() -> bool {
        false
    }

    fn supports_sizing() -> (r: bool) {
        false
    }

    fn accepts(src: DecodeAs, promote: bool) -> (r: bool) {
        if promote {
            matches!(src, DecodeAs::U8 | DecodeAs::U16Le | DecodeAs::U32Le)
        } else {
            src == DecodeAs::U32Le
        }
    }

    fn extract(native: &Native, raw: &[u8]) -> (r: Option<u32>) {
        match native {
            Native::U128(v) => if *v <= u32::MAX as u128 {
                Some(*v as u32)
            } else {
                None
            },
            _ => None,
        }
    }

    proof fn lemma_native_is_promoted(src: DecodeAs) {
    }

    proof fn lemma_accepted_is_extractable(src: DecodeAs, p: Seq<u8>) {
        lemma_decoded_int_range(src, p);
        lemma_pow256_values();
    }

    proof fn lemma_sizing_admits_text(src: DecodeAs) {
    }
}

impl Target for u64 {
    open spec fn spec_accepts(src: DecodeAs, promote: bool) -> bool {
        if promote {
            matches!(src, DecodeAs::U8 | DecodeAs::U16Le | DecodeAs::U32Le | DecodeAs::U64Le)
        } else {
            src == DecodeAs::U64Le
        }
    }

    open spec fn spec_extractable(n: NativeView) -> bool {
        n matches NativeView::U128(v) && v <= u64::MAX
    }

    open spec fn spec_extracted(n: NativeView, raw: Seq<u8>, v: u64) -> bool {
        n matches NativeView::U128(w) && w == v
    }

    open spec fn spec_supports_sizing() -> bool {
        false
    }

    fn supports_sizing() -> (r: bool) {
        false
    }

    fn accepts(src: DecodeAs, promote: bool) -> (r: bool) {
        if promote {
            matches!(src, DecodeAs::U8 | DecodeAs::U16Le | DecodeAs::U32Le | DecodeAs::U64Le)
        } else {
            src == DecodeAs::U64Le
        }
    }

    fn extract(native: &Native, raw: &[u8]) -> (r: Option<u64>) {
        match native {
            Native::U128(v) => if *v <= u64::MAX as u128 {
                Some(*v as u64)
            } else {
                None
            },
            _ => None,
        }
    }

    proof fn lemma_native_is_promoted(src: DecodeAs) {
    }

    proof fn lemma_accepted_is_extractable(src: DecodeAs, p: Seq<u8>) {
        lemma_decoded_int_range(src, p);
        lemma_pow256_values();
    }

    proof fn lemma_sizing_admits_text(src: DecodeAs) {
    }
}

impl Target for u128 {
    open spec fn spec_accepts(src: DecodeAs, promote: bool) -> bool {
        if promote {
            matches!(src, DecodeAs::U8 | DecodeAs::U16Le | DecodeAs::U32Le | DecodeAs::U64Le | DecodeAs::U128Le)
        } else {
            src == DecodeAs::U128Le
        }
    }

    open spec fn spec_extractable(n: NativeView) -> bool {
        n matches NativeView::U128(v)
    }

    open spec fn spec_extracted(n: NativeView, raw: Seq<u8>, v: u128) -> bool {
        n matches NativeView::U128(w) && w == v
    }

    open spec fn spec_supports_sizing() -> bool {
        false
    }

    fn supports_sizing() -> (r: bool) {
        false
    }

    fn accepts(src: DecodeAs, promote: bool) -> (r: bool) {
        if promote {
            matches!(src, DecodeAs::U8 | DecodeAs::U16Le | DecodeAs::U32Le | DecodeAs::U64Le | DecodeAs::U128Le)
        } else {
            src == DecodeAs::U128Le
        }
    }

    fn extract(native: &Native, raw: &[u8]) -> (r: Option<u128>) {
        match native {
            Native::U128(v) => Some(*v),
            _ => None,
        }
    }

    proof fn lemma_native_is_promoted(src: DecodeAs) {
    }

    proof fn lemma_accepted_is_extractable(src: DecodeAs, p: Seq<u8>) {
        lemma_decoded_int_range(src, p);
        lemma_pow256_values();
    }

    proof fn lemma_sizing_admits_text(src: DecodeAs) {
    }
}

// --- signed integers -------------------------------------------------------

impl Target for i8 {
    open spec fn spec_accepts(src: DecodeAs, promote: bool) -> bool {
        src == DecodeAs::I8
    }

    open spec fn spec_extractable(n: NativeView) -> bool {
        ||| (n matches NativeView::U128(v) && v <= i8::MAX)
        ||| (n matches NativeView::I128(v) && i8::MIN <= v <= i8::MAX)
    }

    open spec fn spec_extracted(n: NativeView, raw: Seq<u8>, v: i8) -> bool {
        ||| (n matches NativeView::U128(w) && w == v)
        ||| (n matches NativeView::I128(w) && w == v)
    }

    open spec fn spec_supports_sizing() -> bool {
        false
    }

    fn supports_sizing() -> (r: bool) {
        false
    }

    fn accepts(src: DecodeAs, promote: bool) -> (r: bool) {
        src == DecodeAs::I8
    }

    fn extract(native: &Native, raw: &[u8]) -> (r: Option<i8>) {
        match native {
            Native::U128(v) => if *v <= i8::MAX as u128 {
                Some(*v as i8)
            } else {
                None
            },
            Native::I128(v) => if i8::MIN as i128 <= *v && *v <= i8::MAX as i128 {
                Some(*v as i8)
            } else {
                None
            },
            _ => None,
        }
    }

    proof fn lemma_native_is_promoted(src: DecodeAs) {
    }

    proof fn lemma_accepted_is_extractable(src: DecodeAs, p: Seq<u8>) {
        lemma_decoded_int_range(src, p);
        lemma_pow256_values();
    }

    proof fn lemma_sizing_admits_text(src: DecodeAs) {
    }
}

impl Target for i16 {
    open spec fn spec_accepts(src: DecodeAs, promote: bool) -> bool {
        if promote {
            matches!(src, DecodeAs::I8 | DecodeAs::I16Le | DecodeAs::U8)
        } else {
            src == DecodeAs::I16Le
        }
    }

    open spec fn spec_extractable(n: NativeView) -> bool {
        ||| (n matches NativeView::U128(v) && v <= i16::MAX)
        ||| (n matches NativeView::I128(v) && i16::MIN <= v <= i16::MAX)
    }

    open spec fn spec_extracted(n: NativeView, raw: Seq<u8>, v: i16) -> bool {
        ||| (n matches NativeView::U128(w) && w == v)
        ||| (n matches NativeView::I128(w) && w == v)
    }

    open spec fn spec_supports_sizing() -> bool {
        false
    }

    fn supports_sizing() -> (r: bool) {
        false
    }

    fn accepts(src: DecodeAs, promote: bool) -> (r: bool) {
        if promote {
            matches!(src, DecodeAs::I8 | DecodeAs::I16Le | DecodeAs::U8)
        } else {
            src == DecodeAs::I16Le
        }
    }

    fn extract(native: &Native, raw: &[u8]) -> (r: Option<i16>) {
        match native {
            Native::U128(v) => if *v <= i16::MAX as u128 {
                Some(*v as i16)
            } else {
                None
            },
            Native::I128(v) => if i16::MIN as i128 <= *v && *v <= i16::MAX as i128 {
                Some(*v as i16)
            } else {
                None
            },
            _ => None,
        }
    }

    proof fn lemma_native_is_promoted(src: DecodeAs) {
    }

    proof fn lemma_accepted_is_extractable(src: DecodeAs, p: Seq<u8>) {
        lemma_decoded_int_range(src, p);
        lemma_pow256_values();
    }

    proof fn lemma_sizing_admits_text(src: DecodeAs) {
    }
}

impl Target for i32 {
    open spec fn spec_accepts(src: DecodeAs, promote: bool) -> bool {
        if promote {
            matches!(src, DecodeAs::I8 | DecodeAs::I16Le | DecodeAs::I32Le | DecodeAs::U8 | DecodeAs::U16Le)
        } else {
            src == DecodeAs::I32Le
        }
    }

    open spec fn spec_extractable(n: NativeView) -> bool {
        ||| (n matches NativeView::U128(v) && v <= i32::MAX)
        ||| (n matches NativeView::I128(v) && i32::MIN <= v <= i32::MAX)
    }

    open spec fn spec_extracted(n: NativeView, raw: Seq<u8>, v: i32) -> bool {
        ||| (n matches NativeView::U128(w) && w == v)
        ||| (n matches NativeView::I128(w) && w == v)
    }

    open spec fn spec_supports_sizing() -> bool {
        false
    }

    fn supports_sizing() -> (r: bool) {
        false
    }

    fn accepts(src: DecodeAs, promote: bool) -> (r: bool) {
        if promote {
            matches!(src, DecodeAs::I8 | DecodeAs::I16Le | DecodeAs::I32Le | DecodeAs::U8 | DecodeAs::U16Le)
        } else {
            src == DecodeAs::I32Le
        }
    }

    fn extract(native: &Native, raw: &[u8]) -> (r: Option<i32>) {
        match native {
            Native::U128(v) => if *v <= i32::MAX as u128 {
                Some(*v as i32)
            } else {
                None
            },
            Native::I128(v) => if i32::MIN as i128 <= *v && *v <= i32::MAX as i128 {
                Some(*v as i32)
            } else {
                None
            },
            _ => None,
        }
    }

    proof fn lemma_native_is_promoted(src: DecodeAs) {
    }

    proof fn lemma_accepted_is_extractable(src: DecodeAs, p: Seq<u8>) {
        lemma_decoded_int_range(src, p);
        lemma_pow256_values();
    }

    proof fn lemma_sizing_admits_text(src: DecodeAs) {
    }
}

impl Target for i64 {
    open spec fn spec_accepts(src: DecodeAs, promote: bool) -> bool {
        if promote {
            matches!(src, DecodeAs::I8 | DecodeAs::I16Le | DecodeAs::I32Le | DecodeAs::I64Le | DecodeAs::U8 | DecodeAs::U16Le | DecodeAs::U32Le)
        } else {
            src == DecodeAs::I64Le
        }
    }

    open spec fn spec_extractable(n: NativeView) -> bool {
        ||| (n matches NativeView::U128(v) && v <= i64::MAX)
        ||| (n matches NativeView::I128(v) && i64::MIN <= v <= i64::MAX)
    }

    open spec fn spec_extracted(n: NativeView, raw: Seq<u8>, v: i64) -> bool {
        ||| (n matches NativeView::U128(w) && w == v)
        ||| (n matches NativeView::I128(w) && w == v)
    }

    open spec fn spec_supports_sizing() -> bool {
        false
    }

    fn supports_sizing() -> (r: bool) {
        false
    }

    fn accepts(src: DecodeAs, promote: bool) -> (r: bool) {
        if promote {
            matches!(src, DecodeAs::I8 | DecodeAs::I16Le | DecodeAs::I32Le | DecodeAs::I64Le | DecodeAs::U8 | DecodeAs::U16Le | DecodeAs::U32Le)
        } else {
            src == DecodeAs::I64Le
        }
    }

    fn extract(native: &Native, raw: &[u8]) -> (r: Option<i64>) {
        match native {
            Native::U128(v) => if *v <= i64::MAX as u128 {
                Some(*v as i64)
            } else {
                None
            },
            Native::I128(v) => if i64::MIN as i128 <= *v && *v <= i64::MAX as i128 {
                Some(*v as i64)
            } else {
                None
            },
            _ => None,
        }
    }

    proof fn lemma_native_is_promoted(src: DecodeAs) {
    }

    proof fn lemma_accepted_is_extractable(src: DecodeAs, p: Seq<u8>) {
        lemma_decoded_int_range(src, p);
        lemma_pow256_values();
    }

    proof fn lemma_sizing_admits_text(src: DecodeAs) {
    }
}

impl Target for i128 {
    open spec fn spec_accepts(src: DecodeAs, promote: bool) -> bool {
        if promote {
            matches!(src, DecodeAs::I8 | DecodeAs::I16Le | DecodeAs::I32Le | DecodeAs::I64Le | DecodeAs::I128Le | DecodeAs::U8 | DecodeAs::U16Le | DecodeAs::U32Le | DecodeAs::U64Le)
        } else {
            src == DecodeAs::I128Le
        }
    }

    open spec fn spec_extractable(n: NativeView) -> bool {
        ||| (n matches NativeView::U128(v) && v <= i128::MAX)
        ||| n is I128
    }

    open spec fn spec_extracted(n: NativeView, raw: Seq<u8>, v: i128) -> bool {
        ||| (n matches NativeView::U128(w) && w == v)
        ||| (n matches NativeView::I128(w) && w == v)
    }

    open spec fn spec_supports_sizing() -> bool {
        false
    }

    fn supports_sizing() -> (r: bool) {
        false
    }

    fn accepts(src: DecodeAs, promote: bool) -> (r: bool) {
        if promote {
            matches!(src, DecodeAs::I8 | DecodeAs::I16Le | DecodeAs::I32Le | DecodeAs::I64Le | DecodeAs::I128Le | DecodeAs::U8 | DecodeAs::U16Le | DecodeAs::U32Le | DecodeAs::U64Le)
        } else {
            src == DecodeAs::I128Le
        }
    }

    fn extract(native: &Native, raw: &[u8]) -> (r: Option<i128>) {
        match native {
            Native::U128(v) => if *v <= i128::MAX as u128 {
                Some(*v as i128)
            } else {
                None
            },
            Native::I128(v) => Some(*v),
            _ => None,
        }
    }

    proof fn lemma_native_is_promoted(src: DecodeAs) {
    }

    proof fn lemma_accepted_is_extractable(src: DecodeAs, p: Seq<u8>) {
        lemma_decoded_int_range(src, p);
        lemma_pow256_values();
    }

    proof fn lemma_sizing_admits_text(src: DecodeAs) {
    }
}

// --- floats, bool, text, bytes ---------------------------------------------

/// binary16 has nothing narrower to promote from: it only ever admits f16.
impl Target for F16Bits {
    open spec fn spec_accepts(src: DecodeAs, promote: bool) -> bool {
        src == DecodeAs::F16Le
    }

    open spec fn spec_extractable(n: NativeView) -> bool {
        n matches NativeView::F64Bits(b) && {
            let c = spec_f64_narrow_candidate(b);
            spec_f32_to_f64(c) == b && spec_f16_to_f32(spec_f32_narrow_candidate(c)) == c
        }
    }

    open spec fn spec_extracted(n: NativeView, raw: Seq<u8>, v: F16Bits) -> bool {
        n matches NativeView::F64Bits(b) && spec_f32_to_f64(spec_f16_to_f32(v.0)) == b
    }

    open spec fn spec_supports_sizing() -> bool {
        false
    }

    fn supports_sizing() -> (r: bool) {
        false
    }

    fn accepts(src: DecodeAs, promote: bool) -> (r: bool) {
        src == DecodeAs::F16Le
    }

    fn extract(native: &Native, raw: &[u8]) -> (r: Option<F16Bits>) {
        match native {
            Native::F64Bits(b) => match f64_bits_to_f32_bits(*b) {
                Some(x) => match f32_bits_to_f16_bits(x) {
                    Some(h) => Some(F16Bits(h)),
                    None => None,
                },
                None => None,
            },
            _ => None,
        }
    }

    proof fn lemma_native_is_promoted(src: DecodeAs) {
    }

    proof fn lemma_accepted_is_extractable(src: DecodeAs, p: Seq<u8>) {
        let h = le_value(p) as u16;
        law_f16_narrow_inverts_widen(h);
        law_narrow_inverts_widen(spec_f16_to_f32(h));
    }

    proof fn lemma_sizing_admits_text(src: DecodeAs) {
    }
}

impl Target for F32Bits {
    open spec fn spec_accepts(src: DecodeAs, promote: bool) -> bool {
        if promote {
            matches!(src, DecodeAs::F16Le | DecodeAs::F32Le)
        } else {
            src == DecodeAs::F32Le
        }
    }

    open spec fn spec_extractable(n: NativeView) -> bool {
        n matches NativeView::F64Bits(b) && spec_f32_to_f64(spec_f64_narrow_candidate(b)) == b
    }

    open spec fn spec_extracted(n: NativeView, raw: Seq<u8>, v: F32Bits) -> bool {
        n matches NativeView::F64Bits(b) && spec_f32_to_f64(v.0) == b
    }

    open spec fn spec_supports_sizing() -> bool {
        false
    }

    fn supports_sizing() -> (r: bool) {
        false
    }

    fn accepts(src: DecodeAs, promote: bool) -> (r: bool) {
        if promote {
            matches!(src, DecodeAs::F16Le | DecodeAs::F32Le)
        } else {
            src == DecodeAs::F32Le
        }
    }

    fn extract(native: &Native, raw: &[u8]) -> (r: Option<F32Bits>) {
        match native {
            Native::F64Bits(b) => match f64_bits_to_f32_bits(*b) {
                Some(x) => Some(F32Bits(x)),
                None => None,
            },
            _ => None,
        }
    }

    proof fn lemma_native_is_promoted(src: DecodeAs) {
    }

    proof fn lemma_accepted_is_extractable(src: DecodeAs, p: Seq<u8>) {
        if src == DecodeAs::F16Le {
            law_narrow_inverts_widen(spec_f16_to_f32(le_value(p) as u16));
        } else {
            law_narrow_inverts_widen(le_value(p) as u32);
        }
    }

    proof fn lemma_sizing_admits_text(src: DecodeAs) {
    }
}

impl Target for F64Bits {
    open spec fn spec_accepts(src: DecodeAs, promote: bool) -> bool {
        if promote {
            matches!(src, DecodeAs::F16Le | DecodeAs::F32Le | DecodeAs::F64Le)
        } else {
            src == DecodeAs::F64Le
        }
    }

    open spec fn spec_extractable(n: NativeView) -> bool {
        n is F64Bits
    }

    open spec fn spec_extracted(n: NativeView, raw: Seq<u8>, v: F64Bits) -> bool {
        n matches NativeView::F64Bits(b) && v.0 == b
    }

    open spec fn spec_supports_sizing() -> bool {
        false
    }

    fn supports_sizing() -> (r: bool) {
        false
    }

    fn accepts(src: DecodeAs, promote: bool) -> (r: bool) {
        if promote {
            matches!(src, DecodeAs::F16Le | DecodeAs::F32Le | DecodeAs::F64Le)
        } else {
            src == DecodeAs::F64Le
        }
    }

    fn extract(native: &Native, raw: &[u8]) -> (r: Option<F64Bits>) {
        match native {
            Native::F64Bits(b) => Some(F64Bits(*b)),
            _ => None,
        }
    }

    proof fn lemma_native_is_promoted(src: DecodeAs) {
    }

    proof fn lemma_accepted_is_extractable(src: DecodeAs, p: Seq<u8>) {
    }

    proof fn lemma_sizing_admits_text(src: DecodeAs) {
    }
}

impl Target for bool {
    open spec fn spec_accepts(src: DecodeAs, promote: bool) -> bool {
        src == DecodeAs::Bool
    }

    open spec fn spec_extractable(n: NativeView) -> bool {
        n is Bool
    }

    open spec fn spec_extracted(n: NativeView, raw: Seq<u8>, v: bool) -> bool {
        n matches NativeView::Bool(b) && v == b
    }

    open spec fn spec_supports_sizing() -> bool {
        false
    }

    fn supports_sizing() -> (r: bool) {
        false
    }

    fn accepts(src: DecodeAs, promote: bool) -> (r: bool) {
        src == DecodeAs::Bool
    }

    fn extract(native: &Native, raw: &[u8]) -> (r: Option<bool>) {
        match native {
            Native::Bool(b) => Some(*b),
            _ => None,
        }
    }

    proof fn lemma_native_is_promoted(src: DecodeAs) {
    }

    proof fn lemma_accepted_is_extractable(src: DecodeAs, p: Seq<u8>) {
    }

    proof fn lemma_sizing_admits_text(src: DecodeAs) {
    }
}

impl Target for String {
    /// All text encodings collapse into one Rust `String`. Promotion does not
    /// widen strings (bytes -> str is not lossless).
    open spec fn spec_accepts(src: DecodeAs, promote: bool) -> bool {
        src.spec_is_text()
    }

    open spec fn spec_extractable(n: NativeView) -> bool {
        n is Text
    }

    open spec fn spec_extracted(n: NativeView, raw: Seq<u8>, v: String) -> bool {
        n matches NativeView::Text(s) && v@ == s
    }

    open spec fn spec_supports_sizing() -> bool {
        true
    }

    fn supports_sizing() -> (r: bool) {
        true
    }

    fn accepts(src: DecodeAs, promote: bool) -> (r: bool) {
        src.is_text()
    }

    fn extract(native: &Native, raw: &[u8]) -> (r: Option<String>) {
        match native {
            Native::Text(s) => Some(s.clone()),
            _ => None,
        }
    }

    proof fn lemma_native_is_promoted(src: DecodeAs) {
    }

    proof fn lemma_accepted_is_extractable(src: DecodeAs, p: Seq<u8>) {
    }

    proof fn lemma_sizing_admits_text(src: DecodeAs) {
    }
}

impl Target for Vec<u8> {
    /// The native set is just `bytes`; with promotion the sink swallows every
    /// input (each has a raw payload).
    open spec fn spec_accepts(src: DecodeAs, promote: bool) -> bool {
        promote || src == DecodeAs::Bytes
    }

    open spec fn spec_extractable(n: NativeView) -> bool {
        true
    }

    open spec fn spec_extracted(n: NativeView, raw: Seq<u8>, v: Vec<u8>) -> bool {
        v@ == raw
    }

    open spec fn spec_supports_sizing() -> bool {
        false
    }

    fn supports_sizing() -> (r: bool) {
        false
    }

    fn accepts(src: DecodeAs, promote: bool) -> (r: bool) {
        promote || src == DecodeAs::Bytes
    }

    fn extract(native: &Native, raw: &[u8]) -> (r: Option<Vec<u8>>) {
        Some(vstd::slice::slice_to_vec(raw))
    }

    proof fn lemma_native_is_promoted(src: DecodeAs) {
    }

    proof fn lemma_accepted_is_extractable(src: DecodeAs, p: Seq<u8>) {
    }

    proof fn lemma_sizing_admits_text(src: DecodeAs) {
    }
}


// --- the promotion lattice ---------------------------------------------------

/// Integer promotion is exactly lossless range inclusion: an integer target
/// accepts a token (with promotion) if and only if every value of the
/// token's type lies in the target's range.
pub proof fn law_integer_promotion_is_range_inclusion(src: DecodeAs)
    ensures
        <u8 as Target>::spec_accepts(src, true) <==> fits(src, 0, u8::MAX as int),
        <u16 as Target>::spec_accepts(src, true) <==> fits(src, 0, u16::MAX as int),
        <u32 as Target>::spec_accepts(src, true) <==> fits(src, 0, u32::MAX as int),
        <u64 as Target>::spec_accepts(src, true) <==> fits(src, 0, u64::MAX as int),
        <u128 as Target>::spec_accepts(src, true) <==> fits(src, 0, u128::MAX as int),
        <i8 as Target>::spec_accepts(src, true) <==> fits(src, i8::MIN as int, i8::MAX as int),
        <i16 as Target>::spec_accepts(src, true) <==> fits(src, i16::MIN as int, i16::MAX as int),
        <i32 as Target>::spec_accepts(src, true) <==> fits(src, i32::MIN as int, i32::MAX as int),
        <i64 as Target>::spec_accepts(src, true) <==> fits(src, i64::MIN as int, i64::MAX as int),
        <i128 as Target>::spec_accepts(src, true) <==> fits(src, i128::MIN as int, i128::MAX as int),
{
    lemma_pow256_values();
}

/// Integers and floats never mix: an integer target admits no float token
/// and a float target admits only float tokens, with or without promotion.
pub proof fn law_ints_and_floats_never_mix(src: DecodeAs, promote: bool)
    ensures
        <u8 as Target>::spec_accepts(src, promote) ==> src.is_unsigned(),
        <u16 as Target>::spec_accepts(src, promote) ==> src.is_unsigned(),
        <u32 as Target>::spec_accepts(src, promote) ==> src.is_unsigned(),
        <u64 as Target>::spec_accepts(src, promote) ==> src.is_unsigned(),
        <u128 as Target>::spec_accepts(src, promote) ==> src.is_unsigned(),
        <i8 as Target>::spec_accepts(src, promote) ==> src.is_unsigned() || src.is_signed(),
        <i16 as Target>::spec_accepts(src, promote) ==> src.is_unsigned() || src.is_signed(),
        <i32 as Target>::spec_accepts(src, promote) ==> src.is_unsigned() || src.is_signed(),
        <i64 as Target>::spec_accepts(src, promote) ==> src.is_unsigned() || src.is_signed(),
        <i128 as Target>::spec_accepts(src, promote) ==> src.is_unsigned() || src.is_signed(),
        <F16Bits as Target>::spec_accepts(src, promote) ==> src.is_float(),
        <F32Bits as Target>::spec_accepts(src, promote) ==> src.is_float(),
        <F64Bits as Target>::spec_accepts(src, promote) ==> src.is_float(),
{
}

/// Float targets widen only: binary16 admits binary16 alone, binary32 admits
/// binary16 and binary32; binary64 admits all three widths.
pub proof fn law_float_promotion_widens(src: DecodeAs)
    ensures
        <F16Bits as Target>::spec_accepts(src, true) <==> src == DecodeAs::F16Le,
        <F32Bits as Target>::spec_accepts(src, true) <==> (src == DecodeAs::F16Le || src == DecodeAs::F32Le),
        <F64Bits as Target>::spec_accepts(src, true) <==> src.is_float(),
{
}

/// Without promotion each target admits exactly its single native token
/// (`String` admits every text encoding either way).
pub proof fn law_promote_off_is_native_only(src: DecodeAs)
    ensures
        <u8 as Target>::spec_accepts(src, false) <==> src == DecodeAs::U8,
        <u16 as Target>::spec_accepts(src, false) <==> src == DecodeAs::U16Le,
        <u32 as Target>::spec_accepts(src, false) <==> src == DecodeAs::U32Le,
        <u64 as Target>::spec_accepts(src, false) <==> src == DecodeAs::U64Le,
        <u128 as Target>::spec_accepts(src, false) <==> src == DecodeAs::U128Le,
        <i8 as Target>::spec_accepts(src, false) <==> src == DecodeAs::I8,
        <i16 as Target>::spec_accepts(src, false) <==> src == DecodeAs::I16Le,
        <i32 as Target>::spec_accepts(src, false) <==> src == DecodeAs::I32Le,
        <i64 as Target>::spec_accepts(src, false) <==> src == DecodeAs::I64Le,
        <i128 as Target>::spec_accepts(src, false) <==> src == DecodeAs::I128Le,
        <F16Bits as Target>::spec_accepts(src, false) <==> src == DecodeAs::F16Le,
        <F32Bits as Target>::spec_accepts(src, false) <==> src == DecodeAs::F32Le,
        <F64Bits as Target>::spec_accepts(src, false) <==> src == DecodeAs::F64Le,
        <bool as Target>::spec_accepts(src, false) <==> src == DecodeAs::Bool,
        <Vec<u8> as Target>::spec_accepts(src, false) <==> src == DecodeAs::Bytes,
        <String as Target>::spec_accepts(src, false) <==> src.spec_is_text(),
{
}

/// `Vec<u8>` is the universal sink: with promotion it admits every token,
/// and its value is the raw payload whatever was decoded.
pub proof fn law_bytes_is_universal_sink(src: DecodeAs, n: NativeView, raw: Seq<u8>, v: Vec<u8>)
    ensures
        <Vec<u8> as Target>::spec_accepts(src, true),
        <Vec<u8> as Target>::spec_extractable(n),
        <Vec<u8> as Target>::spec_extracted(n, raw, v) <==> v@ == raw,
{
}

/// `String` unifies every text encoding: it admits exactly the text tokens.
pub proof fn law_string_unifies_text(src: DecodeAs, promote: bool)
    ensures
        <String as Target>::spec_accepts(src, promote) <==> src.spec_is_text(),
{
}

} // verus!
