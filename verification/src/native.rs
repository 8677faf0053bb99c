//! Decode a payload into its natural ("native") value.
//!
//! Numerics are little-endian with no padding; text is decoded per its
//! encoding. Integers widen into a 128-bit carrier (one variant per
//! signedness); floats widen exactly into a binary64 bit pattern. The
//! input's own `DecodeAs` token, not the carrier, is what target membership is
//! tested against.

use vstd::prelude::*;

use crate::codec::{decode_text, spec_decode_text};
use crate::decode_as::DecodeAs;
use crate::error::DecodeError;
use crate::float::{f16_bits_to_f32_bits, f32_bits_to_f64_bits, spec_f16_to_f32, spec_f32_to_f64};

verus! {

/// A decoded value, tagged by signedness/kind rather than exact width.
#[derive(Clone, Debug, PartialEq)]
pub enum Native {
    /// Any unsigned integer (`u8`..`u128`), widened to `u128`.
    U128(u128),
    /// Any signed integer (`i8`..`i128`), widened to `i128`.
    I128(i128),
    /// Any float (`f16`/`f32`/`f64`), widened exactly to binary64 and held as
    /// its bit pattern.
    F64Bits(u64),
    Bool(bool),
    /// Any text encoding, decoded to a Rust `String`.
    Text(String),
    /// Raw bytes (`decode-as: bytes`).
    Bytes(Vec<u8>),
}

/// The mathematical content of a [`Native`].
pub enum NativeView {
    U128(u128),
    I128(i128),
    F64Bits(u64),
    Bool(bool),
    Text(Seq<char>),
    Bytes(Seq<u8>),
}

impl View for Native {
    type V = NativeView;

    open spec fn view(&self) -> NativeView {
        match self {
            Native::U128(v) => NativeView::U128(*v),
            Native::I128(v) => NativeView::I128(*v),
            Native::F64Bits(v) => NativeView::F64Bits(*v),
            Native::Bool(v) => NativeView::Bool(*v),
            Native::Text(s) => NativeView::Text(s@),
            Native::Bytes(b) => NativeView::Bytes(b@),
        }
    }
}

/// 256 to the power `n`.
pub open spec fn pow256(n: nat) -> nat
    decreases n,
{
    if n == 0 {
        1
    } else {
        256 * pow256((n - 1) as nat)
    }
}

/// The unsigned little-endian value of a byte string.
pub open spec fn le_value(s: Seq<u8>) -> nat
    decreases s.len(),
{
    if s.len() == 0 {
        0
    } else {
        s[0] as nat + 256 * le_value(s.drop_first())
    }
}

/// The two's-complement little-endian value of a non-empty byte string.
pub open spec fn signed_le_value(s: Seq<u8>) -> int {
    if s.len() > 0 && s[s.len() - 1] >= 0x80 {
        le_value(s) - pow256(s.len())
    } else {
        le_value(s) as int
    }
}

/// Whether some byte is non-zero (the `bool` decode).
pub open spec fn any_nonzero(s: Seq<u8>) -> bool {
    exists|i: int| 0 <= i < s.len() && #[trigger] s[i] != 0
}

/// What decoding `p` as `d` gives.
pub open spec fn spec_decode(d: DecodeAs, p: Seq<u8>) -> Result<NativeView, DecodeError> {
    if d.is_numeric() {
        if p.len() != d.width() {
            Err(DecodeError::WrongLength { decode_as: d, expected: d.width() as usize, got: p.len() as usize })
        } else if d.is_unsigned() {
            Ok(NativeView::U128(le_value(p) as u128))
        } else if d.is_signed() {
            Ok(NativeView::I128(signed_le_value(p) as i128))
        } else if d == DecodeAs::F16Le {
            Ok(NativeView::F64Bits(spec_f32_to_f64(spec_f16_to_f32(le_value(p) as u16))))
        } else if d == DecodeAs::F32Le {
            Ok(NativeView::F64Bits(spec_f32_to_f64(le_value(p) as u32)))
        } else {
            Ok(NativeView::F64Bits(le_value(p) as u64))
        }
    } else if d == DecodeAs::Bool {
        Ok(NativeView::Bool(any_nonzero(p)))
    } else if d == DecodeAs::Bytes {
        Ok(NativeView::Bytes(p))
    } else {
        match spec_decode_text(d, p) {
            Ok(s) => Ok(NativeView::Text(s)),
            Err(f) => Err(DecodeError::InvalidText { decode_as: d, detail: f }),
        }
    }
}

pub proof fn lemma_le_value_bound(s: Seq<u8>)
    ensures
        le_value(s) < pow256(s.len()),
    decreases s.len(),
{
    if s.len() > 0 {
        lemma_le_value_bound(s.drop_first());
        let r = le_value(s.drop_first());
        let q = pow256((s.len() - 1) as nat);
        assert(s[0] as nat + 256 * r < 256 * q) by (nonlinear_arith)
            requires
                r < q,
                s[0] < 256,
        ;
    }
}

proof fn lemma_le_value_step(s: Seq<u8>, i: int)
    requires
        0 <= i < s.len(),
    ensures
        le_value(s.skip(i)) == s[i] as nat + 256 * le_value(s.skip(i + 1)),
{
    assert(s.skip(i).drop_first() == s.skip(i + 1));
}

/// Byte width of a fixed-size numeric `decode-as`.
pub fn numeric_width(decode_as: DecodeAs) -> (r: usize)
    requires
        decode_as.is_numeric(),
    ensures
        r == decode_as.width(),
{
    match decode_as {
        DecodeAs::U8 | DecodeAs::I8 => 1,
        DecodeAs::U16Le | DecodeAs::I16Le | DecodeAs::F16Le => 2,
        DecodeAs::U32Le | DecodeAs::I32Le | DecodeAs::F32Le => 4,
        DecodeAs::U64Le | DecodeAs::I64Le | DecodeAs::F64Le => 8,
        _ => 16,
    }
}

/// Checks that a numeric payload has exactly its type's width.
pub fn require_width(decode_as: DecodeAs, payload: &[u8]) -> (r: Result<usize, DecodeError>)
    requires
        decode_as.is_numeric(),
    ensures
        payload@.len() == decode_as.width() ==> r == Ok::<usize, DecodeError>(decode_as.width() as usize),
        payload@.len() != decode_as.width() ==> r == Err::<usize, DecodeError>(
            DecodeError::WrongLength { decode_as, expected: decode_as.width() as usize, got: payload@.len() as usize },
        ),
{
    let expected = numeric_width(decode_as);
    if payload.len() != expected {
        return Err(DecodeError::WrongLength { decode_as, expected, got: payload.len() });
    }
    Ok(expected)
}

/// The little-endian value of at most 16 bytes.
fn le_u128(payload: &[u8]) -> (r: u128)
    requires
        payload@.len() <= 16,
    ensures
        r == le_value(payload@),
{
    let mut v: u128 = 0;
    let mut i = payload.len();
    proof {
        assert(payload@.skip(payload@.len() as int) == Seq::<u8>::empty());
        lemma_pow256_values();
    }
    while i > 0
        invariant
            i <= payload@.len() <= 16,
            v == le_value(payload@.skip(i as int)),
            pow256(16) == 0x1_0000_0000_0000_0000_0000_0000_0000_0000,
        decreases i,
    {
        i -= 1;
        proof {
            lemma_le_value_step(payload@, i as int);
            lemma_le_value_bound(payload@.skip(i as int));
            lemma_pow256_mono((payload@.len() - i) as nat, 16);
        }
        v = v * 256 + payload[i] as u128;
    }
    assert(payload@.skip(0) == payload@);
    v
}

/// The powers of 256 used by the fixed widths.
pub proof fn lemma_pow256_values()
    ensures
        pow256(1) == 0x100,
        pow256(2) == 0x1_0000,
        pow256(4) == 0x1_0000_0000,
        pow256(8) == 0x1_0000_0000_0000_0000,
        pow256(16) == 0x1_0000_0000_0000_0000_0000_0000_0000_0000,
{
    reveal_with_fuel(pow256, 17);
}

proof fn lemma_pow256_mono(a: nat, b: nat)
    requires
        a <= b,
    ensures
        pow256(a) <= pow256(b),
    decreases b,
{
    if a < b {
        lemma_pow256_mono(a, (b - 1) as nat);
    }
}

/// Decode an unsigned little-endian integer of the type's exact width.
pub fn decode_uint(decode_as: DecodeAs, payload: &[u8]) -> (r: Result<u128, DecodeError>)
    requires
        decode_as.is_numeric(),
    ensures
        payload@.len() == decode_as.width() ==> r == Ok::<u128, DecodeError>(le_value(payload@) as u128),
        payload@.len() != decode_as.width() ==> r == Err::<u128, DecodeError>(
            DecodeError::WrongLength { decode_as, expected: decode_as.width() as usize, got: payload@.len() as usize },
        ),
{
    require_width(decode_as, payload)?;
    Ok(le_u128(payload))
}

/// Decode a two's-complement little-endian integer of the type's exact width,
/// sign-extended to `i128`.
pub fn decode_int(decode_as: DecodeAs, payload: &[u8]) -> (r: Result<i128, DecodeError>)
    requires
        decode_as.is_numeric(),
    ensures
        payload@.len() == decode_as.width() ==> r == Ok::<i128, DecodeError>(signed_le_value(payload@) as i128),
        payload@.len() != decode_as.width() ==> r == Err::<i128, DecodeError>(
            DecodeError::WrongLength { decode_as, expected: decode_as.width() as usize, got: payload@.len() as usize },
        ),
{
    let width = require_width(decode_as, payload)?;
    let u = le_u128(payload);
    proof {
        lemma_le_value_bound(payload@);
        lemma_pow256_values();
    }
    if payload[width - 1] < 0x80 {
        proof {
            // the top byte is below 0x80, so the value is below half the range
            lemma_le_value_top(payload@);
        }
        return Ok(u as i128);
    }
    proof {
        lemma_le_value_top(payload@);
    }
    if width == 16 {
        Ok(((u - 0x8000_0000_0000_0000_0000_0000_0000_0000) as i128) + i128::MIN)
    } else {
        let span: u128 = if width == 1 {
            0x100
        } else if width == 2 {
            0x1_0000
        } else if width == 4 {
            0x1_0000_0000
        } else {
            0x1_0000_0000_0000_0000
        };
        Ok((u as i128) - (span as i128))
    }
}

/// The top byte decides whether the value lies in the upper half of its range.
pub proof fn lemma_le_value_top(s: Seq<u8>)
    requires
        s.len() > 0,
    ensures
        s[s.len() - 1] < 0x80 ==> le_value(s) * 2 < pow256(s.len()),
        s[s.len() - 1] >= 0x80 ==> le_value(s) * 2 >= pow256(s.len()),
    decreases s.len(),
{
    if s.len() == 1 {
        assert(s.drop_first() == Seq::<u8>::empty());
        assert(le_value(s.drop_first()) == 0);
        assert(le_value(s) == s[0] as nat);
        assert(pow256(1) == 256) by {
            reveal_with_fuel(pow256, 2);
        }
    } else {
        let t = s.drop_first();
        assert(t[t.len() - 1] == s[s.len() - 1]);
        lemma_le_value_top(t);
        lemma_le_value_bound(t);
        let r = le_value(t);
        let q = pow256(t.len());
        assert(pow256(s.len()) == 256 * q);
        if s[s.len() - 1] < 0x80 {
            assert(q == 256 * pow256((t.len() - 1) as nat));
            assert((s[0] as nat + 256 * r) * 2 < 256 * q) by (nonlinear_arith)
                requires r * 2 < q, s[0] < 256, q % 2 == 0;
        } else {
            assert((s[0] as nat + 256 * r) * 2 >= 256 * q) by (nonlinear_arith)
                requires r * 2 >= q;
        }
    }
}

/// Decode a payload as its declared `decode_as`.
///
/// Errors when the payload is the wrong width for a numeric type or is invalid
/// in its text encoding: exactly the deliberately-invalid cases the corpus
/// stores as `decode-as: bytes` with an `invalid-as` token.
pub fn decode_native(decode_as: DecodeAs, payload: &[u8]) -> (r: Result<Native, DecodeError>)
    ensures
        r is Ok <==> spec_decode(decode_as, payload@) is Ok,
        r matches Ok(n) ==> spec_decode(decode_as, payload@) == Ok::<NativeView, DecodeError>(n@),
        r matches Err(e) ==> spec_decode(decode_as, payload@) == Err::<NativeView, DecodeError>(e),
{
    match decode_as {
        DecodeAs::U8 | DecodeAs::U16Le | DecodeAs::U32Le | DecodeAs::U64Le | DecodeAs::U128Le => {
            Ok(Native::U128(decode_uint(decode_as, payload)?))
        },
        DecodeAs::I8 | DecodeAs::I16Le | DecodeAs::I32Le | DecodeAs::I64Le | DecodeAs::I128Le => {
            Ok(Native::I128(decode_int(decode_as, payload)?))
        },
        DecodeAs::F16Le => {
            let bits = decode_uint(decode_as, payload)?;
            proof {
                lemma_le_value_bound(payload@);
                lemma_pow256_values();
            }
            Ok(Native::F64Bits(f32_bits_to_f64_bits(f16_bits_to_f32_bits(bits as u16))))
        },
        DecodeAs::F32Le => {
            let bits = decode_uint(decode_as, payload)?;
            proof {
                lemma_le_value_bound(payload@);
                lemma_pow256_values();
            }
            Ok(Native::F64Bits(f32_bits_to_f64_bits(bits as u32)))
        },
        DecodeAs::F64Le => {
            let bits = decode_uint(decode_as, payload)?;
            proof {
                lemma_le_value_bound(payload@);
                lemma_pow256_values();
            }
            Ok(Native::F64Bits(bits as u64))
        },
        DecodeAs::Bool => {
            let mut any = false;
            let mut i: usize = 0;
            while i < payload.len()
                invariant
                    i <= payload@.len(),
                    any == (exists|j: int| 0 <= j < i && #[trigger] payload@[j] != 0),
                decreases payload@.len() - i,
            {
                if payload[i] != 0 {
                    any = true;
                }
                i += 1;
            }
            Ok(Native::Bool(any))
        },
        DecodeAs::Bytes => Ok(Native::Bytes(vstd::slice::slice_to_vec(payload))),
        _ => match decode_text(decode_as, payload) {
            Ok(s) => Ok(Native::Text(s)),
            Err(detail) => Err(DecodeError::InvalidText { decode_as, detail }),
        },
    }
}

} // verus!
