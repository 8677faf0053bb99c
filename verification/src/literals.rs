//! Rust source text for corpus selections: each selected input rendered as
//! a literal (a number, a string, a byte array or a whole
//! [`crate::static_data::StaticExample`]), the selection as a slice
//! expression. This is the text compile-time fixtures are made of.

use vstd::prelude::*;

use crate::corpus::{Corpus, Input, views};
use crate::codec::{decode_text, spec_decode_text};
use crate::decode_as::DecodeAs;
use crate::error::DecodeError;
use crate::float::{f16_bits_to_f32_bits, spec_f16_to_f32};
use crate::native::{decode_int, decode_uint, le_value, signed_le_value, lemma_le_value_bound, lemma_pow256_values, any_nonzero};
use crate::query::passes;
use crate::target::{F32Bits, F64Bits, Target};
use crate::text::{chars_of, push_chars};

verus! {

// --- characters and numbers --------------------------------------------------

/// The lower-case hexadecimal digit of a value below 16.
pub open spec fn hex_char(d: nat) -> char {
    if d == 0 { '0' }
    else if d == 1 { '1' }
    else if d == 2 { '2' }
    else if d == 3 { '3' }
    else if d == 4 { '4' }
    else if d == 5 { '5' }
    else if d == 6 { '6' }
    else if d == 7 { '7' }
    else if d == 8 { '8' }
    else if d == 9 { '9' }
    else if d == 10 { 'a' }
    else if d == 11 { 'b' }
    else if d == 12 { 'c' }
    else if d == 13 { 'd' }
    else if d == 14 { 'e' }
    else { 'f' }
}

/// The decimal digits of `n`, most significant first, without leading zeros.
pub open spec fn decimal(n: nat) -> Seq<char>
    decreases n,
{
    if n < 10 {
        seq![hex_char(n)]
    } else {
        decimal(n / 10).push(hex_char(n % 10))
    }
}

/// `v` in decimal, with a leading `-` when negative.
pub open spec fn signed_decimal(v: int) -> Seq<char> {
    if v < 0 {
        seq!['-'] + decimal((-v) as nat)
    } else {
        decimal(v as nat)
    }
}

/// The last `width` hexadecimal digits of `n`, zero-padded.
pub open spec fn hex_fixed(n: nat, width: nat) -> Seq<char>
    decreases width,
{
    if width == 0 {
        Seq::empty()
    } else {
        hex_fixed(n / 16, (width - 1) as nat).push(hex_char(n % 16))
    }
}

fn digit(d: u128) -> (r: char)
    requires
        d < 16,
    ensures
        r == hex_char(d as nat),
{
    if d == 0 { '0' }
    else if d == 1 { '1' }
    else if d == 2 { '2' }
    else if d == 3 { '3' }
    else if d == 4 { '4' }
    else if d == 5 { '5' }
    else if d == 6 { '6' }
    else if d == 7 { '7' }
    else if d == 8 { '8' }
    else if d == 9 { '9' }
    else if d == 10 { 'a' }
    else if d == 11 { 'b' }
    else if d == 12 { 'c' }
    else if d == 13 { 'd' }
    else if d == 14 { 'e' }
    else { 'f' }
}

/// Appends `n` in decimal.
pub(crate) fn push_decimal(s: &mut String, n: u128)
    ensures
        final(s)@ == old(s)@ + decimal(n as nat),
    decreases n,
{
    if n >= 10 {
        push_decimal(s, n / 10);
    }
    s.push(digit(n % 10));
    proof {
        if n < 10 {
            assert(decimal(n as nat) == seq![hex_char(n as nat)]);
        }
    }
}

/// Appends the last `width` hexadecimal digits of `n`.
pub(crate) fn push_hex(s: &mut String, n: u128, width: u8)
    ensures
        final(s)@ == old(s)@ + hex_fixed(n as nat, width as nat),
    decreases width,
{
    if width > 0 {
        push_hex(s, n / 16, width - 1);
        s.push(digit(n % 16));
    } else {
        assert(hex_fixed(n as nat, 0) =~= Seq::<char>::empty());
    }
}

/// Appends `v` in decimal, with a leading `-` when negative.
fn push_signed_decimal(s: &mut String, v: i128)
    ensures
        final(s)@ == old(s)@ + signed_decimal(v as int),
{
    if v < 0 {
        s.push('-');
        let magnitude: u128 = ((-(v + 1)) as u128) + 1;
        push_decimal(s, magnitude);
    } else {
        push_decimal(s, v as u128);
    }
}

/// Appends a string slice.
pub(crate) fn push_str(s: &mut String, t: &str)
    ensures
        final(s)@ == old(s)@ + t@,
{
    let cs = chars_of(t);
    push_chars(s, cs.as_slice());
}

/// Name for Rust's `Debug` rendering of a string: a double-quoted string
/// literal with quotes, backslashes and non-printable characters escaped.
pub uninterp spec fn debug_quoted(s: Seq<char>) -> Seq<char>;

/// `format!("{s:?}")`: the string as a quoted Rust string literal. The
/// escaping rules are std's and are named here rather than restated.
#[verifier::external_body]
pub(crate) fn quoted(s: &str) -> (r: String)
    ensures
        r@ == debug_quoted(s@),
{
    format!("{s:?}")
}

// --- literals of values --------------------------------------------------------

/// A target type compile-time literals can be rendered for.
#[derive(Debug, Clone, Copy, PartialEq, Eq, Structural)]
pub enum StaticTarget {
    U8,
    U16,
    U32,
    U64,
    U128,
    I8,
    I16,
    I32,
    I64,
    I128,
    F32,
    F64,
    Bool,
    /// `String`: every text encoding.
    Text,
    /// `Vec<u8>`: every payload.
    Bytes,
}

impl StaticTarget {
    /// The target's spelling in source text.
    pub open spec fn spelling(self) -> Seq<char> {
        match self {
            StaticTarget::U8 => "u8"@,
            StaticTarget::U16 => "u16"@,
            StaticTarget::U32 => "u32"@,
            StaticTarget::U64 => "u64"@,
            StaticTarget::U128 => "u128"@,
            StaticTarget::I8 => "i8"@,
            StaticTarget::I16 => "i16"@,
            StaticTarget::I32 => "i32"@,
            StaticTarget::I64 => "i64"@,
            StaticTarget::I128 => "i128"@,
            StaticTarget::F32 => "f32"@,
            StaticTarget::F64 => "f64"@,
            StaticTarget::Bool => "bool"@,
            StaticTarget::Text => "String"@,
            StaticTarget::Bytes => "Vec<u8>"@,
        }
    }

    /// The type of a literal of this target.
    pub open spec fn spec_value_type(self) -> Seq<char> {
        match self {
            StaticTarget::Text => "&'static str"@,
            StaticTarget::Bytes => "&'static [u8]"@,
            _ => self.spelling(),
        }
    }

    /// Whether an input with this `decode-as` belongs to the target's
    /// selection: the lattice of the matching [`Target`] type.
    pub open spec fn spec_accepts(self, src: DecodeAs, promote: bool) -> bool {
        match self {
            StaticTarget::U8 => <u8 as Target>::spec_accepts(src, promote),
            StaticTarget::U16 => <u16 as Target>::spec_accepts(src, promote),
            StaticTarget::U32 => <u32 as Target>::spec_accepts(src, promote),
            StaticTarget::U64 => <u64 as Target>::spec_accepts(src, promote),
            StaticTarget::U128 => <u128 as Target>::spec_accepts(src, promote),
            StaticTarget::I8 => <i8 as Target>::spec_accepts(src, promote),
            StaticTarget::I16 => <i16 as Target>::spec_accepts(src, promote),
            StaticTarget::I32 => <i32 as Target>::spec_accepts(src, promote),
            StaticTarget::I64 => <i64 as Target>::spec_accepts(src, promote),
            StaticTarget::I128 => <i128 as Target>::spec_accepts(src, promote),
            StaticTarget::F32 => <F32Bits as Target>::spec_accepts(src, promote),
            StaticTarget::F64 => <F64Bits as Target>::spec_accepts(src, promote),
            StaticTarget::Bool => <bool as Target>::spec_accepts(src, promote),
            StaticTarget::Text => <String as Target>::spec_accepts(src, promote),
            StaticTarget::Bytes => <Vec<u8> as Target>::spec_accepts(src, promote),
        }
    }

    /// Parses a target's spelling (`u8`..`i128`, `f32`, `f64`, `bool`,
    /// `String`, `Vec<u8>`); `None` for anything else.
    pub fn parse(s: &str) -> (r: Option<StaticTarget>)
        ensures
            forall|t: StaticTarget| r == Some(t) <==> t.spelling() == s@,
    {
        let all = [
            StaticTarget::U8, StaticTarget::U16, StaticTarget::U32, StaticTarget::U64, StaticTarget::U128,
            StaticTarget::I8, StaticTarget::I16, StaticTarget::I32, StaticTarget::I64, StaticTarget::I128,
            StaticTarget::F32, StaticTarget::F64, StaticTarget::Bool, StaticTarget::Text, StaticTarget::Bytes,
        ];
        let mut i: usize = 0;
        while i < 15
            invariant
                i <= 15,
                all@ == seq![
                    StaticTarget::U8, StaticTarget::U16, StaticTarget::U32, StaticTarget::U64, StaticTarget::U128,
                    StaticTarget::I8, StaticTarget::I16, StaticTarget::I32, StaticTarget::I64, StaticTarget::I128,
                    StaticTarget::F32, StaticTarget::F64, StaticTarget::Bool, StaticTarget::Text, StaticTarget::Bytes,
                ],
                forall|j: int| 0 <= j < i ==> (#[trigger] all@[j]).spelling() != s@,
            decreases 15 - i,
        {
            let t = all[i];
            if crate::text::same_text(t.spelling_str(), s) {
                proof {
                    lemma_spellings_distinct();
                }
                return Some(t);
            }
            i += 1;
        }
        proof {
            assert forall|t: StaticTarget| t.spelling() != s@ by {
                let k: int = match t {
                    StaticTarget::U8 => 0,
                    StaticTarget::U16 => 1,
                    StaticTarget::U32 => 2,
                    StaticTarget::U64 => 3,
                    StaticTarget::U128 => 4,
                    StaticTarget::I8 => 5,
                    StaticTarget::I16 => 6,
                    StaticTarget::I32 => 7,
                    StaticTarget::I64 => 8,
                    StaticTarget::I128 => 9,
                    StaticTarget::F32 => 10,
                    StaticTarget::F64 => 11,
                    StaticTarget::Bool => 12,
                    StaticTarget::Text => 13,
                    StaticTarget::Bytes => 14,
                };
                assert(all@[k] == t);
            }
        }
        None
    }

    /// The target's spelling in source text.
    pub fn spelling_str(self) -> (r: &'static str)
        ensures
            r@ == self.spelling(),
    {
        match self {
            StaticTarget::U8 => "u8",
            StaticTarget::U16 => "u16",
            StaticTarget::U32 => "u32",
            StaticTarget::U64 => "u64",
            StaticTarget::U128 => "u128",
            StaticTarget::I8 => "i8",
            StaticTarget::I16 => "i16",
            StaticTarget::I32 => "i32",
            StaticTarget::I64 => "i64",
            StaticTarget::I128 => "i128",
            StaticTarget::F32 => "f32",
            StaticTarget::F64 => "f64",
            StaticTarget::Bool => "bool",
            StaticTarget::Text => "String",
            StaticTarget::Bytes => "Vec<u8>",
        }
    }

    /// The type of a literal of this target.
    pub fn value_type(self) -> (r: &'static str)
        ensures
            r@ == self.spec_value_type(),
    {
        match self {
            StaticTarget::Text => "&'static str",
            StaticTarget::Bytes => "&'static [u8]",
            _ => self.spelling_str(),
        }
    }

    /// Whether an input with this `decode-as` belongs to the target's
    /// selection.
    pub fn accepts(self, src: DecodeAs, promote: bool) -> (r: bool)
        ensures
            r == self.spec_accepts(src, promote),
    {
        match self {
            StaticTarget::U8 => <u8 as Target>::accepts(src, promote),
            StaticTarget::U16 => <u16 as Target>::accepts(src, promote),
            StaticTarget::U32 => <u32 as Target>::accepts(src, promote),
            StaticTarget::U64 => <u64 as Target>::accepts(src, promote),
            StaticTarget::U128 => <u128 as Target>::accepts(src, promote),
            StaticTarget::I8 => <i8 as Target>::accepts(src, promote),
            StaticTarget::I16 => <i16 as Target>::accepts(src, promote),
            StaticTarget::I32 => <i32 as Target>::accepts(src, promote),
            StaticTarget::I64 => <i64 as Target>::accepts(src, promote),
            StaticTarget::I128 => <i128 as Target>::accepts(src, promote),
            StaticTarget::F32 => <F32Bits as Target>::accepts(src, promote),
            StaticTarget::F64 => <F64Bits as Target>::accepts(src, promote),
            StaticTarget::Bool => <bool as Target>::accepts(src, promote),
            StaticTarget::Text => <String as Target>::accepts(src, promote),
            StaticTarget::Bytes => <Vec<u8> as Target>::accepts(src, promote),
        }
    }
}

/// Distinct targets are spelled differently.
proof fn lemma_spellings_distinct()
    ensures
        forall|a: StaticTarget, b: StaticTarget| a.spelling() == b.spelling() ==> a == b,
{
    reveal_strlit("u8");
    reveal_strlit("u16");
    reveal_strlit("u32");
    reveal_strlit("u64");
    reveal_strlit("u128");
    reveal_strlit("i8");
    reveal_strlit("i16");
    reveal_strlit("i32");
    reveal_strlit("i64");
    reveal_strlit("i128");
    reveal_strlit("f32");
    reveal_strlit("f64");
    reveal_strlit("bool");
    reveal_strlit("String");
    reveal_strlit("Vec<u8>");
    assert forall|a: StaticTarget, b: StaticTarget| a.spelling() == b.spelling() implies a == b by {
        let x = a.spelling();
        let y = b.spelling();
        assert(x.len() == y.len());
        if x.len() > 0 {
            assert(x[0] == y[0]);
        }
        if x.len() > 1 {
            assert(x[1] == y[1]);
        }
        if x.len() > 2 {
            assert(x[2] == y[2]);
        }
        if x.len() > 3 {
            assert(x[3] == y[3]);
        }
    }
}

/// The source path of a `decode-as` variant.
pub open spec fn decode_as_path(d: DecodeAs) -> Seq<char> {
    match d {
        DecodeAs::U8 => "::trickydata::DecodeAs::U8"@,
        DecodeAs::U16Le => "::trickydata::DecodeAs::U16Le"@,
        DecodeAs::U32Le => "::trickydata::DecodeAs::U32Le"@,
        DecodeAs::U64Le => "::trickydata::DecodeAs::U64Le"@,
        DecodeAs::U128Le => "::trickydata::DecodeAs::U128Le"@,
        DecodeAs::I8 => "::trickydata::DecodeAs::I8"@,
        DecodeAs::I16Le => "::trickydata::DecodeAs::I16Le"@,
        DecodeAs::I32Le => "::trickydata::DecodeAs::I32Le"@,
        DecodeAs::I64Le => "::trickydata::DecodeAs::I64Le"@,
        DecodeAs::I128Le => "::trickydata::DecodeAs::I128Le"@,
        DecodeAs::F16Le => "::trickydata::DecodeAs::F16Le"@,
        DecodeAs::F32Le => "::trickydata::DecodeAs::F32Le"@,
        DecodeAs::F64Le => "::trickydata::DecodeAs::F64Le"@,
        DecodeAs::Bool => "::trickydata::DecodeAs::Bool"@,
        DecodeAs::Bytes => "::trickydata::DecodeAs::Bytes"@,
        DecodeAs::Ascii => "::trickydata::DecodeAs::Ascii"@,
        DecodeAs::Utf8 => "::trickydata::DecodeAs::Utf8"@,
        DecodeAs::Utf16Le => "::trickydata::DecodeAs::Utf16Le"@,
        DecodeAs::Utf32Le => "::trickydata::DecodeAs::Utf32Le"@,
        DecodeAs::Latin1 => "::trickydata::DecodeAs::Latin1"@,
    }
}

impl DecodeAs {
    /// The source path of this variant, e.g. `::trickydata::DecodeAs::U8`.
    pub fn rust(self) -> (r: &'static str)
        ensures
            r@ == decode_as_path(self),
    {
        match self {
            DecodeAs::U8 => "::trickydata::DecodeAs::U8",
            DecodeAs::U16Le => "::trickydata::DecodeAs::U16Le",
            DecodeAs::U32Le => "::trickydata::DecodeAs::U32Le",
            DecodeAs::U64Le => "::trickydata::DecodeAs::U64Le",
            DecodeAs::U128Le => "::trickydata::DecodeAs::U128Le",
            DecodeAs::I8 => "::trickydata::DecodeAs::I8",
            DecodeAs::I16Le => "::trickydata::DecodeAs::I16Le",
            DecodeAs::I32Le => "::trickydata::DecodeAs::I32Le",
            DecodeAs::I64Le => "::trickydata::DecodeAs::I64Le",
            DecodeAs::I128Le => "::trickydata::DecodeAs::I128Le",
            DecodeAs::F16Le => "::trickydata::DecodeAs::F16Le",
            DecodeAs::F32Le => "::trickydata::DecodeAs::F32Le",
            DecodeAs::F64Le => "::trickydata::DecodeAs::F64Le",
            DecodeAs::Bool => "::trickydata::DecodeAs::Bool",
            DecodeAs::Bytes => "::trickydata::DecodeAs::Bytes",
            DecodeAs::Ascii => "::trickydata::DecodeAs::Ascii",
            DecodeAs::Utf8 => "::trickydata::DecodeAs::Utf8",
            DecodeAs::Utf16Le => "::trickydata::DecodeAs::Utf16Le",
            DecodeAs::Utf32Le => "::trickydata::DecodeAs::Utf32Le",
            DecodeAs::Latin1 => "::trickydata::DecodeAs::Latin1",
        }
    }
}

/// Items separated by `sep`.
pub open spec fn joined(items: Seq<Seq<char>>, sep: Seq<char>) -> Seq<char>
    decreases items.len(),
{
    if items.len() == 0 {
        Seq::empty()
    } else if items.len() == 1 {
        items[0]
    } else {
        joined(items.drop_last(), sep) + sep + items.last()
    }
}

/// One byte as a literal, e.g. `0x2au8`.
pub open spec fn byte_lit(b: u8) -> Seq<char> {
    "0x"@ + hex_fixed(b as nat, 2) + "u8"@
}

/// The byte literals of a payload.
pub open spec fn byte_lits(p: Seq<u8>) -> Seq<Seq<char>> {
    p.map_values(|b: u8| byte_lit(b))
}

/// A payload as a byte-slice expression.
pub open spec fn bytes_lit(p: Seq<u8>) -> Seq<char> {
    "&["@ + joined(byte_lits(p), ", "@) + "] as &'static [u8]"@
}

/// Appends a payload as a byte-slice expression.
fn push_bytes_lit(s: &mut String, p: &[u8])
    ensures
        final(s)@ == old(s)@ + bytes_lit(p@),
{
    push_str(s, "&[");
    let ghost start = s@;
    let mut i: usize = 0;
    while i < p.len()
        invariant
            i <= p@.len(),
            s@ == start + joined(byte_lits(p@.take(i as int)), ", "@),
        decreases p@.len() - i,
    {
        let ghost before = s@;
        if i > 0 {
            push_str(s, ", ");
        }
        push_str(s, "0x");
        push_hex(s, p[i] as u128, 2);
        push_str(s, "u8");
        proof {
            let t = byte_lits(p@.take(i + 1));
            assert(t.drop_last() =~= byte_lits(p@.take(i as int)));
            assert(t.last() == byte_lit(p@[i as int]));
            if i == 0 {
                assert(t.len() == 1);
                assert(joined(byte_lits(p@.take(0)), ", "@) =~= Seq::<char>::empty());
                assert(s@ =~= start + joined(t, ", "@));
            } else {
                assert(s@ =~= start + joined(t, ", "@));
            }
        }
        i += 1;
    }
    assert(p@.take(p@.len() as int) =~= p@);
    push_str(s, "] as &'static [u8]");
}


/// The least value of a signed target's type.
pub open spec fn int_min_of(t: StaticTarget) -> int {
    match t {
        StaticTarget::I8 => i8::MIN as int,
        StaticTarget::I16 => i16::MIN as int,
        StaticTarget::I32 => i32::MIN as int,
        StaticTarget::I64 => i64::MIN as int,
        _ => i128::MIN as int,
    }
}

/// A signed value as a literal of its target type; the least value is
/// written as the type's `MIN`.
pub open spec fn int_lit(v: int, t: StaticTarget) -> Seq<char> {
    if v == int_min_of(t) {
        t.spec_value_type() + "::MIN"@
    } else {
        signed_decimal(v) + t.spec_value_type()
    }
}

/// Why a selection could not be rendered.
#[derive(Debug, Clone, PartialEq, Eq)]
pub enum StaticError {
    /// A selected input's payload did not decode.
    Decode(DecodeError),
    /// A float input that cannot be written as this float target.
    CannotEmit { decode_as: DecodeAs, target: StaticTarget },
}

/// The wrong-width error for a numeric payload.
pub open spec fn width_error(d: DecodeAs, p: Seq<u8>) -> StaticError {
    StaticError::Decode(DecodeError::WrongLength { decode_as: d, expected: d.width() as usize, got: p.len() as usize })
}

/// A float payload as a float literal of the target: binary16 and binary32
/// through `f32::from_bits` (cast to `f64` for the `f64` target), binary64
/// through `f64::from_bits`.
pub open spec fn float_lit(t: StaticTarget, d: DecodeAs, p: Seq<u8>) -> Result<Seq<char>, StaticError> {
    let f32_bits = if d == DecodeAs::F16Le {
        spec_f16_to_f32(le_value(p) as u16) as nat
    } else {
        le_value(p)
    };
    if !((t == StaticTarget::F32 && (d == DecodeAs::F16Le || d == DecodeAs::F32Le)) || (t == StaticTarget::F64
        && d.is_float())) {
        Err(StaticError::CannotEmit { decode_as: d, target: t })
    } else if p.len() != d.width() {
        Err(width_error(d, p))
    } else if d == DecodeAs::F64Le {
        Ok("f64::from_bits(0x"@ + hex_fixed(le_value(p), 16) + ")"@)
    } else if t == StaticTarget::F32 {
        Ok("f32::from_bits(0x"@ + hex_fixed(f32_bits, 8) + ")"@)
    } else {
        Ok("f32::from_bits(0x"@ + hex_fixed(f32_bits, 8) + ") as f64"@)
    }
}

/// Whether the target is an unsigned integer type.
pub open spec fn is_unsigned_target(t: StaticTarget) -> bool {
    t == StaticTarget::U8 || t == StaticTarget::U16 || t == StaticTarget::U32 || t == StaticTarget::U64
        || t == StaticTarget::U128
}

/// Whether the target is a signed integer type.
pub open spec fn is_signed_target(t: StaticTarget) -> bool {
    t == StaticTarget::I8 || t == StaticTarget::I16 || t == StaticTarget::I32 || t == StaticTarget::I64
        || t == StaticTarget::I128
}

/// An input's payload as a literal of the target: a quoted string, a byte
/// slice, `true`/`false`, a float or an integer literal.
pub open spec fn value_lit(t: StaticTarget, d: DecodeAs, p: Seq<u8>) -> Result<Seq<char>, StaticError> {
    if t == StaticTarget::Text {
        match spec_decode_text(d, p) {
            Ok(s) => Ok(debug_quoted(s)),
            Err(f) => Err(StaticError::Decode(DecodeError::InvalidText { decode_as: d, detail: f })),
        }
    } else if t == StaticTarget::Bytes {
        Ok(bytes_lit(p))
    } else if t == StaticTarget::Bool {
        Ok(if any_nonzero(p) { "true"@ } else { "false"@ })
    } else if t == StaticTarget::F32 || t == StaticTarget::F64 {
        float_lit(t, d, p)
    } else if p.len() != d.width() {
        Err(width_error(d, p))
    } else if is_unsigned_target(t) {
        Ok(decimal(le_value(p)) + t.spec_value_type())
    } else if d.is_unsigned() {
        Ok(int_lit(le_value(p) as int, t))
    } else {
        Ok(int_lit(signed_le_value(p), t))
    }
}

/// Appends a signed value as a literal of its target type.
fn push_int_lit(s: &mut String, v: i128, t: StaticTarget)
    requires
        is_signed_target(t),
    ensures
        final(s)@ == old(s)@ + int_lit(v as int, t),
{
    let min: i128 = match t {
        StaticTarget::I8 => -128,
        StaticTarget::I16 => -32768,
        StaticTarget::I32 => -2147483648,
        StaticTarget::I64 => -9223372036854775808,
        _ => i128::MIN,
    };
    if v == min {
        push_str(s, t.value_type());
        push_str(s, "::MIN");
    } else {
        push_signed_decimal(s, v);
        push_str(s, t.value_type());
    }
    proof {
        assert(old(s)@ + t.spec_value_type() + "::MIN"@ =~= old(s)@ + (t.spec_value_type() + "::MIN"@));
        assert(old(s)@ + signed_decimal(v as int) + t.spec_value_type() =~= old(s)@ + (signed_decimal(v as int) + t.spec_value_type()));
    }
}

/// Appends a float payload as a float literal of the target.
fn push_float_lit(s: &mut String, t: StaticTarget, d: DecodeAs, p: &[u8]) -> (r: Result<(), StaticError>)
    ensures
        match float_lit(t, d, p@) {
            Ok(x) => r is Ok && final(s)@ == old(s)@ + x,
            Err(e) => r == Err::<(), StaticError>(e),
        },
{
    let ok = match t {
        StaticTarget::F32 => d == DecodeAs::F16Le || d == DecodeAs::F32Le,
        StaticTarget::F64 => d == DecodeAs::F16Le || d == DecodeAs::F32Le || d == DecodeAs::F64Le,
        _ => false,
    };
    if !ok {
        return Err(StaticError::CannotEmit { decode_as: d, target: t });
    }
    let bits = match decode_uint(d, p) {
        Ok(b) => b,
        Err(e) => {
            return Err(StaticError::Decode(e));
        },
    };
    proof {
        lemma_le_value_bound(p@);
        lemma_pow256_values();
    }
    let ghost before = s@;
    if d == DecodeAs::F64Le {
        push_str(s, "f64::from_bits(0x");
        push_hex(s, bits, 16);
        push_str(s, ")");
        assert(s@ =~= before + ("f64::from_bits(0x"@ + hex_fixed(le_value(p@), 16) + ")"@));
    } else {
        let f32_bits: u32 = if d == DecodeAs::F16Le {
            f16_bits_to_f32_bits(bits as u16)
        } else {
            bits as u32
        };
        push_str(s, "f32::from_bits(0x");
        push_hex(s, f32_bits as u128, 8);
        if t == StaticTarget::F32 {
            push_str(s, ")");
            assert(s@ =~= before + ("f32::from_bits(0x"@ + hex_fixed(f32_bits as nat, 8) + ")"@));
        } else {
            push_str(s, ") as f64");
            assert(s@ =~= before + ("f32::from_bits(0x"@ + hex_fixed(f32_bits as nat, 8) + ") as f64"@));
        }
    }
    Ok(())
}

/// Appends an input's payload as a literal of the target.
fn push_value_lit(s: &mut String, t: StaticTarget, d: DecodeAs, p: &[u8]) -> (r: Result<(), StaticError>)
    requires
        t.spec_accepts(d, true),
    ensures
        match value_lit(t, d, p@) {
            Ok(x) => r is Ok && final(s)@ == old(s)@ + x,
            Err(e) => r == Err::<(), StaticError>(e),
        },
{
    match t {
        StaticTarget::Text => {
            match decode_text(d, p) {
                Ok(text) => {
                    let q = quoted(text.as_str());
                    push_str(s, q.as_str());
                    Ok(())
                },
                Err(f) => Err(StaticError::Decode(DecodeError::InvalidText { decode_as: d, detail: f })),
            }
        },
        StaticTarget::Bytes => {
            push_bytes_lit(s, p);
            Ok(())
        },
        StaticTarget::Bool => {
            let mut any = false;
            let mut i: usize = 0;
            while i < p.len()
                invariant
                    i <= p@.len(),
                    any == (exists|j: int| 0 <= j < i && #[trigger] p@[j] != 0),
                decreases p@.len() - i,
            {
                if p[i] != 0 {
                    any = true;
                }
                i += 1;
            }
            if any {
                push_str(s, "true");
            } else {
                push_str(s, "false");
            }
            assert(any == any_nonzero(p@));
            Ok(())
        },
        StaticTarget::F32 | StaticTarget::F64 => push_float_lit(s, t, d, p),
        StaticTarget::U8 | StaticTarget::U16 | StaticTarget::U32 | StaticTarget::U64 | StaticTarget::U128 => {
            match decode_uint(d, p) {
                Ok(v) => {
                    proof {
                        lemma_le_value_bound(p@);
                        lemma_pow256_values();
                    }
                    let ghost before = s@;
                    push_decimal(s, v);
                    push_str(s, t.value_type());
                    assert(s@ =~= before + (decimal(le_value(p@)) + t.spec_value_type()));
                    Ok(())
                },
                Err(e) => Err(StaticError::Decode(e)),
            }
        },
        _ => {
            if d.is_unsigned_token() {
                match decode_uint(d, p) {
                    Ok(v) => {
                        proof {
                            lemma_le_value_bound(p@);
                            lemma_pow256_values();
                            assert(d.width() <= 8);
                            assert(v < 0x1_0000_0000_0000_0000);
                        }
                        push_int_lit(s, v as i128, t);
                            Ok(())
                    },
                    Err(e) => Err(StaticError::Decode(e)),
                }
            } else {
                match decode_int(d, p) {
                    Ok(v) => {
                        proof {
                            assert(d.is_signed());
                            crate::target::lemma_decoded_int_range(d, p@);
                            lemma_pow256_values();
                        }
                        push_int_lit(s, v, t);
                            Ok(())
                    },
                    Err(e) => Err(StaticError::Decode(e)),
                }
            }
        },
    }
}

impl DecodeAs {
    /// True for the unsigned integer tokens.
    pub fn is_unsigned_token(self) -> (r: bool)
        ensures
            r == self.is_unsigned(),
    {
        matches!(self, DecodeAs::U8 | DecodeAs::U16Le | DecodeAs::U32Le | DecodeAs::U64Le | DecodeAs::U128Le)
    }
}


// --- selections ----------------------------------------------------------------

/// The options of a compile-time selection.
pub struct StaticArgs {
    /// Required tags (all of them).
    pub tags: Vec<String>,
    /// Excluded tags (any of them).
    pub exclude_tags: Vec<String>,
    /// An explicit list of input names; empty selects every name.
    pub names: Vec<String>,
    pub promote: bool,
    pub include_invalid: bool,
}

/// How an input joins a selection.
#[derive(Debug, Clone, Copy, PartialEq, Eq, Structural)]
pub enum Selection {
    /// Its own `decode-as` is accepted: it has a value.
    Native,
    /// It is a deliberately-invalid input of the target's type: no value.
    Invalid,
}

/// The name filter of the options: none when the list is empty.
pub open spec fn name_filter(args: StaticArgs) -> Option<Seq<Seq<char>>> {
    if args.names@.len() == 0 {
        None
    } else {
        Some(views(args.names@))
    }
}

/// Whether and how an input joins a selection: it passes the name and tag
/// filters, then joins natively when the target accepts its `decode-as`,
/// or as invalid when invalid inputs are wanted and the target (without
/// promotion) accepts its would-be type.
pub open spec fn static_selection(t: StaticTarget, args: StaticArgs, x: Input) -> Option<Selection> {
    if !crate::query::passes_filters(name_filter(args), views(args.tags@), views(args.exclude_tags@), x) {
        None
    } else if t.spec_accepts(x.decode_as, args.promote) {
        Some(Selection::Native)
    } else if args.include_invalid && (x.invalid_as matches Some(ia) && t.spec_accepts(ia, false)) {
        Some(Selection::Invalid)
    } else {
        None
    }
}

/// The quoted forms of strings.
pub open spec fn quoted_all(ts: Seq<Seq<char>>) -> Seq<Seq<char>> {
    ts.map_values(|t: Seq<char>| debug_quoted(t))
}

/// An optional `decode-as` as source text.
pub open spec fn opt_path(d: Option<DecodeAs>) -> Seq<char> {
    match d {
        Some(x) => "Some("@ + decode_as_path(x) + ")"@,
        None => "None"@,
    }
}

/// An optional literal as source text.
pub open spec fn opt_lit(v: Option<Seq<char>>) -> Seq<char> {
    match v {
        Some(x) => "Some("@ + x + ")"@,
        None => "None"@,
    }
}

/// An input as a `StaticExample` expression with the given value.
pub open spec fn example_lit(t: StaticTarget, x: Input, v: Option<Seq<char>>) -> Seq<char> {
    "::trickydata::StaticExample::<"@ + t.spec_value_type() + "> { name: "@ + debug_quoted(x.name@) + ", path: "@
        + debug_quoted(x.path@) + ", description: "@ + debug_quoted(x.description@) + ", tags: &["@ + joined(
        quoted_all(views(x.tags@)),
        ", "@,
    ) + "] as &'static [&'static str], decode_as: "@ + decode_as_path(x.decode_as) + ", invalid_as: "@ + opt_path(
        x.invalid_as,
    ) + ", value: "@ + opt_lit(v) + ", raw: "@ + bytes_lit(x.payload@) + " }"@
}

/// What one input adds to the items rendered so far: nothing when it is not
/// selected, an example (without value when invalid) in the examples view, a
/// value literal when it has one; or the error of its value.
pub open spec fn render_step(t: StaticTarget, args: StaticArgs, x: Input, examples: bool, items: Seq<Seq<char>>) -> Result<Seq<Seq<char>>, StaticError> {
    match static_selection(t, args, x) {
        None => Ok(items),
        Some(Selection::Invalid) => if examples {
            Ok(items.push(example_lit(t, x, None)))
        } else {
            Ok(items)
        },
        Some(Selection::Native) => match value_lit(t, x.decode_as, x.payload@) {
            Err(e) => Err(e),
            Ok(v) => if examples {
                Ok(items.push(example_lit(t, x, Some(v))))
            } else {
                Ok(items.push(v))
            },
        },
    }
}

/// The items a selection renders, in corpus order, or the error of the
/// first input that cannot be rendered.
pub open spec fn rendered(t: StaticTarget, args: StaticArgs, inputs: Seq<Input>, examples: bool) -> Result<Seq<Seq<char>>, StaticError>
    decreases inputs.len(),
{
    if inputs.len() == 0 {
        Ok(Seq::empty())
    } else {
        match rendered(t, args, inputs.drop_last(), examples) {
            Err(e) => Err(e),
            Ok(items) => render_step(t, args, inputs.last(), examples, items),
        }
    }
}

/// The source text of a selection: a slice of value literals typed as the
/// target's literal type, or a slice of `StaticExample`s.
pub open spec fn static_source(t: StaticTarget, args: StaticArgs, inputs: Seq<Input>, examples: bool) -> Result<Seq<char>, StaticError> {
    match rendered(t, args, inputs, examples) {
        Err(e) => Err(e),
        Ok(items) => Ok(
            if examples {
                "&["@ + joined(items, ", "@) + "] as &'static [::trickydata::StaticExample<"@ + t.spec_value_type()
                    + ">]"@
            } else {
                "&["@ + joined(items, ", "@) + "] as &'static ["@ + t.spec_value_type() + "]"@
            },
        ),
    }
}

/// Whether and how an input joins a selection.
fn select_input(t: StaticTarget, args: &StaticArgs, names: &Option<Vec<String>>, x: &Input) -> (r: Option<Selection>)
    requires
        match *names {
            Some(ns) => args.names@.len() > 0 && views(ns@) == views(args.names@),
            None => args.names@.len() == 0,
        },
    ensures
        r == static_selection(t, *args, *x),
{
    if !passes(names, &args.tags, &args.exclude_tags, x) {
        return None;
    }
    if t.accepts(x.decode_as, args.promote) {
        return Some(Selection::Native);
    }
    match x.invalid_as {
        Some(ia) => {
            if args.include_invalid && t.accepts(ia, false) {
                Some(Selection::Invalid)
            } else {
                None
            }
        },
        None => None,
    }
}

/// Appends strings, each quoted, separated by `, `.
fn push_quoted_list(s: &mut String, ts: &[String])
    ensures
        final(s)@ == old(s)@ + joined(quoted_all(views(ts@)), ", "@),
{
    let ghost start = s@;
    let mut i: usize = 0;
    while i < ts.len()
        invariant
            i <= ts@.len(),
            s@ == start + joined(quoted_all(views(ts@.take(i as int))), ", "@),
        decreases ts@.len() - i,
    {
        if i > 0 {
            push_str(s, ", ");
        }
        let q = quoted(ts[i].as_str());
        push_str(s, q.as_str());
        proof {
            let u = quoted_all(views(ts@.take(i + 1)));
            assert(u.drop_last() =~= quoted_all(views(ts@.take(i as int))));
            assert(u.last() == debug_quoted(ts@[i as int]@));
            if i == 0 {
                assert(u.len() == 1);
                assert(joined(quoted_all(views(ts@.take(0))), ", "@) =~= Seq::<char>::empty());
            }
            assert(s@ =~= start + joined(u, ", "@));
        }
        i += 1;
    }
    assert(ts@.take(ts@.len() as int) =~= ts@);
}

/// An optional `decode-as` as source text.
fn opt_path_str(d: Option<DecodeAs>) -> (r: String)
    ensures
        r@ == opt_path(d),
{
    let mut r = String::new();
    match d {
        Some(x) => {
            push_str(&mut r, "Some(");
            assert(r@ =~= "Some("@);
            push_str(&mut r, x.rust());
            push_str(&mut r, ")");
        },
        None => {
            push_str(&mut r, "None");
            assert(r@ =~= "None"@);
        },
    }
    r
}

/// An optional literal as source text.
fn opt_lit_str(v: &Option<String>) -> (r: String)
    ensures
        r@ == opt_lit(
            match *v {
                Some(w) => Some(w@),
                None => None,
            },
        ),
{
    let mut r = String::new();
    match v {
        Some(w) => {
            push_str(&mut r, "Some(");
            assert(r@ =~= "Some("@);
            push_str(&mut r, w.as_str());
            push_str(&mut r, ")");
        },
        None => {
            push_str(&mut r, "None");
            assert(r@ =~= "None"@);
        },
    }
    r
}

/// An input's tags, quoted and separated by `, `.
fn quoted_list(ts: &[String]) -> (r: String)
    ensures
        r@ == joined(quoted_all(views(ts@)), ", "@),
{
    let mut r = String::new();
    push_quoted_list(&mut r, ts);
    assert(r@ =~= joined(quoted_all(views(ts@)), ", "@));
    r
}

/// A payload as a byte-slice expression.
fn bytes_lit_str(p: &[u8]) -> (r: String)
    ensures
        r@ == bytes_lit(p@),
{
    let mut r = String::new();
    push_bytes_lit(&mut r, p);
    assert(r@ =~= bytes_lit(p@));
    r
}

/// Appends an input as a `StaticExample` expression with the given value.
fn push_example_lit(s: &mut String, t: StaticTarget, x: &Input, v: Option<String>)
    ensures
        final(s)@ == old(s)@ + example_lit(
            t,
            *x,
            match v {
                Some(w) => Some(w@),
                None => None,
            },
        ),
{
    let name = quoted(x.name.as_str());
    let path = quoted(x.path.as_str());
    let description = quoted(x.description.as_str());
    let tags = quoted_list(x.tags.as_slice());
    let invalid_as = opt_path_str(x.invalid_as);
    let value = opt_lit_str(&v);
    let raw = bytes_lit_str(x.payload.as_slice());
    let mut e = String::new();
    push_str(&mut e, "::trickydata::StaticExample::<");
    assert(e@ =~= "::trickydata::StaticExample::<"@);
    push_str(&mut e, t.value_type());
    push_str(&mut e, "> { name: ");
    push_str(&mut e, name.as_str());
    push_str(&mut e, ", path: ");
    push_str(&mut e, path.as_str());
    push_str(&mut e, ", description: ");
    push_str(&mut e, description.as_str());
    push_str(&mut e, ", tags: &[");
    push_str(&mut e, tags.as_str());
    push_str(&mut e, "] as &'static [&'static str], decode_as: ");
    push_str(&mut e, x.decode_as.rust());
    push_str(&mut e, ", invalid_as: ");
    push_str(&mut e, invalid_as.as_str());
    push_str(&mut e, ", value: ");
    push_str(&mut e, value.as_str());
    push_str(&mut e, ", raw: ");
    push_str(&mut e, raw.as_str());
    push_str(&mut e, " }");
    push_str(s, e.as_str());
}

/// Once an input cannot be rendered, the selection fails with its error.
proof fn lemma_rendered_error_persists(t: StaticTarget, args: StaticArgs, s: Seq<Input>, n: int, examples: bool)
    requires
        0 <= n <= s.len(),
        rendered(t, args, s.take(n), examples) is Err,
    ensures
        rendered(t, args, s, examples) == rendered(t, args, s.take(n), examples),
    decreases s.len() - n,
{
    if n < s.len() {
        assert(s.take(n + 1).drop_last() =~= s.take(n));
        lemma_rendered_error_persists(t, args, s, n + 1, examples);
    } else {
        assert(s.take(n) =~= s);
    }
}

/// Renders one input after the items rendered so far.
fn render_one(
    out: &mut String,
    Ghost(start): Ghost<Seq<char>>,
    Ghost(items): Ghost<Seq<Seq<char>>>,
    count: usize,
    t: StaticTarget,
    args: &StaticArgs,
    names: &Option<Vec<String>>,
    x: &Input,
    examples: bool,
) -> (r: Result<usize, StaticError>)
    requires
        old(out)@ == start + joined(items, ", "@),
        count == items.len(),
        count < usize::MAX,
        match *names {
            Some(ns) => args.names@.len() > 0 && views(ns@) == views(args.names@),
            None => args.names@.len() == 0,
        },
    ensures
        match render_step(t, *args, *x, examples, items) {
            Ok(n) => r matches Ok(c) && c == n.len() && final(out)@ == start + joined(n, ", "@),
            Err(e) => r == Err::<usize, StaticError>(e),
        },
{
    let sel = match select_input(t, args, names, x) {
        None => {
            return Ok(count);
        },
        Some(sel) => sel,
    };
    let mut value: Option<String> = None;
    if sel == Selection::Native {
        let mut piece = String::new();
        match push_value_lit(&mut piece, t, x.decode_as, x.payload.as_slice()) {
            Ok(()) => {
                assert(piece@ =~= value_lit(t, x.decode_as, x.payload@)->Ok_0);
                value = Some(piece);
            },
            Err(e) => {
                return Err(e);
            },
        }
    }
    if !examples && value.is_none() {
        return Ok(count);
    }
    let ghost vv = match &value {
        Some(w) => Some(w@),
        None => None,
    };
    let ghost item = if examples {
        example_lit(t, *x, vv)
    } else {
        vv->Some_0
    };
    let ghost before = out@;
    if count > 0 {
        push_str(out, ", ");
    }
    let ghost mid = out@;
    if examples {
        push_example_lit(out, t, x, value);
    } else {
        match value {
            Some(w) => push_str(out, w.as_str()),
            None => {},
        }
    }
    proof {
        let nitems = items.push(item);
        assert(render_step(t, *args, *x, examples, items) == Ok::<Seq<Seq<char>>, StaticError>(nitems));
        assert(out@ == mid + item);
        assert(nitems.drop_last() =~= items);
        assert(nitems.last() == item);
        if count == 0 {
            assert(joined(items, ", "@) =~= Seq::<char>::empty());
            assert(out@ =~= start + joined(nitems, ", "@));
        } else {
            assert(joined(nitems, ", "@) == joined(items, ", "@) + ", "@ + item);
            assert(out@ =~= start + joined(nitems, ", "@));
        }
    }
    Ok(count + 1)
}

/// Renders the selection of `corpus` for `t` under `args`: the items in
/// corpus order, or the first input's error.
fn render(corpus: &Corpus, t: StaticTarget, args: &StaticArgs, examples: bool) -> (r: Result<String, StaticError>)
    ensures
        match static_source(t, *args, corpus.spec_inputs(), examples) {
            Ok(x) => r matches Ok(y) && y@ == x,
            Err(e) => r == Err::<String, StaticError>(e),
        },
{
    let inputs = corpus.inputs();
    let names: Option<Vec<String>> = if args.names.len() == 0 {
        None
    } else {
        Some(crate::text::clone_strings(args.names.as_slice()))
    };
    let mut out = String::new();
    push_str(&mut out, "&[");
    assert(out@ =~= "&["@);
    let ghost start = out@;
    let mut count: usize = 0;
    let mut k: usize = 0;
    assert(joined(Seq::<Seq<char>>::empty(), ", "@) =~= Seq::<char>::empty());
    assert(inputs@.take(0) =~= Seq::<Input>::empty());
    while k < inputs.len()
        invariant
            k <= inputs@.len(),
            inputs@ == corpus.spec_inputs(),
            start == "&["@,
            count <= k,
            match names {
                Some(ns) => args.names@.len() > 0 && views(ns@) == views(args.names@),
                None => args.names@.len() == 0,
            },
            rendered(t, *args, inputs@.take(k as int), examples) matches Ok(items) && items.len() == count
                && out@ == start + joined(items, ", "@),
        decreases inputs@.len() - k,
    {
        let x = &inputs[k];
        let ghost items = rendered(t, *args, inputs@.take(k as int), examples)->Ok_0;
        proof {
            assert(inputs@.take(k + 1).drop_last() =~= inputs@.take(k as int));
            assert(inputs@.take(k + 1).last() == *x);
        }
        match render_one(&mut out, Ghost(start), Ghost(items), count, t, args, &names, x, examples) {
            Ok(c) => {
                count = c;
            },
            Err(e) => {
                proof {
                    lemma_rendered_error_persists(t, *args, inputs@, k + 1, examples);
                }
                return Err(e);
            },
        }
        k += 1;
    }
    proof {
        assert(inputs@.take(inputs@.len() as int) =~= inputs@);
    }
    let ghost items = rendered(t, *args, inputs@, examples)->Ok_0;
    if examples {
        push_str(&mut out, "] as &'static [::trickydata::StaticExample<");
        push_str(&mut out, t.value_type());
        push_str(&mut out, ">]");
    } else {
        push_str(&mut out, "] as &'static [");
        push_str(&mut out, t.value_type());
        push_str(&mut out, "]");
    }
    Ok(out)
}

/// The source text of the value literals of a selection: every selected
/// input that has a value (invalid inputs have none), in corpus order.
pub fn static_values(corpus: &Corpus, t: StaticTarget, args: &StaticArgs) -> (r: Result<String, StaticError>)
    ensures
        match static_source(t, *args, corpus.spec_inputs(), false) {
            Ok(x) => r matches Ok(y) && y@ == x,
            Err(e) => r == Err::<String, StaticError>(e),
        },
{
    render(corpus, t, args, false)
}

/// The source text of the `StaticExample`s of a selection: every selected
/// input, invalid ones with no value, in corpus order.
pub fn static_examples(corpus: &Corpus, t: StaticTarget, args: &StaticArgs) -> (r: Result<String, StaticError>)
    ensures
        match static_source(t, *args, corpus.spec_inputs(), true) {
            Ok(x) => r matches Ok(y) && y@ == x,
            Err(e) => r == Err::<String, StaticError>(e),
        },
{
    render(corpus, t, args, true)
}

proof fn lemma_int_lit_min(v: int, t: StaticTarget, full: Seq<char>)
    requires
        t.spec_value_type() + "::MIN"@ == full,
        t.spec_value_type().len() > 0,
        t.spec_value_type().last() != full.last(),
    ensures
        (int_lit(v, t) == full) <==> v == int_min_of(t),
        v != int_min_of(t) ==> int_lit(v, t) == signed_decimal(v) + t.spec_value_type(),
{
    if v != int_min_of(t) {
        let ty = t.spec_value_type();
        let lit = signed_decimal(v) + ty;
        assert(lit.last() == ty.last());
        assert(lit != full);
    }
}

/// A signed integer literal denotes the decoded value: it is spelled as the
/// target type's `MIN` exactly when the value is that type's least value
/// (-2^(8w-1) for a type of w bytes), and otherwise as the value in decimal
/// followed by the type.
pub proof fn law_int_literals_denote_values(v: int)
    ensures
        (int_lit(v, StaticTarget::I8) == "i8::MIN"@) <==> v == -128int,
        v != -128int ==> int_lit(v, StaticTarget::I8) == signed_decimal(v) + "i8"@,
        (int_lit(v, StaticTarget::I16) == "i16::MIN"@) <==> v == -32768int,
        v != -32768int ==> int_lit(v, StaticTarget::I16) == signed_decimal(v) + "i16"@,
        (int_lit(v, StaticTarget::I32) == "i32::MIN"@) <==> v == -2147483648int,
        v != -2147483648int ==> int_lit(v, StaticTarget::I32) == signed_decimal(v) + "i32"@,
        (int_lit(v, StaticTarget::I64) == "i64::MIN"@) <==> v == -9223372036854775808int,
        v != -9223372036854775808int ==> int_lit(v, StaticTarget::I64) == signed_decimal(v) + "i64"@,
        (int_lit(v, StaticTarget::I128) == "i128::MIN"@) <==> v == -170141183460469231731687303715884105728int,
        v != -170141183460469231731687303715884105728int ==> int_lit(v, StaticTarget::I128) == signed_decimal(v) + "i128"@,
{
    reveal_strlit("::MIN");
    reveal_strlit("i8");
    reveal_strlit("i8::MIN");
    assert("i8"@ + "::MIN"@ =~= "i8::MIN"@);
    assert(int_min_of(StaticTarget::I8) == -128int);
    lemma_int_lit_min(v, StaticTarget::I8, "i8::MIN"@);
    reveal_strlit("i16");
    reveal_strlit("i16::MIN");
    assert("i16"@ + "::MIN"@ =~= "i16::MIN"@);
    assert(int_min_of(StaticTarget::I16) == -32768int);
    lemma_int_lit_min(v, StaticTarget::I16, "i16::MIN"@);
    reveal_strlit("i32");
    reveal_strlit("i32::MIN");
    assert("i32"@ + "::MIN"@ =~= "i32::MIN"@);
    assert(int_min_of(StaticTarget::I32) == -2147483648int);
    lemma_int_lit_min(v, StaticTarget::I32, "i32::MIN"@);
    reveal_strlit("i64");
    reveal_strlit("i64::MIN");
    assert("i64"@ + "::MIN"@ =~= "i64::MIN"@);
    assert(int_min_of(StaticTarget::I64) == -9223372036854775808int);
    lemma_int_lit_min(v, StaticTarget::I64, "i64::MIN"@);
    reveal_strlit("i128");
    reveal_strlit("i128::MIN");
    assert("i128"@ + "::MIN"@ =~= "i128::MIN"@);
    assert(int_min_of(StaticTarget::I128) == -170141183460469231731687303715884105728int);
    lemma_int_lit_min(v, StaticTarget::I128, "i128::MIN"@);
}

} // verus!
