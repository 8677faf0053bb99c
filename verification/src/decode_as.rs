//! The `decode-as` token: the logical type a corpus input is interpreted as.

use vstd::prelude::*;

use crate::text::same_text;

verus! {

/// A logical type an input may decode as: fixed-width little-endian numerics,
/// a boolean, raw bytes, or one of the text encodings.
#[derive(Debug, Clone, Copy, PartialEq, Eq, Hash, Structural)]
pub enum DecodeAs {
    U8,
    U16Le,
    U32Le,
    U64Le,
    U128Le,
    I8,
    I16Le,
    I32Le,
    I64Le,
    I128Le,
    F16Le,
    F32Le,
    F64Le,
    Bool,
    Bytes,
    Ascii,
    Utf8,
    Utf16Le,
    Utf32Le,
    Latin1,
}

impl DecodeAs {
    /// The canonical token (as written in the index JSON).
    pub open spec fn token(self) -> Seq<char> {
        match self {
            DecodeAs::U8 => "u8"@,
            DecodeAs::U16Le => "u16-le"@,
            DecodeAs::U32Le => "u32-le"@,
            DecodeAs::U64Le => "u64-le"@,
            DecodeAs::U128Le => "u128-le"@,
            DecodeAs::I8 => "i8"@,
            DecodeAs::I16Le => "i16-le"@,
            DecodeAs::I32Le => "i32-le"@,
            DecodeAs::I64Le => "i64-le"@,
            DecodeAs::I128Le => "i128-le"@,
            DecodeAs::F16Le => "f16-le"@,
            DecodeAs::F32Le => "f32-le"@,
            DecodeAs::F64Le => "f64-le"@,
            DecodeAs::Bool => "bool"@,
            DecodeAs::Bytes => "bytes"@,
            DecodeAs::Ascii => "ascii"@,
            DecodeAs::Utf8 => "utf8"@,
            DecodeAs::Utf16Le => "utf16-le"@,
            DecodeAs::Utf32Le => "utf32-le"@,
            DecodeAs::Latin1 => "latin1"@,
        }
    }

    /// The text encodings: everything that decodes to a Rust `String`.
    pub open spec fn spec_is_text(self) -> bool {
        matches!(self, DecodeAs::Ascii | DecodeAs::Utf8 | DecodeAs::Utf16Le | DecodeAs::Utf32Le | DecodeAs::Latin1)
    }

    /// The unsigned integer tokens.
    pub open spec fn is_unsigned(self) -> bool {
        matches!(self, DecodeAs::U8 | DecodeAs::U16Le | DecodeAs::U32Le | DecodeAs::U64Le | DecodeAs::U128Le)
    }

    /// The signed integer tokens.
    pub open spec fn is_signed(self) -> bool {
        matches!(self, DecodeAs::I8 | DecodeAs::I16Le | DecodeAs::I32Le | DecodeAs::I64Le | DecodeAs::I128Le)
    }

    /// The IEEE-754 float tokens.
    pub open spec fn is_float(self) -> bool {
        matches!(self, DecodeAs::F16Le | DecodeAs::F32Le | DecodeAs::F64Le)
    }

    /// The fixed-width numeric tokens.
    pub open spec fn is_numeric(self) -> bool {
        self.is_unsigned() || self.is_signed() || self.is_float()
    }

    /// Byte width of a fixed-size numeric token.
    pub open spec fn width(self) -> nat {
        match self {
            DecodeAs::U8 | DecodeAs::I8 => 1,
            DecodeAs::U16Le | DecodeAs::I16Le | DecodeAs::F16Le => 2,
            DecodeAs::U32Le | DecodeAs::I32Le | DecodeAs::F32Le => 4,
            DecodeAs::U64Le | DecodeAs::I64Le | DecodeAs::F64Le => 8,
            DecodeAs::U128Le | DecodeAs::I128Le => 16,
            _ => 0,
        }
    }

    /// The canonical token string (matches the schema enum and the index JSON).
    pub fn as_str(self) -> (r: &'static str)
        ensures
            r@ == self.token(),
    {
        match self {
            DecodeAs::U8 => "u8",
            DecodeAs::U16Le => "u16-le",
            DecodeAs::U32Le => "u32-le",
            DecodeAs::U64Le => "u64-le",
            DecodeAs::U128Le => "u128-le",
            DecodeAs::I8 => "i8",
            DecodeAs::I16Le => "i16-le",
            DecodeAs::I32Le => "i32-le",
            DecodeAs::I64Le => "i64-le",
            DecodeAs::I128Le => "i128-le",
            DecodeAs::F16Le => "f16-le",
            DecodeAs::F32Le => "f32-le",
            DecodeAs::F64Le => "f64-le",
            DecodeAs::Bool => "bool",
            DecodeAs::Bytes => "bytes",
            DecodeAs::Ascii => "ascii",
            DecodeAs::Utf8 => "utf8",
            DecodeAs::Utf16Le => "utf16-le",
            DecodeAs::Utf32Le => "utf32-le",
            DecodeAs::Latin1 => "latin1",
        }
    }

    /// True for the text encodings; `bytes` is not text.
    pub fn is_text(self) -> (r: bool)
        ensures
            r == self.spec_is_text(),
    {
        matches!(self, DecodeAs::Ascii | DecodeAs::Utf8 | DecodeAs::Utf16Le | DecodeAs::Utf32Le | DecodeAs::Latin1)
    }

    /// Parses a canonical token; `None` for anything else (no aliases, no
    /// case folding).
    pub fn from_token(s: &str) -> (r: Option<DecodeAs>)
        ensures
            forall|d: DecodeAs| r == Some(d) <==> d.token() == s@,
    {
        let r = if same_text(s, "u8") {
            Some(DecodeAs::U8)
        } else if same_text(s, "u16-le") {
            Some(DecodeAs::U16Le)
        } else if same_text(s, "u32-le") {
            Some(DecodeAs::U32Le)
        } else if same_text(s, "u64-le") {
            Some(DecodeAs::U64Le)
        } else if same_text(s, "u128-le") {
            Some(DecodeAs::U128Le)
        } else if same_text(s, "i8") {
            Some(DecodeAs::I8)
        } else if same_text(s, "i16-le") {
            Some(DecodeAs::I16Le)
        } else if same_text(s, "i32-le") {
            Some(DecodeAs::I32Le)
        } else if same_text(s, "i64-le") {
            Some(DecodeAs::I64Le)
        } else if same_text(s, "i128-le") {
            Some(DecodeAs::I128Le)
        } else if same_text(s, "f16-le") {
            Some(DecodeAs::F16Le)
        } else if same_text(s, "f32-le") {
            Some(DecodeAs::F32Le)
        } else if same_text(s, "f64-le") {
            Some(DecodeAs::F64Le)
        } else if same_text(s, "bool") {
            Some(DecodeAs::Bool)
        } else if same_text(s, "bytes") {
            Some(DecodeAs::Bytes)
        } else if same_text(s, "ascii") {
            Some(DecodeAs::Ascii)
        } else if same_text(s, "utf8") {
            Some(DecodeAs::Utf8)
        } else if same_text(s, "utf16-le") {
            Some(DecodeAs::Utf16Le)
        } else if same_text(s, "utf32-le") {
            Some(DecodeAs::Utf32Le)
        } else if same_text(s, "latin1") {
            Some(DecodeAs::Latin1)
        } else {
            None
        };
        proof {
            assert forall|d: DecodeAs| r == Some(d) <==> d.token() == s@ by {
                if let Some(e) = r {
                    if d.token() == s@ {
                        lemma_token_injective(d, e);
                    }
                }
            }
        }
        r
    }
}

/// Distinct tokens name distinct types.
pub proof fn lemma_token_injective(a: DecodeAs, b: DecodeAs)
    requires
        a.token() == b.token(),
    ensures
        a == b,
{
    reveal_strlit("u8");
    reveal_strlit("u16-le");
    reveal_strlit("u32-le");
    reveal_strlit("u64-le");
    reveal_strlit("u128-le");
    reveal_strlit("i8");
    reveal_strlit("i16-le");
    reveal_strlit("i32-le");
    reveal_strlit("i64-le");
    reveal_strlit("i128-le");
    reveal_strlit("f16-le");
    reveal_strlit("f32-le");
    reveal_strlit("f64-le");
    reveal_strlit("bool");
    reveal_strlit("bytes");
    reveal_strlit("ascii");
    reveal_strlit("utf8");
    reveal_strlit("utf16-le");
    reveal_strlit("utf32-le");
    reveal_strlit("latin1");
    let t = a.token();
    let u = b.token();
    assert(t.len() == u.len());
    assert(t[0] == u[0]);
    assert(t[1] == u[1]);
    if t.len() > 2 {
        assert(t[2] == u[2]);
    }
    if t.len() > 3 {
        assert(t[3] == u[3]);
    }
    if t.len() > 4 {
        assert(t[4] == u[4]);
    }
}

proof fn lemma_tokens_injective()
    ensures
        forall|a: DecodeAs, b: DecodeAs| #[trigger] a.token() == #[trigger] b.token() ==> a == b,
{
    assert forall|a: DecodeAs, b: DecodeAs| #[trigger] a.token() == #[trigger] b.token() implies a == b by {
        lemma_token_injective(a, b);
    }
}

/// Parsing a token gives back the type it names, for every type.
pub proof fn law_token_round_trip(d: DecodeAs, s: &str)
    requires
        s@ == d.token(),
    ensures
        forall|e: DecodeAs| e.token() == s@ <==> e == d,
{
    lemma_tokens_injective();
}

impl core::str::FromStr for DecodeAs {
    type Err = ();

    /// Parses a canonical token, as [`DecodeAs::from_token`] does; `Err(())`
    /// for anything else.
    fn from_str(s: &str) -> (r: Result<Self, ()>)
        ensures
            forall|d: DecodeAs| r == Ok::<DecodeAs, ()>(d) <==> d.token() == s@,
            r is Err <==> forall|d: DecodeAs| d.token() != s@,
    {
        match DecodeAs::from_token(s) {
            Some(d) => {
                assert(d.token() == s@);
                Ok(d)
            },
            None => {
                assert forall|d: DecodeAs| d.token() != s@ by {
                    assert(None::<DecodeAs> != Some(d));
                }
                Err(())
            },
        }
    }
}

} // verus!
