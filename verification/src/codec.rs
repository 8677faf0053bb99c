//! Text encodings: decoding payload bytes to characters and encoding
//! characters back to payload bytes, for `ascii`, `utf8`, `latin1`,
//! `utf16-le` and `utf32-le`.

use vstd::prelude::*;
use vstd::utf8::{valid_utf8, decode_utf8, encode_utf8, is_scalar, is_ascii_chars};

use crate::decode_as::DecodeAs;
use crate::error::TextFault;

verus! {

broadcast use vstd::utf8::char_u32_cast, vstd::utf8::char_is_scalar;

// --- specification -------------------------------------------------------

/// Index of the first byte at or above 0x80 (the length when there is none).
pub open spec fn first_high_byte(p: Seq<u8>) -> int
    decreases p.len(),
{
    if p.len() == 0 {
        0
    } else if p[0] >= 0x80 {
        0
    } else {
        1 + first_high_byte(p.drop_first())
    }
}

/// Every byte is below 0x80.
pub open spec fn all_ascii_bytes(p: Seq<u8>) -> bool {
    forall|i: int| 0 <= i < p.len() ==> #[trigger] p[i] < 0x80
}

/// Each byte read as the code point of the same value.
pub open spec fn bytes_as_chars(p: Seq<u8>) -> Seq<char> {
    Seq::new(p.len(), |i: int| (p[i] as u32) as char)
}

/// The length of the longest prefix of `p` that is valid UTF-8.
pub open spec fn longest_valid_utf8_prefix(p: Seq<u8>) -> int {
    choose|k: int|
        0 <= k <= p.len() && valid_utf8(p.take(k)) && (forall|j: int|
            k < j <= p.len() ==> !valid_utf8(#[trigger] p.take(j)))
}

/// Name for the `error_len` that `std::str::from_utf8` reports for invalid
/// input: the length of the invalid byte sequence after the longest valid
/// prefix, `None` when the input ends in the middle of a sequence.
pub uninterp spec fn utf8_error_len(p: Seq<u8>) -> Option<usize>;

/// Little-endian 16-bit code units (the length must be even).
pub open spec fn units16(p: Seq<u8>) -> Seq<u16> {
    Seq::new(p.len() / 2, |i: int| (p[2 * i] + 256 * p[2 * i + 1]) as u16)
}

/// Little-endian 32-bit code units (the length must be a multiple of 4).
pub open spec fn units32(p: Seq<u8>) -> Seq<u32> {
    Seq::new(
        p.len() / 4,
        |i: int|
            (p[4 * i] + 256 * p[4 * i + 1] + 65536 * p[4 * i + 2] + 16777216 * p[4 * i + 3]) as u32,
    )
}

pub open spec fn is_surrogate(u: u16) -> bool {
    0xD800 <= u <= 0xDFFF
}

pub open spec fn is_high_surrogate(u: u16) -> bool {
    0xD800 <= u <= 0xDBFF
}

pub open spec fn is_low_surrogate(u: u16) -> bool {
    0xDC00 <= u <= 0xDFFF
}

/// The scalar a surrogate pair stands for.
pub open spec fn pair_scalar(hi: u16, lo: u16) -> u32 {
    (0x10000 + (hi - 0xD800) * 1024 + (lo - 0xDC00)) as u32
}

/// Prefixes decoded characters to the decoding of the rest.
pub open spec fn then<E>(prefix: Seq<char>, rest: Result<Seq<char>, E>) -> Result<Seq<char>, E> {
    match rest {
        Ok(t) => Ok(prefix + t),
        Err(e) => Err(e),
    }
}

/// UTF-16 decoding: characters, or the first unpaired surrogate.
pub open spec fn utf16_decode(u: Seq<u16>) -> Result<Seq<char>, u16>
    decreases u.len(),
{
    if u.len() == 0 {
        Ok(Seq::empty())
    } else if !is_surrogate(u[0]) {
        then(seq![(u[0] as u32) as char], utf16_decode(u.drop_first()))
    } else if is_high_surrogate(u[0]) && u.len() >= 2 && is_low_surrogate(u[1]) {
        then(seq![pair_scalar(u[0], u[1]) as char], utf16_decode(u.subrange(2, u.len() as int)))
    } else {
        Err(u[0])
    }
}

/// UTF-32 decoding: characters, or the first unit that is not a scalar.
pub open spec fn utf32_decode(u: Seq<u32>) -> Result<Seq<char>, u32>
    decreases u.len(),
{
    if u.len() == 0 {
        Ok(Seq::empty())
    } else if is_scalar(u[0]) {
        then(seq![u[0] as char], utf32_decode(u.drop_first()))
    } else {
        Err(u[0])
    }
}

/// What the bytes of a text payload decode to in encoding `d`.
pub open spec fn spec_decode_text(d: DecodeAs, p: Seq<u8>) -> Result<Seq<char>, TextFault> {
    match d {
        DecodeAs::Ascii => if all_ascii_bytes(p) {
            Ok(bytes_as_chars(p))
        } else {
            Err(TextFault::NonAscii { byte: p[first_high_byte(p)], index: first_high_byte(p) as usize })
        },
        DecodeAs::Utf8 => if valid_utf8(p) {
            Ok(decode_utf8(p))
        } else {
            Err(TextFault::Utf8 { valid_up_to: longest_valid_utf8_prefix(p) as usize, error_len: utf8_error_len(p) })
        },
        DecodeAs::Latin1 => Ok(bytes_as_chars(p)),
        DecodeAs::Utf16Le => if p.len() % 2 != 0 {
            Err(TextFault::PartialUnit { len: p.len() as usize, unit: 2 })
        } else {
            match utf16_decode(units16(p)) {
                Ok(s) => Ok(s),
                Err(u) => Err(TextFault::UnpairedSurrogate(u)),
            }
        },
        DecodeAs::Utf32Le => if p.len() % 4 != 0 {
            Err(TextFault::PartialUnit { len: p.len() as usize, unit: 4 })
        } else {
            match utf32_decode(units32(p)) {
                Ok(s) => Ok(s),
                Err(u) => Err(TextFault::NotScalar(u)),
            }
        },
        _ => Ok(Seq::empty()),
    }
}

// --- decoding ------------------------------------------------------------

proof fn lemma_first_high_byte(p: Seq<u8>, k: int)
    requires
        0 <= k <= p.len(),
        forall|j: int| 0 <= j < k ==> #[trigger] p[j] < 0x80,
        k == p.len() || p[k] >= 0x80,
    ensures
        first_high_byte(p) == k,
    decreases k,
{
    if k > 0 {
        assert(p[0] < 0x80);
        assert forall|j: int| 0 <= j < k - 1 implies #[trigger] p.drop_first()[j] < 0x80 by {
            assert(p.drop_first()[j] == p[j + 1]);
        }
        lemma_first_high_byte(p.drop_first(), k - 1);
    }
}

/// `std::str::from_utf8` accepts exactly the valid UTF-8 byte strings (std:
/// "Returns Err if the slice is not UTF-8") and decodes them; on failure its
/// error reports the longest valid prefix (`valid_up_to`, "the maximum index
/// such that from_utf8(&input[..index]) would return Ok") and `error_len`,
/// which is named here rather than restated.
#[verifier::external_body]
pub(crate) fn utf8_to_string(p: &[u8]) -> (r: Result<String, (usize, Option<usize>)>)
    ensures
        r is Ok <==> valid_utf8(p@),
        r matches Ok(s) ==> s@ == decode_utf8(p@),
        r matches Err(e) ==> {
            &&& e.0 <= p@.len()
            &&& valid_utf8(p@.take(e.0 as int))
            &&& forall|j: int| e.0 < j <= p@.len() ==> !valid_utf8(#[trigger] p@.take(j))
            &&& e.1 == utf8_error_len(p@)
        },
{
    match std::str::from_utf8(p) {
        Ok(s) => Ok(s.to_owned()),
        Err(e) => Err((e.valid_up_to(), e.error_len())),
    }
}

fn decode_ascii(p: &[u8]) -> (r: Result<String, TextFault>)
    ensures
        r is Ok <==> spec_decode_text(DecodeAs::Ascii, p@) is Ok,
        r matches Ok(s) ==> spec_decode_text(DecodeAs::Ascii, p@) == Ok::<Seq<char>, TextFault>(s@),
        r matches Err(f) ==> spec_decode_text(DecodeAs::Ascii, p@) == Err::<Seq<char>, TextFault>(f),
{
    let mut s = String::new();
    let mut i: usize = 0;
    while i < p.len()
        invariant
            i <= p.len(),
            forall|j: int| 0 <= j < i ==> #[trigger] p@[j] < 0x80,
            s@ == bytes_as_chars(p@.take(i as int)),
        decreases p.len() - i,
    {
        let b = p[i];
        if b >= 0x80 {
            proof {
                lemma_first_high_byte(p@, i as int);
            }
            return Err(TextFault::NonAscii { byte: b, index: i });
        }
        s.push(b as char);
        i += 1;
        assert(s@ == bytes_as_chars(p@.take(i as int)));
    }
    assert(p@.take(p@.len() as int) == p@);
    Ok(s)
}

fn decode_latin1(p: &[u8]) -> (r: String)
    ensures
        r@ == bytes_as_chars(p@),
{
    let mut s = String::new();
    let mut i: usize = 0;
    while i < p.len()
        invariant
            i <= p.len(),
            s@ == bytes_as_chars(p@.take(i as int)),
        decreases p.len() - i,
    {
        s.push(p[i] as char);
        i += 1;
        assert(s@ == bytes_as_chars(p@.take(i as int)));
    }
    assert(p@.take(p@.len() as int) == p@);
    s
}

proof fn lemma_then_push<E>(out: Seq<char>, c: char, rest: Result<Seq<char>, E>)
    ensures
        then(out, then(seq![c], rest)) == then(out.push(c), rest),
{
    match rest {
        Ok(t) => {
            assert(out + (seq![c] + t) == out.push(c) + t);
        },
        Err(_) => {},
    }
}

proof fn lemma_then_empty<E>(out: Seq<char>)
    ensures
        then(out, Ok::<Seq<char>, E>(Seq::empty())) == Ok::<Seq<char>, E>(out),
{
    assert(out + Seq::<char>::empty() == out);
}

fn unit16_at(p: &[u8], k: usize) -> (u: u16)
    requires
        2 * k + 1 < p@.len(),
    ensures
        u == units16(p@)[k as int],
{
    let n = p.len();
    let lo = p[2 * k] as u16;
    let hi = p[2 * k + 1] as u16;
    assert(lo <= 255 && hi <= 255);
    assert(hi * 256 <= 65280) by (nonlinear_arith) requires hi <= 255;
    lo + hi * 256
}

fn unit32_at(p: &[u8], k: usize) -> (u: u32)
    requires
        4 * k + 3 < p@.len(),
    ensures
        u == units32(p@)[k as int],
{
    let n = p.len();
    let b0 = p[4 * k] as u32;
    let b1 = p[4 * k + 1] as u32;
    let b2 = p[4 * k + 2] as u32;
    let b3 = p[4 * k + 3] as u32;
    assert(b0 <= 255 && b1 <= 255 && b2 <= 255 && b3 <= 255);
    assert(b0 + b1 * 256 + b2 * 65536 + b3 * 16777216 <= 0xFFFF_FFFF) by (nonlinear_arith)
        requires b0 <= 255, b1 <= 255, b2 <= 255, b3 <= 255;
    b0 + b1 * 256 + b2 * 65536 + b3 * 16777216
}

fn decode_utf16_le(p: &[u8]) -> (r: Result<String, TextFault>)
    requires
        p@.len() % 2 == 0,
    ensures
        r is Ok <==> utf16_decode(units16(p@)) is Ok,
        r matches Ok(s) ==> utf16_decode(units16(p@)) == Ok::<Seq<char>, u16>(s@),
        r matches Err(f) ==> utf16_decode(units16(p@)) matches Err(u) && f == TextFault::UnpairedSurrogate(u),
{
    let ghost units = units16(p@);
    let n = p.len() / 2;
    let mut s = String::new();
    let mut k: usize = 0;
    assert(units.skip(0) == units);
    while k < n
        invariant
            k <= n,
            n == units.len(),
            n * 2 == p@.len(),
            units == units16(p@),
            utf16_decode(units) == then(s@, utf16_decode(units.skip(k as int))),
        decreases n - k,
    {
        let u = unit16_at(p, k);
        let ghost rest = units.skip(k as int);
        assert(rest[0] == u);
        if u < 0xD800 || u > 0xDFFF {
            let c = char::from_u32(u as u32);
            proof {
                assert(is_scalar(u as u32));
            }
            let c = c.unwrap();
            proof {
                vstd::utf8::char_u32_cast(c, u as u32);
                assert(rest.drop_first() == units.skip(k + 1));
                assert(utf16_decode(rest) == then(seq![c], utf16_decode(units.skip(k + 1))));
                lemma_then_push(s@, c, utf16_decode(units.skip(k + 1)));
            }
            s.push(c);
            k += 1;
        } else if u <= 0xDBFF && k + 1 < n {
            let lo = unit16_at(p, k + 1);
            assert(rest[1] == lo);
            if lo >= 0xDC00 && lo <= 0xDFFF {
                let v: u32 = 0x10000 + ((u - 0xD800) as u32) * 1024 + ((lo - 0xDC00) as u32);
                assert(v == pair_scalar(u, lo));
                assert(is_scalar(v));
                let c = char::from_u32(v).unwrap();
                proof {
                    vstd::utf8::char_u32_cast(c, v);
                    assert(rest.subrange(2, rest.len() as int) == units.skip(k + 2));
                    assert(utf16_decode(rest) == then(seq![c], utf16_decode(units.skip(k + 2))));
                    lemma_then_push(s@, c, utf16_decode(units.skip(k + 2)));
                }
                s.push(c);
                k += 2;
            } else {
                return Err(TextFault::UnpairedSurrogate(u));
            }
        } else {
            return Err(TextFault::UnpairedSurrogate(u));
        }
    }
    proof {
        lemma_then_empty::<u16>(s@);
    }
    Ok(s)
}

fn decode_utf32_le(p: &[u8]) -> (r: Result<String, TextFault>)
    requires
        p@.len() % 4 == 0,
    ensures
        r is Ok <==> utf32_decode(units32(p@)) is Ok,
        r matches Ok(s) ==> utf32_decode(units32(p@)) == Ok::<Seq<char>, u32>(s@),
        r matches Err(f) ==> utf32_decode(units32(p@)) matches Err(u) && f == TextFault::NotScalar(u),
{
    let ghost units = units32(p@);
    let n = p.len() / 4;
    let mut s = String::new();
    let mut k: usize = 0;
    assert(units.skip(0) == units);
    while k < n
        invariant
            k <= n,
            n == units.len(),
            n * 4 == p@.len(),
            units == units32(p@),
            utf32_decode(units) == then(s@, utf32_decode(units.skip(k as int))),
        decreases n - k,
    {
        let u = unit32_at(p, k);
        let ghost rest = units.skip(k as int);
        assert(rest[0] == u);
        match char::from_u32(u) {
            Some(c) => {
                proof {
                    vstd::utf8::char_u32_cast(c, u);
                    assert(rest.drop_first() == units.skip(k + 1));
                    assert(utf32_decode(rest) == then(seq![c], utf32_decode(units.skip(k + 1))));
                    lemma_then_push(s@, c, utf32_decode(units.skip(k + 1)));
                }
                s.push(c);
                k += 1;
            },
            None => {
                return Err(TextFault::NotScalar(u));
            },
        }
    }
    proof {
        lemma_then_empty::<u32>(s@);
    }
    Ok(s)
}

/// Decode the bytes of a text payload in the text encoding `d`.
pub fn decode_text(d: DecodeAs, p: &[u8]) -> (r: Result<String, TextFault>)
    requires
        d.spec_is_text(),
    ensures
        r is Ok <==> spec_decode_text(d, p@) is Ok,
        r matches Ok(s) ==> spec_decode_text(d, p@) == Ok::<Seq<char>, TextFault>(s@),
        r matches Err(f) ==> spec_decode_text(d, p@) == Err::<Seq<char>, TextFault>(f),
{
    match d {
        DecodeAs::Ascii => decode_ascii(p),
        DecodeAs::Utf8 => match utf8_to_string(p) {
            Ok(s) => Ok(s),
            Err((valid_up_to, error_len)) => {
                proof {
                    let k = longest_valid_utf8_prefix(p@);
                    let w = valid_up_to as int;
                    assert(0 <= w <= p@.len() && valid_utf8(p@.take(w)) && (forall|j: int|
                        w < j <= p@.len() ==> !valid_utf8(#[trigger] p@.take(j))));
                    if k < w {
                        assert(!valid_utf8(p@.take(w)));
                    }
                    if w < k {
                        assert(!valid_utf8(p@.take(k)));
                    }
                }
                Err(TextFault::Utf8 { valid_up_to, error_len })
            },
        },
        DecodeAs::Latin1 => Ok(decode_latin1(p)),
        DecodeAs::Utf16Le => {
            if p.len() % 2 != 0 {
                return Err(TextFault::PartialUnit { len: p.len(), unit: 2 });
            }
            decode_utf16_le(p)
        },
        _ => {
            if p.len() % 4 != 0 {
                return Err(TextFault::PartialUnit { len: p.len(), unit: 4 });
            }
            decode_utf32_le(p)
        },
    }
}

// --- encoding ------------------------------------------------------------

/// The UTF-16 code units of one scalar.
pub open spec fn utf16_units_of_scalar(v: u32) -> Seq<u16> {
    if v < 0x10000 {
        seq![v as u16]
    } else {
        seq![(0xD800 + (v - 0x10000) / 1024) as u16, (0xDC00 + (v - 0x10000) % 1024) as u16]
    }
}

/// The UTF-16 code units of a character sequence.
pub open spec fn utf16_units_of(chars: Seq<char>) -> Seq<u16>
    decreases chars.len(),
{
    if chars.len() == 0 {
        Seq::empty()
    } else {
        utf16_units_of_scalar(chars[0] as u32) + utf16_units_of(chars.drop_first())
    }
}

/// Little-endian bytes of 16-bit units.
pub open spec fn le16_bytes(u: Seq<u16>) -> Seq<u8>
    decreases u.len(),
{
    if u.len() == 0 {
        Seq::empty()
    } else {
        seq![(u[0] % 256) as u8, (u[0] / 256) as u8] + le16_bytes(u.drop_first())
    }
}

/// Little-endian bytes of 32-bit units.
pub open spec fn le32_bytes(u: Seq<u32>) -> Seq<u8>
    decreases u.len(),
{
    if u.len() == 0 {
        Seq::empty()
    } else {
        seq![
            (u[0] % 256) as u8,
            ((u[0] / 256) % 256) as u8,
            ((u[0] / 65536) % 256) as u8,
            (u[0] / 16777216) as u8,
        ] + le32_bytes(u.drop_first())
    }
}

/// The scalar values of a character sequence.
pub open spec fn scalars_of(chars: Seq<char>) -> Seq<u32> {
    chars.map_values(|c: char| c as u32)
}

/// Every character is a code point below 256.
pub open spec fn latin1_encodable(chars: Seq<char>) -> bool {
    forall|i: int| 0 <= i < chars.len() ==> (#[trigger] chars[i] as u32) <= 0xFF
}

/// The bytes that encode `chars` in text encoding `d`; `None` when a
/// character has no representation in it (non-ASCII in `ascii`, a code point
/// above 255 in `latin1`) or `d` is not a text encoding.
pub open spec fn spec_encode_text(d: DecodeAs, chars: Seq<char>) -> Option<Seq<u8>> {
    match d {
        DecodeAs::Utf8 => Some(encode_utf8(chars)),
        DecodeAs::Ascii => if is_ascii_chars(chars) {
            Some(encode_utf8(chars))
        } else {
            None
        },
        DecodeAs::Latin1 => if latin1_encodable(chars) {
            Some(chars.map_values(|c: char| (c as u32) as u8))
        } else {
            None
        },
        DecodeAs::Utf16Le => Some(le16_bytes(utf16_units_of(chars))),
        DecodeAs::Utf32Le => Some(le32_bytes(scalars_of(chars))),
        _ => None,
    }
}

proof fn lemma_utf16_units_append(a: Seq<char>, c: char)
    ensures
        utf16_units_of(a.push(c)) == utf16_units_of(a) + utf16_units_of_scalar(c as u32),
    decreases a.len(),
{
    if a.len() == 0 {
        assert(a.push(c).drop_first() == Seq::<char>::empty());
        assert(utf16_units_of(Seq::<char>::empty()) == Seq::<u16>::empty());
        assert(utf16_units_of_scalar(c as u32) + Seq::<u16>::empty() == utf16_units_of_scalar(c as u32));
    } else {
        assert(a.push(c).drop_first() == a.drop_first().push(c));
        lemma_utf16_units_append(a.drop_first(), c);
    }
}

proof fn lemma_le16_append(a: Seq<u16>, b: Seq<u16>)
    ensures
        le16_bytes(a + b) == le16_bytes(a) + le16_bytes(b),
    decreases a.len(),
{
    if a.len() == 0 {
        assert(a + b == b);
    } else {
        assert((a + b).drop_first() == a.drop_first() + b);
        lemma_le16_append(a.drop_first(), b);
    }
}

proof fn lemma_le32_append(a: Seq<u32>, b: Seq<u32>)
    ensures
        le32_bytes(a + b) == le32_bytes(a) + le32_bytes(b),
    decreases a.len(),
{
    if a.len() == 0 {
        assert(a + b == b);
    } else {
        assert((a + b).drop_first() == a.drop_first() + b);
        lemma_le32_append(a.drop_first(), b);
    }
}

proof fn lemma_le16_single(u: u16)
    ensures
        le16_bytes(seq![u]) == seq![(u % 256) as u8, (u / 256) as u8],
{
    assert(seq![u].drop_first() == Seq::<u16>::empty());
    assert(le16_bytes(Seq::<u16>::empty()) == Seq::<u8>::empty());
    assert(seq![(u % 256) as u8, (u / 256) as u8] + Seq::<u8>::empty() =~= seq![(u % 256) as u8, (u / 256) as u8]);
}

proof fn lemma_le32_single(u: u32)
    ensures
        le32_bytes(seq![u]) == seq![
            (u % 256) as u8,
            ((u / 256) % 256) as u8,
            ((u / 65536) % 256) as u8,
            (u / 16777216) as u8,
        ],
{
    assert(seq![u].drop_first() == Seq::<u32>::empty());
    assert(le32_bytes(Seq::<u32>::empty()) == Seq::<u8>::empty());
    let b = seq![
        (u % 256) as u8,
        ((u / 256) % 256) as u8,
        ((u / 65536) % 256) as u8,
        (u / 16777216) as u8,
    ];
    assert(b + Seq::<u8>::empty() =~= b);
}

fn push_u16_le(out: &mut Vec<u8>, u: u16)
    ensures
        final(out)@ == old(out)@ + le16_bytes(seq![u]),
{
    proof {
        lemma_le16_single(u);
    }
    out.push((u % 256) as u8);
    out.push((u / 256) as u8);
}

fn push_u32_le(out: &mut Vec<u8>, u: u32)
    ensures
        final(out)@ == old(out)@ + le32_bytes(seq![u]),
{
    proof {
        lemma_le32_single(u);
    }
    out.push((u % 256) as u8);
    out.push(((u / 256) % 256) as u8);
    out.push(((u / 65536) % 256) as u8);
    out.push((u / 16777216) as u8);
}

fn encode_latin1(chars: &[char]) -> (r: Option<Vec<u8>>)
    ensures
        r is Some <==> latin1_encodable(chars@),
        r matches Some(b) ==> b@ == chars@.map_values(|c: char| (c as u32) as u8),
{
    let mut out: Vec<u8> = Vec::new();
    let mut i: usize = 0;
    while i < chars.len()
        invariant
            i <= chars.len(),
            forall|j: int| 0 <= j < i ==> (#[trigger] chars@[j] as u32) <= 0xFF,
            out@ == chars@.take(i as int).map_values(|c: char| (c as u32) as u8),
        decreases chars.len() - i,
    {
        let v = chars[i] as u32;
        if v > 0xFF {
            return None;
        }
        out.push(v as u8);
        i += 1;
        assert(out@ == chars@.take(i as int).map_values(|c: char| (c as u32) as u8));
    }
    assert(chars@.take(chars@.len() as int) == chars@);
    Some(out)
}

fn encode_utf16_le(chars: &[char]) -> (r: Vec<u8>)
    ensures
        r@ == le16_bytes(utf16_units_of(chars@)),
{
    let mut out: Vec<u8> = Vec::new();
    let mut i: usize = 0;
    assert(chars@.take(0) == Seq::<char>::empty());
    while i < chars.len()
        invariant
            i <= chars.len(),
            out@ == le16_bytes(utf16_units_of(chars@.take(i as int))),
        decreases chars.len() - i,
    {
        let c = chars[i];
        let v = c as u32;
        proof {
            assert(chars@.take(i + 1) == chars@.take(i as int).push(c));
            lemma_utf16_units_append(chars@.take(i as int), c);
            vstd::utf8::char_is_scalar(c);
            assert(v <= 0x10FFFF);
        }
        if v < 0x10000 {
            proof {
                lemma_le16_append(utf16_units_of(chars@.take(i as int)), seq![v as u16]);
            }
            push_u16_le(&mut out, v as u16);
        } else {
            let hi = (0xD800 + (v - 0x10000) / 1024) as u16;
            let lo = (0xDC00 + (v - 0x10000) % 1024) as u16;
            proof {
                assert(seq![hi, lo] == seq![hi] + seq![lo]);
                lemma_le16_append(utf16_units_of(chars@.take(i as int)), seq![hi, lo]);
                lemma_le16_append(seq![hi], seq![lo]);
            }
            push_u16_le(&mut out, hi);
            push_u16_le(&mut out, lo);
        }
        i += 1;
    }
    assert(chars@.take(chars@.len() as int) == chars@);
    out
}

fn encode_utf32_le(chars: &[char]) -> (r: Vec<u8>)
    ensures
        r@ == le32_bytes(scalars_of(chars@)),
{
    let mut out: Vec<u8> = Vec::new();
    let mut i: usize = 0;
    assert(scalars_of(chars@.take(0)) == Seq::<u32>::empty());
    while i < chars.len()
        invariant
            i <= chars.len(),
            out@ == le32_bytes(scalars_of(chars@.take(i as int))),
        decreases chars.len() - i,
    {
        let v = chars[i] as u32;
        proof {
            assert(scalars_of(chars@.take(i + 1)) == scalars_of(chars@.take(i as int)) + seq![v]);
            lemma_le32_append(scalars_of(chars@.take(i as int)), seq![v]);
        }
        push_u32_le(&mut out, v);
        i += 1;
    }
    assert(chars@.take(chars@.len() as int) == chars@);
    out
}

/// Encode a string back into the bytes of a text encoding; `None` if a
/// character is unrepresentable in the target encoding or `d` is not text.
pub fn encode_text(d: DecodeAs, s: &str) -> (r: Option<Vec<u8>>)
    ensures
        r is Some <==> spec_encode_text(d, s@) is Some,
        r matches Some(b) ==> spec_encode_text(d, s@) == Some(b@),
{
    match d {
        DecodeAs::Utf8 => Some(vstd::slice::slice_to_vec(s.as_bytes())),
        DecodeAs::Ascii => {
            if s.is_ascii() {
                Some(vstd::slice::slice_to_vec(s.as_bytes()))
            } else {
                None
            }
        },
        DecodeAs::Latin1 => {
            let cs = crate::text::chars_of(s);
            encode_latin1(cs.as_slice())
        },
        DecodeAs::Utf16Le => {
            let cs = crate::text::chars_of(s);
            Some(encode_utf16_le(cs.as_slice()))
        },
        DecodeAs::Utf32Le => {
            let cs = crate::text::chars_of(s);
            Some(encode_utf32_le(cs.as_slice()))
        },
        _ => None,
    }
}


// --- decoding inverts encoding -------------------------------------------

pub proof fn lemma_le16_len(u: Seq<u16>)
    ensures
        le16_bytes(u).len() == 2 * u.len(),
    decreases u.len(),
{
    if u.len() > 0 {
        lemma_le16_len(u.drop_first());
    }
}

proof fn lemma_le16_index(u: Seq<u16>, i: int)
    requires
        0 <= i < u.len(),
    ensures
        le16_bytes(u)[2 * i] == (u[i] % 256) as u8,
        le16_bytes(u)[2 * i + 1] == (u[i] / 256) as u8,
    decreases i,
{
    let t = u.drop_first();
    let head = seq![(u[0] % 256) as u8, (u[0] / 256) as u8];
    assert(le16_bytes(u) == head + le16_bytes(t));
    lemma_le16_len(t);
    if i > 0 {
        lemma_le16_index(t, i - 1);
        assert(t[i - 1] == u[i]);
        assert(le16_bytes(u)[2 * i] == le16_bytes(t)[2 * (i - 1)]);
        assert(le16_bytes(u)[2 * i + 1] == le16_bytes(t)[2 * (i - 1) + 1]);
    } else {
        assert(le16_bytes(u)[0] == head[0]);
        assert(le16_bytes(u)[1] == head[1]);
    }
}

pub proof fn lemma_le32_len(u: Seq<u32>)
    ensures
        le32_bytes(u).len() == 4 * u.len(),
    decreases u.len(),
{
    if u.len() > 0 {
        lemma_le32_len(u.drop_first());
    }
}

proof fn lemma_le32_index(u: Seq<u32>, i: int)
    requires
        0 <= i < u.len(),
    ensures
        le32_bytes(u)[4 * i] == (u[i] % 256) as u8,
        le32_bytes(u)[4 * i + 1] == ((u[i] / 256) % 256) as u8,
        le32_bytes(u)[4 * i + 2] == ((u[i] / 65536) % 256) as u8,
        le32_bytes(u)[4 * i + 3] == (u[i] / 16777216) as u8,
    decreases i,
{
    let t = u.drop_first();
    let head = seq![
        (u[0] % 256) as u8,
        ((u[0] / 256) % 256) as u8,
        ((u[0] / 65536) % 256) as u8,
        (u[0] / 16777216) as u8,
    ];
    assert(le32_bytes(u) == head + le32_bytes(t));
    lemma_le32_len(t);
    if i > 0 {
        lemma_le32_index(t, i - 1);
        assert(t[i - 1] == u[i]);
        assert(le32_bytes(u)[4 * i] == le32_bytes(t)[4 * (i - 1)]);
        assert(le32_bytes(u)[4 * i + 1] == le32_bytes(t)[4 * (i - 1) + 1]);
        assert(le32_bytes(u)[4 * i + 2] == le32_bytes(t)[4 * (i - 1) + 2]);
        assert(le32_bytes(u)[4 * i + 3] == le32_bytes(t)[4 * (i - 1) + 3]);
    } else {
        assert(le32_bytes(u)[0] == head[0] && le32_bytes(u)[1] == head[1]);
        assert(le32_bytes(u)[2] == head[2] && le32_bytes(u)[3] == head[3]);
    }
}

/// Reading little-endian 16-bit units back from their bytes.
proof fn lemma_units16_le16(u: Seq<u16>)
    ensures
        le16_bytes(u).len() % 2 == 0,
        units16(le16_bytes(u)) == u,
{
    lemma_le16_len(u);
    let b = le16_bytes(u);
    assert forall|i: int| 0 <= i < u.len() implies #[trigger] units16(b)[i] == u[i] by {
        lemma_le16_index(u, i);
        let x = u[i];
        assert(b[2 * i] == (x % 256) as u8);
        assert(b[2 * i + 1] == (x / 256) as u8);
        assert((x % 256) as u8 == x % 256);
        assert((x / 256) as u8 == x / 256);
        assert(x % 256 + 256 * (x / 256) == x);
    }
    assert(units16(b) =~= u);
}

/// Reading little-endian 32-bit units back from their bytes.
proof fn lemma_units32_le32(u: Seq<u32>)
    ensures
        le32_bytes(u).len() % 4 == 0,
        units32(le32_bytes(u)) == u,
{
    lemma_le32_len(u);
    let b = le32_bytes(u);
    assert forall|i: int| 0 <= i < u.len() implies #[trigger] units32(b)[i] == u[i] by {
        lemma_le32_index(u, i);
        let x = u[i];
        assert(b[4 * i] == (x % 256) as u8);
        assert(b[4 * i + 1] == ((x / 256) % 256) as u8);
        assert(b[4 * i + 2] == ((x / 65536) % 256) as u8);
        assert(b[4 * i + 3] == (x / 16777216) as u8);
        assert(x % 256 + 256 * ((x / 256) % 256) + 65536 * ((x / 65536) % 256) + 16777216 * (x / 16777216) == x)
            by (nonlinear_arith)
            requires
                0 <= x < 0x1_0000_0000,
        {
            assert(x / 256 == 256 * ((x / 256) / 256) + (x / 256) % 256);
            assert((x / 256) / 256 == x / 65536);
            assert(x / 65536 == 256 * ((x / 65536) / 256) + (x / 65536) % 256);
            assert((x / 65536) / 256 == x / 16777216);
        }
    }
    assert(units32(b) =~= u);
}

proof fn lemma_utf16_round_trip(s: Seq<char>)
    ensures
        utf16_decode(utf16_units_of(s)) == Ok::<Seq<char>, u16>(s),
    decreases s.len(),
{
    if s.len() > 0 {
        let c = s[0];
        let v = c as u32;
        let rest = s.drop_first();
        lemma_utf16_round_trip(rest);
        let u = utf16_units_of(s);
        assert(u == utf16_units_of_scalar(v) + utf16_units_of(rest));
        vstd::utf8::char_is_scalar(c);
        vstd::utf8::char_u32_cast(c, v);
        assert(is_scalar(v));
        assert(s =~= seq![c] + rest);
        if v < 0x10000 {
            assert(u[0] == v as u16);
            assert((v as u16) as u32 == v) by (bit_vector)
                requires
                    v < 0x10000,
            ;
            assert(!is_surrogate(u[0]));
            assert(u.drop_first() =~= utf16_units_of(rest));
            assert((u[0] as u32) as char == c);
        } else {
            let w = (v - 0x10000) as int;
            assert(0 <= w < 0x100000);
            let hi = (0xD800 + w / 1024) as u16;
            let lo = (0xDC00 + w % 1024) as u16;
            assert(u[0] == hi && u[1] == lo);
            assert(is_high_surrogate(hi) && is_low_surrogate(lo));
            assert(pair_scalar(hi, lo) == v);
            assert(u.subrange(2, u.len() as int) =~= utf16_units_of(rest));
            assert(pair_scalar(hi, lo) as char == c);
        }
    } else {
        assert(s =~= Seq::<char>::empty());
    }
}

proof fn lemma_utf32_round_trip(s: Seq<char>)
    ensures
        utf32_decode(scalars_of(s)) == Ok::<Seq<char>, u32>(s),
    decreases s.len(),
{
    if s.len() > 0 {
        let c = s[0];
        lemma_utf32_round_trip(s.drop_first());
        assert(scalars_of(s).drop_first() =~= scalars_of(s.drop_first()));
        assert(scalars_of(s)[0] == c as u32);
        vstd::utf8::char_is_scalar(c);
        vstd::utf8::char_u32_cast(c, c as u32);
        assert(is_scalar(c as u32));
        assert((c as u32) as char == c);
        assert(s =~= seq![c] + s.drop_first());
    } else {
        assert(s =~= Seq::<char>::empty());
    }
}

/// Decoding gives back what encoding wrote: for every text encoding and
/// every string it can represent, the encoded bytes decode to the string.
pub proof fn law_decode_inverts_encode(d: DecodeAs, s: Seq<char>)
    requires
        spec_encode_text(d, s) is Some,
    ensures
        spec_decode_text(d, spec_encode_text(d, s)->Some_0) == Ok::<Seq<char>, TextFault>(s),
{
    broadcast use vstd::utf8::encode_utf8_valid_utf8, vstd::utf8::encode_utf8_decode_utf8;

    let b = spec_encode_text(d, s)->Some_0;
    match d {
        DecodeAs::Utf8 => {},
        DecodeAs::Ascii => {
            vstd::utf8::is_ascii_chars_encode_utf8(s);
            assert forall|i: int| 0 <= i < s.len() implies #[trigger] b[i] < 0x80 && (b[i] as u32) as char == s[i] by {
                let c = s[i];
                let x = c as u32;
                assert(c as u8 == b[i]);
                assert('\0' <= c <= '\u{7f}');
                assert(x <= 0x7f);
                assert(c as u8 == x as u8);
                assert((x as u8) as u32 == x) by (bit_vector)
                    requires
                        x <= 0x7f,
                ;
                vstd::utf8::char_u32_cast(c, x);
            }
            assert(bytes_as_chars(b) =~= s);
        },
        DecodeAs::Latin1 => {
            assert(bytes_as_chars(b) =~= s) by {
                assert forall|i: int| 0 <= i < s.len() implies #[trigger] bytes_as_chars(b)[i] == s[i] by {
                    let c = s[i];
                    let x = c as u32;
                    assert(x <= 0xFF);
                    assert(b[i] == (x as u8));
                    assert((x as u8) as u32 == x) by (bit_vector)
                        requires
                            x <= 0xFF,
                    ;
                    vstd::utf8::char_u32_cast(c, x);
                }
            }
        },
        DecodeAs::Utf16Le => {
            lemma_units16_le16(utf16_units_of(s));
            lemma_utf16_round_trip(s);
        },
        DecodeAs::Utf32Le => {
            lemma_units32_le32(scalars_of(s));
            lemma_utf32_round_trip(s);
        },
        _ => {},
    }
}


// --- encoding inverts decoding -------------------------------------------

proof fn lemma_le16_units16(p: Seq<u8>)
    requires
        p.len() % 2 == 0,
    ensures
        le16_bytes(units16(p)) == p,
{
    let u = units16(p);
    lemma_le16_len(u);
    let b = le16_bytes(u);
    assert forall|k: int| 0 <= k < p.len() implies #[trigger] b[k] == p[k] by {
        let i = k / 2;
        lemma_le16_index(u, i);
        let x = p[2 * i] + 256 * p[2 * i + 1];
        assert(0 <= x < 0x10000);
        assert(u[i] == x);
        assert(x % 256 == p[2 * i]);
        assert(x / 256 == p[2 * i + 1]);
        if k % 2 == 0 {
            assert(k == 2 * i);
        } else {
            assert(k == 2 * i + 1);
        }
    }
    assert(b =~= p);
}

proof fn lemma_le32_units32(p: Seq<u8>)
    requires
        p.len() % 4 == 0,
    ensures
        le32_bytes(units32(p)) == p,
{
    let u = units32(p);
    lemma_le32_len(u);
    let b = le32_bytes(u);
    assert forall|k: int| 0 <= k < p.len() implies #[trigger] b[k] == p[k] by {
        let i = k / 4;
        lemma_le32_index(u, i);
        let (b0, b1, b2, b3) = (p[4 * i] as int, p[4 * i + 1] as int, p[4 * i + 2] as int, p[4 * i + 3] as int);
        let x = b0 + 256 * b1 + 65536 * b2 + 16777216 * b3;
        assert(0 <= x < 0x1_0000_0000);
        assert(u[i] == x);
        assert(x % 256 == b0 && (x / 256) % 256 == b1 && (x / 65536) % 256 == b2 && x / 16777216 == b3)
            by (nonlinear_arith)
            requires
                0 <= b0 < 256,
                0 <= b1 < 256,
                0 <= b2 < 256,
                0 <= b3 < 256,
                x == b0 + 256 * b1 + 65536 * b2 + 16777216 * b3,
        ;
        if k % 4 == 0 {
            assert(k == 4 * i);
        } else if k % 4 == 1 {
            assert(k == 4 * i + 1);
        } else if k % 4 == 2 {
            assert(k == 4 * i + 2);
        } else {
            assert(k == 4 * i + 3);
        }
    }
    assert(b =~= p);
}

proof fn lemma_utf16_units_of_decoded(u: Seq<u16>)
    requires
        utf16_decode(u) is Ok,
    ensures
        utf16_units_of(utf16_decode(u)->Ok_0) == u,
    decreases u.len(),
{
    if u.len() > 0 {
        let s = utf16_decode(u)->Ok_0;
        if !is_surrogate(u[0]) {
            let rest = u.drop_first();
            lemma_utf16_units_of_decoded(rest);
            let c = (u[0] as u32) as char;
            let t = utf16_decode(rest)->Ok_0;
            assert(s == seq![c] + t);
            assert(s.drop_first() =~= t);
            assert(s[0] == c);
            assert(is_scalar(u[0] as u32));
            assert(c as u32 == u[0] as u32);
            assert(utf16_units_of_scalar(c as u32) =~= seq![u[0]]);
            assert(u =~= seq![u[0]] + rest);
        } else {
            let rest = u.subrange(2, u.len() as int);
            lemma_utf16_units_of_decoded(rest);
            let v = pair_scalar(u[0], u[1]);
            let hi = u[0] as int - 0xD800;
            let lo = u[1] as int - 0xDC00;
            assert(0 <= hi < 1024 && 0 <= lo < 1024);
            assert(v == 0x10000 + hi * 1024 + lo);
            assert(0x10000 <= v <= 0x10FFFF);
            assert(is_scalar(v));
            let c = v as char;
            let t = utf16_decode(rest)->Ok_0;
            assert(s == seq![c] + t);
            assert(s.drop_first() =~= t);
            assert(s[0] == c);
            assert(c as u32 == v);
            assert((v - 0x10000) / 1024 == hi && (v - 0x10000) % 1024 == lo);
            assert(utf16_units_of_scalar(v) =~= seq![u[0], u[1]]);
            assert(u =~= seq![u[0], u[1]] + rest);
        }
    }
}

proof fn lemma_scalars_of_decoded(u: Seq<u32>)
    requires
        utf32_decode(u) is Ok,
    ensures
        scalars_of(utf32_decode(u)->Ok_0) == u,
    decreases u.len(),
{
    if u.len() > 0 {
        let rest = u.drop_first();
        lemma_scalars_of_decoded(rest);
        let c = u[0] as char;
        let s = utf32_decode(u)->Ok_0;
        let t = utf32_decode(rest)->Ok_0;
        assert(s == seq![c] + t);
        assert(c as u32 == u[0]);
        assert(scalars_of(s) =~= seq![u[0]] + scalars_of(t));
        assert(u =~= seq![u[0]] + rest);
    } else {
        assert(scalars_of(utf32_decode(u)->Ok_0) =~= u);
    }
}

/// Encoding gives back what decoding read: every payload that decodes in a
/// text encoding is exactly the encoding of what it decodes to.
pub proof fn law_encode_inverts_decode(d: DecodeAs, p: Seq<u8>)
    requires
        d.spec_is_text(),
        spec_decode_text(d, p) is Ok,
    ensures
        spec_encode_text(d, spec_decode_text(d, p)->Ok_0) == Some(p),
{
    broadcast use vstd::utf8::decode_utf8_encode_utf8;

    let s = spec_decode_text(d, p)->Ok_0;
    match d {
        DecodeAs::Utf8 => {},
        DecodeAs::Ascii => {
            assert(s == bytes_as_chars(p));
            assert forall|i: int| 0 <= i < s.len() implies '\0' <= #[trigger] s[i] <= '\u{7f}' by {
                assert(p[i] < 0x80);
                assert(s[i] == (p[i] as u32) as char);
            }
            vstd::utf8::is_ascii_chars_encode_utf8(s);
            let b = encode_utf8(s);
            assert forall|i: int| 0 <= i < p.len() implies #[trigger] b[i] == p[i] by {
                let x = p[i] as u32;
                assert(s[i] == x as char);
                assert(s[i] as u32 == x);
                assert(s[i] as u8 == b[i]);
                assert(s[i] as u8 == x as u8);
                let y = p[i];
                assert((x as u8) == y) by (bit_vector)
                    requires
                        x == y as u32,
                ;
            }
            assert(b =~= p);
        },
        DecodeAs::Latin1 => {
            let b = s.map_values(|c: char| (c as u32) as u8);
            assert forall|i: int| 0 <= i < s.len() implies (#[trigger] s[i] as u32) <= 0xFF by {
                assert(s[i] == (p[i] as u32) as char);
            }
            assert forall|i: int| 0 <= i < p.len() implies #[trigger] b[i] == p[i] by {
                let x = p[i] as u32;
                assert(s[i] == x as char);
                assert(s[i] as u32 == x);
                let y = p[i];
                assert((x as u8) == y) by (bit_vector)
                    requires
                        x == y as u32,
                ;
            }
            assert(b =~= p);
        },
        DecodeAs::Utf16Le => {
            lemma_utf16_units_of_decoded(units16(p));
            lemma_le16_units16(p);
        },
        _ => {
            lemma_scalars_of_decoded(units32(p));
            lemma_le32_units32(p);
        },
    }
}

} // verus!
