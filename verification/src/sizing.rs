//! String sizing: pad tricky strings to an exact count of a Unicode unit.
//!
//! Each candidate whose count is at most the target is left-padded with a
//! filler character, then re-measured and kept only if it lands exactly on
//! the target: the re-measure guards the case where the filler interacts
//! with the string's leading character (a leading combining mark).

use vstd::prelude::*;

use unicode_segmentation::UnicodeSegmentation;

use crate::codec::{encode_text, spec_decode_text, spec_encode_text, utf16_units_of, lemma_le16_len, lemma_le32_len};
use crate::decode_as::DecodeAs;
use crate::example::{Example, ExampleView};
use crate::target::Target;
use crate::text::{chars_of, push_chars, string_from_chars};

verus! {

/// A Unicode unit a string can be sized in.
#[derive(Debug, Clone, Copy, PartialEq, Eq, Structural)]
pub enum SizeUnit {
    /// Encoded byte length.
    ByteLength,
    /// Encoding code units (bytes for utf8/ascii/latin1, 16-bit for utf16, …).
    CodeUnits,
    /// Unicode code points.
    CodePoints,
    /// Unicode scalar values (code points excluding surrogates).
    ScalarValues,
    /// Extended grapheme clusters (UAX #29).
    ExtendedGraphemes,
}

/// Name for the number of extended grapheme clusters (UAX #29) in a string,
/// as `unicode-segmentation` counts them.
pub uninterp spec fn extended_graphemes(s: Seq<char>) -> usize;

/// `UnicodeSegmentation::graphemes(s, true).count()`: the number of extended
/// grapheme clusters, which is named here rather than restated.
#[verifier::external_body]
fn grapheme_count(s: &str) -> (r: usize)
    ensures
        r == extended_graphemes(s@),
{
    s.graphemes(true).count()
}

/// Bytes per encoding code unit.
pub open spec fn spec_code_unit_width(d: DecodeAs) -> nat {
    match d {
        DecodeAs::Utf16Le => 2,
        DecodeAs::Utf32Le => 4,
        _ => 1,
    }
}

fn code_unit_width(d: DecodeAs) -> (r: usize)
    ensures
        r == spec_code_unit_width(d),
{
    match d {
        DecodeAs::Utf16Le => 2,
        DecodeAs::Utf32Le => 4,
        _ => 1,
    }
}

/// The size of `s` in `unit` under text encoding `d`; `None` if `s` is not
/// representable in that encoding.
pub open spec fn spec_measure(unit: SizeUnit, s: Seq<char>, d: DecodeAs) -> Option<nat> {
    match unit {
        SizeUnit::ByteLength => match spec_encode_text(d, s) {
            Some(b) => Some(b.len()),
            None => None,
        },
        SizeUnit::CodeUnits => match spec_encode_text(d, s) {
            Some(b) => Some(b.len() / spec_code_unit_width(d)),
            None => None,
        },
        SizeUnit::CodePoints => Some(s.len()),
        // A Rust string never holds a surrogate: every code point is a scalar.
        SizeUnit::ScalarValues => Some(s.len()),
        SizeUnit::ExtendedGraphemes => Some(extended_graphemes(s) as nat),
    }
}

fn measure(unit: SizeUnit, s: &str, d: DecodeAs) -> (r: Option<usize>)
    ensures
        match r {
            Some(x) => spec_measure(unit, s@, d) == Some(x as nat),
            None => spec_measure(unit, s@, d) is None,
        },
{
    match unit {
        SizeUnit::ByteLength => match encode_text(d, s) {
            Some(b) => Some(b.len()),
            None => None,
        },
        SizeUnit::CodeUnits => match encode_text(d, s) {
            Some(b) => Some(b.len() / code_unit_width(d)),
            None => None,
        },
        SizeUnit::CodePoints | SizeUnit::ScalarValues => Some(chars_of(s).len()),
        SizeUnit::ExtendedGraphemes => Some(grapheme_count(s)),
    }
}

/// `n` copies of `c`.
pub open spec fn repeat(c: char, n: nat) -> Seq<char> {
    Seq::new(n, |i: int| c)
}

/// What sizing makes of one example: the padded, re-measured derived
/// example, or nothing.
pub open spec fn size_one(ex: ExampleView, unit: SizeUnit, target: nat, pad: char) -> Option<ExampleView> {
    let d = ex.decode_as;
    if !d.spec_is_text() {
        None
    } else {
        match spec_decode_text(d, ex.raw) {
            Err(_) => None,
            Ok(s) => match spec_measure(unit, seq![pad], d) {
                None => None,
                Some(pc) => if pc == 0 {
                    None
                } else {
                    match spec_measure(unit, s, d) {
                        None => None,
                        Some(count) => if count > target || (target - count) % (pc as int) != 0 {
                            None
                        } else {
                            let padded = repeat(pad, ((target - count) / (pc as int)) as nat) + s;
                            if spec_measure(unit, padded, d) != Some(target) {
                                None
                            } else {
                                match spec_encode_text(d, padded) {
                                    None => None,
                                    Some(raw) => Some(
                                        ExampleView {
                                            name: ex.name + "__padded"@,
                                            decode_as: d,
                                            invalid_as: None,
                                            description: ex.description,
                                            tags: ex.tags,
                                            unicode_meta: None,
                                            raw,
                                            links: Seq::empty(),
                                        },
                                    ),
                                }
                            }
                        },
                    }
                },
            },
        }
    }
}

/// Sizing a list of examples: each one that can be padded exactly, in order.
pub open spec fn sized(exs: Seq<ExampleView>, unit: SizeUnit, target: nat, pad: char) -> Seq<ExampleView>
    decreases exs.len(),
{
    if exs.len() == 0 {
        Seq::empty()
    } else {
        let before = sized(exs.drop_last(), unit, target, pad);
        match size_one(exs.last(), unit, target, pad) {
            Some(e) => before.push(e),
            None => before,
        }
    }
}

/// The views of a list of examples.
pub open spec fn example_views<T: Target>(v: Seq<Example<T>>) -> Seq<ExampleView> {
    v.map_values(|e: Example<T>| e@)
}

fn size_example<T: Target>(ex: &Example<T>, unit: SizeUnit, target: usize, pad: char) -> (r: Option<Example<T>>)
    requires
        T::spec_supports_sizing(),
    ensures
        match size_one(ex@, unit, target as nat, pad) {
            Some(v) => r matches Some(e) && e@ == v,
            None => r is None,
        },
{
    if !ex.is_text() {
        return None;
    }
    let s = match ex.as_text() {
        Ok(s) => s,
        Err(_) => {
            return None;
        },
    };
    let d = ex.decode_as();
    let pad_arr = [pad];
    let pad_str = string_from_chars(&pad_arr);
    assert(pad_arr@ =~= seq![pad]);
    assert(pad_str@ == seq![pad]);
    let pad_contrib = match measure(unit, pad_str.as_str(), d) {
        Some(n) => n,
        None => {
            return None;
        },
    };
    if pad_contrib == 0 {
        return None;
    }
    let count = match measure(unit, s.as_str(), d) {
        Some(n) => n,
        None => {
            return None;
        },
    };
    if count > target {
        return None;
    }
    let deficit = target - count;
    if deficit % pad_contrib != 0 {
        return None;
    }
    let copies = deficit / pad_contrib;
    let mut padded_chars: Vec<char> = Vec::new();
    let mut i: usize = 0;
    while i < copies
        invariant
            i <= copies,
            padded_chars@ == repeat(pad, i as nat),
        decreases copies - i,
    {
        padded_chars.push(pad);
        i += 1;
        assert(padded_chars@ =~= repeat(pad, i as nat));
    }
    let mut padded = string_from_chars(padded_chars.as_slice());
    push_chars(&mut padded, chars_of(s.as_str()).as_slice());
    match measure(unit, padded.as_str(), d) {
        Some(n) => {
            if n != target {
                return None;
            }
        },
        None => {
            return None;
        },
    }
    let raw = match encode_text(d, padded.as_str()) {
        Some(b) => b,
        None => {
            return None;
        },
    };
    let mut name = crate::text::owned(ex.name());
    push_chars(&mut name, chars_of("__padded").as_slice());
    proof {
        T::lemma_sizing_admits_text(d);
    }
    let tags = crate::text::clone_strings(ex.tags());
    Some(Example::derived(name, d, raw, crate::text::owned(ex.description()), tags, None))
}

/// Derived examples left-padded to exactly `target` of `unit`.
pub(crate) fn size_examples<T: Target>(examples: Vec<Example<T>>, unit: SizeUnit, target: usize, pad: char) -> (r: Vec<Example<T>>)
    requires
        T::spec_supports_sizing(),
    ensures
        example_views(r@) == sized(example_views(examples@), unit, target as nat, pad),
{
    let mut out: Vec<Example<T>> = Vec::new();
    let mut i: usize = 0;
    while i < examples.len()
        invariant
            i <= examples@.len(),
            T::spec_supports_sizing(),
            example_views(out@) == sized(example_views(examples@.take(i as int)), unit, target as nat, pad),
        decreases examples@.len() - i,
    {
        assert(example_views(examples@.take(i + 1)).drop_last() == example_views(examples@.take(i as int)));
        assert(example_views(examples@.take(i + 1)).last() == examples@[i as int]@);
        match size_example(&examples[i], unit, target, pad) {
            Some(e) => {
                let ghost old_out = out@;
                out.push(e);
                assert(example_views(out@) =~= example_views(old_out).push(e@));
            },
            None => {},
        }
        i += 1;
    }
    assert(examples@.take(examples@.len() as int) == examples@);
    out
}


/// What sizing makes of one example is text that measures exactly the target.
pub open spec fn exactly_sized(e: ExampleView, unit: SizeUnit, target: nat) -> bool {
    &&& e.decode_as.spec_is_text()
    &&& e.invalid_as is None
    &&& spec_decode_text(e.decode_as, e.raw) matches Ok(s) && spec_measure(unit, s, e.decode_as) == Some(target)
}

proof fn lemma_size_one_exact(ex: ExampleView, unit: SizeUnit, target: nat, pad: char)
    ensures
        size_one(ex, unit, target, pad) matches Some(v) ==> exactly_sized(v, unit, target),
{
    if let Some(v) = size_one(ex, unit, target, pad) {
        let d = ex.decode_as;
        let s = spec_decode_text(d, ex.raw)->Ok_0;
        let pc = spec_measure(unit, seq![pad], d)->Some_0;
        let count = spec_measure(unit, s, d)->Some_0;
        let padded = repeat(pad, ((target - count) / (pc as int)) as nat) + s;
        crate::codec::law_decode_inverts_encode(d, padded);
    }
}

/// Every example that sizing yields is a valid text example that decodes,
/// in its own encoding, to a string measuring exactly `target` of `unit`.
pub proof fn law_sized_exact(exs: Seq<ExampleView>, unit: SizeUnit, target: nat, pad: char)
    ensures
        forall|i: int| 0 <= i < sized(exs, unit, target, pad).len() ==> exactly_sized(
            #[trigger] sized(exs, unit, target, pad)[i],
            unit,
            target,
        ),
    decreases exs.len(),
{
    if exs.len() > 0 {
        law_sized_exact(exs.drop_last(), unit, target, pad);
        lemma_size_one_exact(exs.last(), unit, target, pad);
        let before = sized(exs.drop_last(), unit, target, pad);
        let r = sized(exs, unit, target, pad);
        assert forall|i: int| 0 <= i < r.len() implies exactly_sized(#[trigger] r[i], unit, target) by {
            if i < before.len() {
                assert(r[i] == before[i]);
            }
        }
    }
}

/// Measured in code units, text counts the units of its encoding: one
/// UTF-32 unit per scalar value, one UTF-16 unit per 16-bit unit, and one
/// byte per byte for the byte-oriented encodings.
pub proof fn law_code_units_count_encoding_units(s: Seq<char>)
    ensures
        spec_measure(SizeUnit::CodeUnits, s, DecodeAs::Utf32Le) == Some(s.len()),
        spec_measure(SizeUnit::ByteLength, s, DecodeAs::Utf32Le) == Some(4 * s.len()),
        spec_measure(SizeUnit::CodeUnits, s, DecodeAs::Utf16Le) == Some(utf16_units_of(s).len()),
        spec_measure(SizeUnit::ByteLength, s, DecodeAs::Utf16Le) == Some(2 * utf16_units_of(s).len()),
        spec_measure(SizeUnit::CodeUnits, s, DecodeAs::Utf8) == spec_measure(SizeUnit::ByteLength, s, DecodeAs::Utf8),
        spec_measure(SizeUnit::CodeUnits, s, DecodeAs::Ascii) == spec_measure(SizeUnit::ByteLength, s, DecodeAs::Ascii),
        spec_measure(SizeUnit::CodeUnits, s, DecodeAs::Latin1) == spec_measure(SizeUnit::ByteLength, s, DecodeAs::Latin1),
{
    lemma_le32_len(s.map_values(|c: char| c as u32));
    lemma_le16_len(utf16_units_of(s));
    assert((4 * s.len()) / 4 == s.len()) by (nonlinear_arith);
    assert((2 * utf16_units_of(s).len()) / 2 == utf16_units_of(s).len()) by (nonlinear_arith);
}

} // verus!
