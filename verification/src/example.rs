//! The [`Example`] result object: one tricky input surfaced through a target
//! type. It owns a copy of the input's data so derived examples (from string
//! sizing) are independent, and is generic over the target type `T` so
//! [`Example::value`] returns the concrete value the caller asked for.

use vstd::prelude::*;

use core::marker::PhantomData;

use crate::corpus::{Input, PairLink, PairHint, UnicodeMeta, views};
use crate::codec::spec_decode_text;
use crate::decode_as::DecodeAs;
use crate::error::{DecodeError, NotTextError};
use crate::links::link_view;
use crate::native::{decode_native, spec_decode, Native};
use crate::target::Target;

verus! {

/// One corpus input, surfaced through the target type `T`.
///
/// The same underlying input can appear under more than one target (a utf8
/// string appears as `Example<String>` and, as bytes, `Example<Vec<u8>>`).
#[derive(Debug)]
pub struct Example<T: Target> {
    name: String,
    decode_as: DecodeAs,
    invalid_as: Option<DecodeAs>,
    description: String,
    tags: Vec<String>,
    unicode_meta: Option<UnicodeMeta>,
    raw: Vec<u8>,
    links: Vec<PairLink>,
    _t: PhantomData<T>,
}

/// The content of an [`Example`].
pub struct ExampleView {
    pub name: Seq<char>,
    pub decode_as: DecodeAs,
    pub invalid_as: Option<DecodeAs>,
    pub description: Seq<char>,
    pub tags: Seq<Seq<char>>,
    pub unicode_meta: Option<UnicodeMeta>,
    pub raw: Seq<u8>,
    pub links: Seq<(Seq<char>, PairHint)>,
}

impl<T: Target> View for Example<T> {
    type V = ExampleView;

    closed spec fn view(&self) -> ExampleView {
        ExampleView {
            name: self.name@,
            decode_as: self.decode_as,
            invalid_as: self.invalid_as,
            description: self.description@,
            tags: views(self.tags@),
            unicode_meta: self.unicode_meta,
            raw: self.raw@,
            links: self.links@.map_values(|l: PairLink| link_view(l)),
        }
    }
}

/// An input with this `decode-as`/`invalid-as` belongs to `T`'s selection: it
/// is a (promoted) member itself, or is an invalid input that would be one.
pub open spec fn member_of<T: Target>(decode_as: DecodeAs, invalid_as: Option<DecodeAs>) -> bool {
    T::spec_accepts(decode_as, true) || (invalid_as matches Some(ia) && T::spec_accepts(ia, false))
}

/// The type a value is decoded against: the input's own `decode-as` when `T`
/// accepts it, otherwise the would-be type of an invalid input.
pub open spec fn effective_as<T: Target>(v: ExampleView) -> DecodeAs {
    if T::spec_accepts(v.decode_as, true) {
        v.decode_as
    } else {
        match v.invalid_as {
            Some(ia) => ia,
            None => v.decode_as,
        }
    }
}

/// The content an input gives an example.
pub open spec fn view_of_input(input: Input) -> ExampleView {
    ExampleView {
        name: input.name@,
        decode_as: input.decode_as,
        invalid_as: input.invalid_as,
        description: input.description@,
        tags: views(input.tags@),
        unicode_meta: input.unicode_meta,
        raw: input.payload@,
        links: input.links@.map_values(|l: PairLink| link_view(l)),
    }
}

fn clone_links(v: &Vec<PairLink>) -> (r: Vec<PairLink>)
    ensures
        r@.map_values(|l: PairLink| link_view(l)) == v@.map_values(|l: PairLink| link_view(l)),
{
    let mut r: Vec<PairLink> = Vec::new();
    let mut i: usize = 0;
    while i < v.len()
        invariant
            i <= v@.len(),
            r@.map_values(|l: PairLink| link_view(l)) == v@.take(i as int).map_values(|l: PairLink| link_view(l)),
        decreases v@.len() - i,
    {
        let ghost old_r = r@;
        r.push(PairLink { name: v[i].name.clone(), hint: v[i].hint });
        assert(r@.map_values(|l: PairLink| link_view(l)) =~= old_r.map_values(|l: PairLink| link_view(l)).push(link_view(v@[i as int])));
        assert(v@.take(i + 1) == v@.take(i as int).push(v@[i as int]));
        assert(v@.take(i + 1).map_values(|l: PairLink| link_view(l)) =~= v@.take(i as int).map_values(|l: PairLink| link_view(l)).push(link_view(v@[i as int])));
        i += 1;
    }
    assert(v@.take(v@.len() as int) == v@);
    r
}

impl<T: Target> Example<T> {
    /// Every example belongs to its target's selection.
    #[verifier::type_invariant]
    spec fn is_member(self) -> bool {
        member_of::<T>(self.decode_as, self.invalid_as)
    }

    pub(crate) fn from_input(input: &Input) -> (r: Example<T>)
        requires
            member_of::<T>(input.decode_as, input.invalid_as),
        ensures
            r@ == view_of_input(*input),
    {
        Example {
            name: input.name.clone(),
            decode_as: input.decode_as,
            invalid_as: input.invalid_as,
            description: input.description.clone(),
            tags: crate::text::clone_strings(input.tags.as_slice()),
            unicode_meta: input.unicode_meta,
            raw: input.payload.clone(),
            links: clone_links(&input.links),
            _t: PhantomData,
        }
    }

    /// A derived example (string sizing). Pairing is dropped because a
    /// transformed payload no longer satisfies the source input's links.
    pub(crate) fn derived(
        name: String,
        decode_as: DecodeAs,
        raw: Vec<u8>,
        description: String,
        tags: Vec<String>,
        unicode_meta: Option<UnicodeMeta>,
    ) -> (r: Example<T>)
        requires
            T::spec_accepts(decode_as, true),
        ensures
            r@ == (ExampleView {
                name: name@,
                decode_as,
                invalid_as: None,
                description: description@,
                tags: views(tags@),
                unicode_meta,
                raw: raw@,
                links: Seq::empty(),
            }),
    {
        let r = Example {
            name,
            decode_as,
            invalid_as: None,
            description,
            tags,
            unicode_meta,
            raw,
            links: Vec::new(),
            _t: PhantomData,
        };
        assert(r@.links =~= Seq::<(Seq<char>, PairHint)>::empty());
        r
    }

    /// The target value for this view of the input.
    ///
    /// For a deliberately-invalid input this attempts the real decode against
    /// its would-be type and therefore returns `Err` (invalid UTF-8, a
    /// truncated float): it never silently hands back bytes. When `T` accepts
    /// the input's own `decode-as` it decodes as itself, so an invalid input
    /// viewed through the `Vec<u8>` sink yields its raw bytes.
    pub fn value(&self) -> (r: Result<T, DecodeError>)
        ensures
            match spec_decode(effective_as::<T>(self@), self@.raw) {
                Err(e) => r == Err::<T, DecodeError>(e),
                Ok(n) => r matches Ok(v) && T::spec_extracted(n, self@.raw, v),
            },
    {
        proof {
            use_type_invariant(self);
        }
        let effective = if T::accepts(self.decode_as, true) {
            self.decode_as
        } else {
            match self.invalid_as {
                Some(ia) => {
                    proof {
                        T::lemma_native_is_promoted(ia);
                    }
                    ia
                },
                None => self.decode_as,
            }
        };
        let native = decode_native(effective, self.raw.as_slice())?;
        proof {
            T::lemma_accepted_is_extractable(effective, self.raw@);
        }
        match T::extract(&native, self.raw.as_slice()) {
            Some(v) => Ok(v),
            None => {
                proof {
                    assert(false);
                }
                Err(DecodeError::WrongLength { decode_as: effective, expected: 0, got: 0 })
            },
        }
    }

    /// False for a deliberately-invalid input (one carrying `invalid-as`).
    pub fn is_valid(&self) -> (r: bool)
        ensures
            r == (self@.invalid_as is None),
    {
        self.invalid_as.is_none()
    }

    /// True if the input's own `decode-as` is a text encoding.
    pub fn is_text(&self) -> (r: bool)
        ensures
            r == self@.decode_as.spec_is_text(),
    {
        self.decode_as.is_text()
    }

    /// Decode as text using the input's own encoding. Text inputs only;
    /// deliberately-invalid inputs are stored as `bytes`, so this returns
    /// `Err` for them.
    pub fn as_text(&self) -> (r: Result<String, NotTextError>)
        ensures
            r is Ok <==> self@.decode_as.spec_is_text() && spec_decode_text(self@.decode_as, self@.raw) is Ok,
            r matches Ok(s) ==> spec_decode_text(self@.decode_as, self@.raw) == Ok::<Seq<char>, crate::error::TextFault>(s@),
            r matches Err(e) ==> e.name@ == self@.name && e.decode_as == self@.decode_as,
    {
        if !self.is_text() {
            return Err(NotTextError { name: self.name.clone(), decode_as: self.decode_as });
        }
        match decode_native(self.decode_as, self.raw.as_slice()) {
            Ok(Native::Text(s)) => Ok(s),
            _ => Err(NotTextError { name: self.name.clone(), decode_as: self.decode_as }),
        }
    }

    /// The input's raw payload: already its correctly-encoded bytes.
    pub fn as_bytes(&self) -> (r: &[u8])
        ensures
            r@ == self@.raw,
    {
        self.raw.as_slice()
    }

    pub fn name(&self) -> (r: &str)
        ensures
            r@ == self@.name,
    {
        self.name.as_str()
    }

    pub fn decode_as(&self) -> (r: DecodeAs)
        ensures
            r == self@.decode_as,
    {
        self.decode_as
    }

    /// The would-be type, for a deliberately-invalid input.
    pub fn invalid_as(&self) -> (r: Option<DecodeAs>)
        ensures
            r == self@.invalid_as,
    {
        self.invalid_as
    }

    pub fn description(&self) -> (r: &str)
        ensures
            r@ == self@.description,
    {
        self.description.as_str()
    }

    pub fn tags(&self) -> (r: &[String])
        ensures
            views(r@) == self@.tags,
    {
        self.tags.as_slice()
    }

    /// Known-good Unicode segmentation counts, when the corpus provides them.
    pub fn unicode_meta(&self) -> (r: Option<&UnicodeMeta>)
        ensures
            match self@.unicode_meta {
                Some(m) => r == Some(&m),
                None => r is None,
            },
    {
        self.unicode_meta.as_ref()
    }

    /// Resolved links to other inputs explicitly paired with this one.
    pub fn pairs(&self) -> (r: &[PairLink])
        ensures
            r@.map_values(|l: PairLink| link_view(l)) == self@.links,
    {
        self.links.as_slice()
    }
}


impl<T: Target> Clone for Example<T> {
    /// A copy of the example, with the same content.
    fn clone(&self) -> (r: Self)
        ensures
            r@ == self@,
    {
        proof {
            use_type_invariant(self);
        }
        Example {
            name: self.name.clone(),
            decode_as: self.decode_as,
            invalid_as: self.invalid_as,
            description: self.description.clone(),
            tags: crate::text::clone_strings(self.tags.as_slice()),
            unicode_meta: self.unicode_meta,
            raw: vstd::slice::slice_to_vec(self.raw.as_slice()),
            links: clone_links(&self.links),
            _t: PhantomData,
        }
    }
}

} // verus!
