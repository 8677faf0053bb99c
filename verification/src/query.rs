//! The [`Query`] builder: select inputs from a corpus through a target type.
//!
//! The target type `T` (the generic on [`Corpus::get`]) determines which
//! inputs are selected; filters narrow the selection further; the three
//! terminal methods ([`Query::values`], [`Query::examples`], [`Query::raw`])
//! choose the element type.

use vstd::prelude::*;

use core::marker::PhantomData;

use crate::decode_as::DecodeAs;

use crate::corpus::{Corpus, Input, views};
use crate::example::{Example, ExampleView, effective_as, view_of_input};
use crate::native::spec_decode;
use crate::sizing::{SizeUnit, example_views, size_examples, size_one, sized};
use crate::target::Target;
use crate::text::{chars_le, chars_less, chars_lt, chars_of, contains_text, owned, lemma_chars_lt_total, lemma_chars_le_transitive,
    lemma_chars_lt_transitive, lemma_chars_lt_irreflexive};

verus! {

/// How to order results.
#[derive(Debug, Clone, Copy, PartialEq, Eq, Structural)]
pub enum Sort {
    /// Sort by input name (the default; deterministic).
    Name,
    /// Preserve corpus order (which is itself name-sorted).
    CorpusOrder,
}

// --- selection -------------------------------------------------------------

/// `input` carries tag `t`.
pub open spec fn has_tag(input: Input, t: Seq<char>) -> bool {
    views(input.tags@).contains(t)
}

/// The name and tag filters: an explicit name list (when given) holds the
/// input's name, every required tag is present and no excluded tag is.
pub open spec fn passes_filters(
    names: Option<Seq<Seq<char>>>,
    tags: Seq<Seq<char>>,
    exclude_tags: Seq<Seq<char>>,
    input: Input,
) -> bool {
    &&& names matches Some(ns) ==> ns.contains(input.name@)
    &&& forall|i: int| 0 <= i < tags.len() ==> has_tag(input, #[trigger] tags[i])
    &&& forall|i: int| 0 <= i < exclude_tags.len() ==> !has_tag(input, #[trigger] exclude_tags[i])
}

/// Membership by target: the input's own `decode-as` is accepted (with or
/// without promotion), or, when invalid inputs are wanted, an invalid input
/// joins the selection of the type it would be (tested without promotion).
pub open spec fn is_member<T: Target>(input: Input, promote: bool, include_invalid: bool) -> bool {
    T::spec_accepts(input.decode_as, promote)
        || (include_invalid && (input.invalid_as matches Some(ia) && T::spec_accepts(ia, false)))
}

/// The inputs a selection keeps, in corpus order.
pub open spec fn select_inputs<T: Target>(
    inputs: Seq<Input>,
    promote: bool,
    include_invalid: bool,
    names: Option<Seq<Seq<char>>>,
    tags: Seq<Seq<char>>,
    exclude_tags: Seq<Seq<char>>,
) -> Seq<Input>
    decreases inputs.len(),
{
    if inputs.len() == 0 {
        Seq::empty()
    } else {
        let before = select_inputs::<T>(inputs.drop_last(), promote, include_invalid, names, tags, exclude_tags);
        let x = inputs.last();
        if is_member::<T>(x, promote, include_invalid) && passes_filters(names, tags, exclude_tags, x) {
            before.push(x)
        } else {
            before
        }
    }
}

/// Every selected input is a member of `T`'s selection.
pub proof fn lemma_selected_are_members<T: Target>(
    inputs: Seq<Input>,
    promote: bool,
    include_invalid: bool,
    names: Option<Seq<Seq<char>>>,
    tags: Seq<Seq<char>>,
    exclude_tags: Seq<Seq<char>>,
)
    ensures
        forall|i: int| 0 <= i < select_inputs::<T>(inputs, promote, include_invalid, names, tags, exclude_tags).len()
            ==> {
            let x = #[trigger] select_inputs::<T>(inputs, promote, include_invalid, names, tags, exclude_tags)[i];
            is_member::<T>(x, promote, include_invalid) && passes_filters(names, tags, exclude_tags, x)
        },
    decreases inputs.len(),
{
    if inputs.len() > 0 {
        lemma_selected_are_members::<T>(inputs.drop_last(), promote, include_invalid, names, tags, exclude_tags);
    }
}

/// An input passes the filters exactly when it carries every required tag
/// and no excluded one (and is named, when names are given).
pub(crate) fn passes(
    names: &Option<Vec<String>>,
    tags: &Vec<String>,
    exclude_tags: &Vec<String>,
    input: &Input,
) -> (r: bool)
    ensures
        r == passes_filters(
            match names {
                Some(ns) => Some(views(ns@)),
                None => None,
            },
            views(tags@),
            views(exclude_tags@),
            *input,
        ),
{
    if let Some(ns) = names {
        if !contains_text(ns.as_slice(), input.name.as_str()) {
            proof {
                assert(!views(ns@).contains(input.name@)) by {
                    if views(ns@).contains(input.name@) {
                        let k = choose|k: int| 0 <= k < views(ns@).len() && views(ns@)[k] == input.name@;
                        assert(ns@[k]@ == input.name@);
                    }
                }
            }
            return false;
        }
        proof {
            let k = choose|k: int| 0 <= k < ns@.len() && #[trigger] ns@[k]@ == input.name@;
            assert(views(ns@)[k] == input.name@);
        }
    }
    let mut i: usize = 0;
    while i < tags.len()
        invariant
            i <= tags@.len(),
            forall|j: int| 0 <= j < i ==> has_tag(*input, #[trigger] views(tags@)[j]),
        decreases tags@.len() - i,
    {
        if !contains_text(input.tags.as_slice(), tags[i].as_str()) {
            proof {
                assert(views(tags@)[i as int] == tags@[i as int]@);
                assert(!has_tag(*input, views(tags@)[i as int])) by {
                    if has_tag(*input, views(tags@)[i as int]) {
                        let k = choose|k: int| 0 <= k < views(input.tags@).len() && views(input.tags@)[k] == tags@[i as int]@;
                        assert(input.tags@[k]@ == tags@[i as int]@);
                    }
                }
            }
            return false;
        }
        proof {
            let k = choose|k: int| 0 <= k < input.tags@.len() && #[trigger] input.tags@[k]@ == tags@[i as int]@;
            assert(views(input.tags@)[k] == views(tags@)[i as int]);
        }
        i += 1;
    }
    let mut i: usize = 0;
    while i < exclude_tags.len()
        invariant
            i <= exclude_tags@.len(),
            forall|j: int| 0 <= j < i ==> !has_tag(*input, #[trigger] views(exclude_tags@)[j]),
        decreases exclude_tags@.len() - i,
    {
        if contains_text(input.tags.as_slice(), exclude_tags[i].as_str()) {
            proof {
                let k = choose|k: int| 0 <= k < input.tags@.len() && #[trigger] input.tags@[k]@ == exclude_tags@[i as int]@;
                assert(views(input.tags@)[k] == views(exclude_tags@)[i as int]);
            }
            return false;
        }
        proof {
            assert(views(exclude_tags@)[i as int] == exclude_tags@[i as int]@);
            assert(!has_tag(*input, views(exclude_tags@)[i as int])) by {
                if has_tag(*input, views(exclude_tags@)[i as int]) {
                    let k = choose|k: int| 0 <= k < views(input.tags@).len() && views(input.tags@)[k] == exclude_tags@[i as int]@;
                    assert(input.tags@[k]@ == exclude_tags@[i as int]@);
                }
            }
        }
        i += 1;
    }
    true
}

/// Target membership of one input.
pub(crate) fn member<T: Target>(input: &Input, promote: bool, include_invalid: bool) -> (r: bool)
    ensures
        r == is_member::<T>(*input, promote, include_invalid),
{
    if T::accepts(input.decode_as, promote) {
        return true;
    }
    match input.invalid_as {
        Some(ia) => include_invalid && T::accepts(ia, false),
        None => false,
    }
}

/// The views of string slices.
pub open spec fn str_views(v: Seq<&str>) -> Seq<Seq<char>> {
    v.map_values(|s: &str| s@)
}

/// Owned copies of string slices.
pub(crate) fn owned_all(v: &[&str]) -> (r: Vec<String>)
    ensures
        views(r@) == str_views(v@),
{
    let mut r: Vec<String> = Vec::new();
    let mut i: usize = 0;
    while i < v.len()
        invariant
            i <= v@.len(),
            views(r@) == str_views(v@.take(i as int)),
        decreases v@.len() - i,
    {
        let ghost before = r@;
        r.push(owned(v[i]));
        assert(views(r@) =~= views(before).push(v@[i as int]@));
        assert(v@.take(i + 1) == v@.take(i as int).push(v@[i as int]));
        assert(str_views(v@.take(i + 1)) =~= str_views(v@.take(i as int)).push(v@[i as int]@));
        i += 1;
    }
    assert(v@.take(v@.len() as int) == v@);
    r
}

// --- ordering by name ------------------------------------------------------

/// Inserts `e` after every element whose name sorts no later than its own.
pub open spec fn insert_by_name(s: Seq<ExampleView>, e: ExampleView) -> Seq<ExampleView>
    decreases s.len(),
{
    if s.len() == 0 {
        seq![e]
    } else if chars_lt(e.name, s.last().name) {
        insert_by_name(s.drop_last(), e).push(s.last())
    } else {
        s.push(e)
    }
}

/// The stable sort of examples by name: each example in turn is inserted
/// after those already placed whose names sort no later.
pub open spec fn sort_by_name(s: Seq<ExampleView>) -> Seq<ExampleView>
    decreases s.len(),
{
    if s.len() == 0 {
        Seq::empty()
    } else {
        insert_by_name(sort_by_name(s.drop_last()), s.last())
    }
}

/// Names appear in ascending order.
pub open spec fn name_sorted(s: Seq<ExampleView>) -> bool {
    forall|i: int, j: int| 0 <= i < j < s.len() ==> chars_le(#[trigger] s[i].name, #[trigger] s[j].name)
}

proof fn lemma_insert_by_name(s: Seq<ExampleView>, e: ExampleView)
    ensures
        insert_by_name(s, e).len() == s.len() + 1,
        insert_by_name(s, e).to_multiset() == s.to_multiset().insert(e),
        name_sorted(s) ==> name_sorted(insert_by_name(s, e)),
    decreases s.len(),
{
    broadcast use vstd::seq_lib::group_to_multiset_ensures;
    let r = insert_by_name(s, e);
    if s.len() == 0 {
        assert(r =~= seq![e]);
        assert(seq![e] =~= Seq::<ExampleView>::empty().push(e));
        assert(s =~= Seq::<ExampleView>::empty());
    } else if chars_lt(e.name, s.last().name) {
        let t = s.drop_last();
        let z = s.last();
        lemma_insert_by_name(t, e);
        let q = insert_by_name(t, e);
        assert(s =~= t.push(z));
        assert(r.to_multiset() =~= s.to_multiset().insert(e));
        if name_sorted(s) {
            assert(name_sorted(t));
            assert forall|i: int, j: int| 0 <= i < j < r.len() implies chars_le(#[trigger] r[i].name, #[trigger] r[j].name) by {
                if j < r.len() - 1 {
                    assert(r[i] == q[i] && r[j] == q[j]);
                } else {
                    assert(r[j] == z);
                    assert(r[i] == q[i]);
                    assert(q.to_multiset().count(q[i]) > 0);
                    assert(q.to_multiset().count(q[i]) == t.to_multiset().insert(e).count(q[i]));
                    if q[i] == e {
                        lemma_chars_lt_irreflexive(z.name);
                        if chars_lt(z.name, e.name) {
                            lemma_chars_lt_transitive(e.name, z.name, e.name);
                            lemma_chars_lt_irreflexive(e.name);
                        }
                    } else {
                        assert(t.to_multiset().count(q[i]) > 0);
                        assert(t.contains(q[i]));
                        let k = choose|k: int| 0 <= k < t.len() && t[k] == q[i];
                        assert(s[k] == t[k] && s[s.len() - 1] == z);
                    }
                }
            }
        }
    } else {
        let z = s.last();
        assert(r == s.push(e));
        if name_sorted(s) {
            assert forall|i: int, j: int| 0 <= i < j < r.len() implies chars_le(#[trigger] r[i].name, #[trigger] r[j].name) by {
                if j < r.len() - 1 {
                    assert(r[i] == s[i] && r[j] == s[j]);
                } else {
                    assert(r[j] == e && r[i] == s[i]);
                    if i < s.len() - 1 {
                        assert(chars_le(s[i].name, s[s.len() - 1].name));
                        lemma_chars_le_transitive(s[i].name, z.name, e.name);
                    }
                }
            }
        }
    }
}

/// Ordering by name yields names in ascending order, and is a permutation
/// of its input.
pub proof fn law_sort_by_name(s: Seq<ExampleView>)
    ensures
        name_sorted(sort_by_name(s)),
        sort_by_name(s).to_multiset() == s.to_multiset(),
        sort_by_name(s).len() == s.len(),
    decreases s.len(),
{
    broadcast use vstd::seq_lib::group_to_multiset_ensures;
    if s.len() == 0 {
        assert(sort_by_name(s) =~= s);
    } else {
        law_sort_by_name(s.drop_last());
        lemma_insert_by_name(sort_by_name(s.drop_last()), s.last());
        assert(s =~= s.drop_last().push(s.last()));
    }
}

/// Orders examples by name, stably.
pub(crate) fn sort_examples<T: Target>(v: Vec<Example<T>>) -> (r: Vec<Example<T>>)
    ensures
        example_views(r@) == sort_by_name(example_views(v@)),
{
    let mut rest = v;
    let mut out: Vec<Example<T>> = Vec::new();
    let ghost orig = example_views(rest@);
    let ghost n = rest@.len();
    while rest.len() > 0
        invariant
            orig == example_views(v@),
            n == v@.len(),
            rest@.len() <= n,
            example_views(rest@) == orig.skip(n - rest@.len()),
            example_views(out@) == sort_by_name(orig.take(n - rest@.len())),
        decreases rest@.len(),
    {
        let ghost done = n - rest@.len();
        let ghost old_rest = rest@;
        let e = rest.remove(0);
        proof {
            assert(e == old_rest[0]);
            assert(example_views(old_rest)[0] == orig.skip(done)[0]);
            assert(e@ == orig[done]);
            assert forall|k: int| 0 <= k < rest@.len() implies #[trigger] example_views(rest@)[k] == orig.skip(done + 1)[k] by {
                assert(rest@[k] == old_rest[k + 1]);
                assert(example_views(old_rest)[k + 1] == orig.skip(done)[k + 1]);
            }
            assert(example_views(rest@) =~= orig.skip(done + 1));
            assert(orig.take(done + 1).drop_last() =~= orig.take(done));
            assert(orig.take(done + 1).last() == e@);
        }
        let en = chars_of(e.name());
        let mut p: usize = out.len();
        let ghost ov = example_views(out@);
        assert(ov.take(p as int) =~= ov);
        assert(ov.skip(p as int) =~= Seq::<ExampleView>::empty());
        while p > 0
            invariant
                p <= out@.len(),
                ov == example_views(out@),
                en@ == e@.name,
                insert_by_name(ov, e@) == insert_by_name(ov.take(p as int), e@) + ov.skip(p as int),
            ensures
                p <= out@.len(),
                insert_by_name(ov, e@) == insert_by_name(ov.take(p as int), e@) + ov.skip(p as int),
                p == 0 || !chars_lt(e@.name, ov[p - 1].name),
            decreases p,
        {
            let qn = chars_of(out[p - 1].name());
            if !chars_less(en.as_slice(), qn.as_slice()) {
                break;
            }
            proof {
                let t = ov.take(p as int);
                assert(t.last() == ov[p - 1]);
                assert(t.drop_last() =~= ov.take(p - 1));
                assert(ov.skip(p - 1) =~= seq![ov[p - 1]] + ov.skip(p as int));
                assert(insert_by_name(ov.take(p - 1), e@).push(ov[p - 1]) + ov.skip(p as int)
                    =~= insert_by_name(ov.take(p - 1), e@) + ov.skip(p - 1));
            }
            p -= 1;
        }
        proof {
            if p == 0 {
                assert(ov.take(0) =~= Seq::<ExampleView>::empty());
                assert(insert_by_name(ov, e@) =~= ov.insert(0, e@));
            } else {
                let t = ov.take(p as int);
                assert(t.last() == ov[p - 1]);
                assert(insert_by_name(t, e@) == t.push(e@));
                assert(insert_by_name(ov, e@) =~= ov.insert(p as int, e@));
            }
        }
        let ghost before = out@;
        out.insert(p, e);
        proof {
            assert(out@ == before.insert(p as int, e));
            assert(example_views(out@) =~= ov.insert(p as int, e@));
        }
    }
    proof {
        assert(orig.take(n as int) =~= orig);
    }
    out
}

// --- building --------------------------------------------------------------

/// What a query's settings are.
pub struct QueryView {
    /// The corpus's inputs, in corpus (name) order.
    pub inputs: Seq<Input>,
    pub tags: Seq<Seq<char>>,
    pub exclude_tags: Seq<Seq<char>>,
    pub names: Option<Seq<Seq<char>>>,
    pub promote: bool,
    pub include_invalid: bool,
    pub max: Option<usize>,
    pub sort: Sort,
    pub size: Option<(SizeUnit, usize)>,
    pub pad: char,
}

/// The first `max` of `s`, when capped.
pub open spec fn capped<A>(s: Seq<A>, max: Option<usize>) -> Seq<A> {
    match max {
        Some(m) => if m < s.len() {
            s.take(m as int)
        } else {
            s
        },
        None => s,
    }
}

/// The examples a query builds: the selected inputs (invalid ones only in
/// the `examples`/`raw` terminals, when wanted and not sizing), sized when a
/// size is set, ordered by name unless asked not to, then capped.
pub open spec fn built<T: Target>(q: QueryView, invalid_mode: bool) -> Seq<ExampleView> {
    let inv = invalid_mode && q.include_invalid && q.size is None;
    let selected = select_inputs::<T>(q.inputs, q.promote, inv, q.names, q.tags, q.exclude_tags);
    let exs = selected.map_values(|i: Input| view_of_input(i));
    let exs = match q.size {
        Some((unit, target)) => sized(exs, unit, target as nat, q.pad),
        None => exs,
    };
    let exs = if q.sort == Sort::Name {
        sort_by_name(exs)
    } else {
        exs
    };
    capped(exs, q.max)
}

/// `v` is the value of `T` that example `e` decodes to.
pub open spec fn value_of<T: Target>(e: ExampleView, v: T) -> bool {
    spec_decode(effective_as::<T>(e), e.raw) matches Ok(n) && T::spec_extracted(n, e.raw, v)
}

/// The examples that decode to a value of `T`, in order.
pub open spec fn decodable<T: Target>(s: Seq<ExampleView>) -> Seq<ExampleView>
    decreases s.len(),
{
    if s.len() == 0 {
        Seq::empty()
    } else {
        let before = decodable::<T>(s.drop_last());
        if spec_decode(effective_as::<T>(s.last()), s.last().raw) is Ok {
            before.push(s.last())
        } else {
            before
        }
    }
}

/// `r` holds, in order, the value of each example of `s` that has one.
pub open spec fn values_of<T: Target>(s: Seq<ExampleView>, r: Seq<T>) -> bool {
    &&& r.len() == decodable::<T>(s).len()
    &&& forall|i: int| 0 <= i < r.len() ==> value_of::<T>(#[trigger] decodable::<T>(s)[i], r[i])
}

/// The values of examples, skipping those that do not decode.
pub(crate) fn example_values<T: Target>(exs: &Vec<Example<T>>) -> (r: Vec<T>)
    ensures
        values_of::<T>(example_views(exs@), r@),
{
    let mut r: Vec<T> = Vec::new();
    let mut i: usize = 0;
    while i < exs.len()
        invariant
            i <= exs@.len(),
            values_of::<T>(example_views(exs@.take(i as int)), r@),
        decreases exs@.len() - i,
    {
        let ghost s = example_views(exs@.take(i + 1));
        proof {
            assert(s.drop_last() =~= example_views(exs@.take(i as int)));
            assert(s.last() == exs@[i as int]@);
        }
        match exs[i].value() {
            Ok(v) => {
                let ghost before = r@;
                r.push(v);
                proof {
                    assert(decodable::<T>(s) == decodable::<T>(s.drop_last()).push(s.last()));
                    assert forall|k: int| 0 <= k < r@.len() implies value_of::<T>(#[trigger] decodable::<T>(s)[k], r@[k]) by {
                        if k < before.len() {
                            assert(decodable::<T>(s)[k] == decodable::<T>(s.drop_last())[k]);
                        }
                    }
                }
            },
            Err(_) => {},
        }
        i += 1;
    }
    assert(exs@.take(exs@.len() as int) == exs@);
    r
}

/// The raw payloads of examples, in order.
pub(crate) fn example_raws<T: Target>(exs: &Vec<Example<T>>) -> (r: Vec<Vec<u8>>)
    ensures
        r@.len() == exs@.len(),
        forall|i: int| 0 <= i < r@.len() ==> #[trigger] r@[i]@ == exs@[i]@.raw,
{
    let mut r: Vec<Vec<u8>> = Vec::new();
    let mut i: usize = 0;
    while i < exs.len()
        invariant
            i <= exs@.len(),
            r@.len() == i,
            forall|k: int| 0 <= k < i ==> #[trigger] r@[k]@ == exs@[k]@.raw,
        decreases exs@.len() - i,
    {
        r.push(vstd::slice::slice_to_vec(exs[i].as_bytes()));
        i += 1;
    }
    r
}

/// A pending selection over a [`Corpus`], producing values of type `T`.
///
/// Created by [`Corpus::get`]. Chain filters, then call a terminal.
pub struct Query<'c, T: Target> {
    corpus: &'c Corpus,
    tags: Vec<String>,
    exclude_tags: Vec<String>,
    names: Option<Vec<String>>,
    promote: bool,
    include_invalid: bool,
    max: Option<usize>,
    sort: Sort,
    size: Option<(SizeUnit, usize)>,
    pad: char,
    _t: PhantomData<T>,
}

impl<'c, T: Target> View for Query<'c, T> {
    type V = QueryView;

    closed spec fn view(&self) -> QueryView {
        QueryView {
            inputs: self.corpus.spec_inputs(),
            tags: views(self.tags@),
            exclude_tags: views(self.exclude_tags@),
            names: match self.names {
                Some(ns) => Some(views(ns@)),
                None => None,
            },
            promote: self.promote,
            include_invalid: self.include_invalid,
            max: self.max,
            sort: self.sort,
            size: self.size,
            pad: self.pad,
        }
    }
}

/// A fresh query: no filters, promotion on, invalid inputs included, ordered
/// by name, uncapped, unsized, padding with `a`.
pub open spec fn fresh_query(inputs: Seq<Input>) -> QueryView {
    QueryView {
        inputs,
        tags: Seq::empty(),
        exclude_tags: Seq::empty(),
        names: None,
        promote: true,
        include_invalid: true,
        max: None,
        sort: Sort::Name,
        size: None,
        pad: 'a',
    }
}

impl<'c, T: Target> Query<'c, T> {
    /// Sizing is only ever set for a target that supports it.
    #[verifier::type_invariant]
    spec fn sizing_allowed(self) -> bool {
        self.size is Some ==> T::spec_supports_sizing()
    }

    pub(crate) fn new(corpus: &'c Corpus) -> (r: Self)
        ensures
            r@ == fresh_query(corpus.spec_inputs()),
    {
        let r = Query {
            corpus,
            tags: Vec::new(),
            exclude_tags: Vec::new(),
            names: None,
            promote: true,
            include_invalid: true,
            max: None,
            sort: Sort::Name,
            size: None,
            pad: 'a',
            _t: PhantomData,
        };
        assert(r@.tags =~= Seq::<Seq<char>>::empty());
        assert(r@.exclude_tags =~= Seq::<Seq<char>>::empty());
        r
    }

    /// Require all of these tags (logical AND).
    pub fn tags<const N: usize>(self, tags: [&str; N]) -> (r: Self)
        ensures
            r@ == (QueryView { tags: str_views(tags@), ..self@ }),
    {
        proof {
            use_type_invariant(&self);
        }
        let tags = owned_all(tags.as_slice());
        Query { tags, ..self }
    }

    /// Exclude any input carrying any of these tags.
    pub fn exclude_tags<const N: usize>(self, tags: [&str; N]) -> (r: Self)
        ensures
            r@ == (QueryView { exclude_tags: str_views(tags@), ..self@ }),
    {
        proof {
            use_type_invariant(&self);
        }
        let exclude_tags = owned_all(tags.as_slice());
        Query { exclude_tags, ..self }
    }

    /// Restrict to an explicit set of input names.
    pub fn names<const N: usize>(self, names: [&str; N]) -> (r: Self)
        ensures
            r@ == (QueryView { names: Some(str_views(names@)), ..self@ }),
    {
        proof {
            use_type_invariant(&self);
        }
        let names = Some(owned_all(names.as_slice()));
        Query { names, ..self }
    }

    /// Enable/disable lossless promotion. Default `true`.
    pub fn promote(self, yes: bool) -> (r: Self)
        ensures
            r@ == (QueryView { promote: yes, ..self@ }),
    {
        proof {
            use_type_invariant(&self);
        }
        Query { promote: yes, ..self }
    }

    /// Include deliberately-invalid inputs in the `examples`/`raw` views.
    /// Default `true`. Has no effect on [`Query::values`] (invalid inputs
    /// have no value).
    pub fn include_invalid(self, yes: bool) -> (r: Self)
        ensures
            r@ == (QueryView { include_invalid: yes, ..self@ }),
    {
        proof {
            use_type_invariant(&self);
        }
        Query { include_invalid: yes, ..self }
    }

    /// Cap the number of results.
    pub fn max(self, n: usize) -> (r: Self)
        ensures
            r@ == (QueryView { max: Some(n), ..self@ }),
    {
        proof {
            use_type_invariant(&self);
        }
        Query { max: Some(n), ..self }
    }

    /// Set the result ordering. Default [`Sort::Name`].
    pub fn sort(self, sort: Sort) -> (r: Self)
        ensures
            r@ == (QueryView { sort, ..self@ }),
    {
        proof {
            use_type_invariant(&self);
        }
        Query { sort, ..self }
    }

    /// Left-pad text to exactly `target` of a Unicode `unit`. Only the
    /// `String` target supports sizing.
    pub fn size(self, unit: SizeUnit, target: usize) -> (r: Self)
        requires
            T::spec_supports_sizing(),
        ensures
            r@ == (QueryView { size: Some((unit, target)), ..self@ }),
    {
        Query { size: Some((unit, target)), ..self }
    }

    /// Set the padding character used by [`Query::size`]. Default `'a'`.
    pub fn pad(self, c: char) -> (r: Self)
        ensures
            r@ == (QueryView { pad: c, ..self@ }),
    {
        proof {
            use_type_invariant(&self);
        }
        Query { pad: c, ..self }
    }

    // --- terminals ---------------------------------------------------------

    /// The natural target values. Deliberately-invalid inputs are excluded
    /// (they have no value), so the result is homogeneous `Vec<T>`.
    pub fn values(self) -> (r: Vec<T>)
        ensures
            values_of::<T>(built::<T>(self@, false), r@),
    {
        let exs = self.build(false);
        example_values(&exs)
    }

    /// Rich [`Example`] objects. Includes invalid inputs when
    /// `include_invalid`.
    pub fn examples(self) -> (r: Vec<Example<T>>)
        ensures
            example_views(r@) == built::<T>(self@, true),
    {
        self.build(true)
    }

    /// Each input's raw payload bytes. Includes invalid inputs when
    /// `include_invalid`.
    pub fn raw(self) -> (r: Vec<Vec<u8>>)
        ensures
            r@.len() == built::<T>(self@, true).len(),
            forall|i: int| 0 <= i < r@.len() ==> #[trigger] r@[i]@ == built::<T>(self@, true)[i].raw,
    {
        let exs = self.build(true);
        example_raws(&exs)
    }

    // --- internals ---------------------------------------------------------

    /// The selected inputs as examples, in corpus order.
    fn select(&self, include_invalid: bool) -> (r: Vec<Example<T>>)
        ensures
            example_views(r@) == select_inputs::<T>(
                self@.inputs, self@.promote, include_invalid, self@.names, self@.tags, self@.exclude_tags,
            ).map_values(|i: Input| view_of_input(i)),
    {
        let inputs = self.corpus.inputs();
        let mut out: Vec<Example<T>> = Vec::new();
        let mut k: usize = 0;
        while k < inputs.len()
            invariant
                k <= inputs@.len(),
                inputs@ == self@.inputs,
                example_views(out@) == select_inputs::<T>(
                    inputs@.take(k as int), self@.promote, include_invalid, self@.names, self@.tags, self@.exclude_tags,
                ).map_values(|i: Input| view_of_input(i)),
            decreases inputs@.len() - k,
        {
            let input = &inputs[k];
            proof {
                assert(inputs@.take(k + 1).drop_last() =~= inputs@.take(k as int));
                assert(inputs@.take(k + 1).last() == *input);
            }
            if member::<T>(input, self.promote, include_invalid)
                && passes(&self.names, &self.tags, &self.exclude_tags, input) {
                proof {
                    if T::spec_accepts(input.decode_as, self.promote) && !self.promote {
                        T::lemma_native_is_promoted(input.decode_as);
                    }
                }
                let ghost before = out@;
                let e = Example::from_input(input);
                out.push(e);
                proof {
                    let sel = select_inputs::<T>(
                        inputs@.take(k + 1), self@.promote, include_invalid, self@.names, self@.tags, self@.exclude_tags,
                    );
                    let sel0 = select_inputs::<T>(
                        inputs@.take(k as int), self@.promote, include_invalid, self@.names, self@.tags, self@.exclude_tags,
                    );
                    assert(sel == sel0.push(*input));
                    assert(sel.map_values(|i: Input| view_of_input(i)) =~= sel0.map_values(|i: Input| view_of_input(i)).push(view_of_input(*input)));
                    assert(example_views(out@) =~= example_views(before).push(e@));
                }
            }
            k += 1;
        }
        proof {
            assert(inputs@.take(inputs@.len() as int) =~= inputs@);
        }
        out
    }

    /// Select, build examples, size, sort, and cap. `invalid_mode` is true
    /// for the example/raw terminals; invalid inputs are only ever surfaced
    /// there (and only when `include_invalid` and not sizing).
    fn build(&self, invalid_mode: bool) -> (r: Vec<Example<T>>)
        ensures
            example_views(r@) == built::<T>(self@, invalid_mode),
    {
        proof {
            use_type_invariant(self);
        }
        let select_invalid = invalid_mode && self.include_invalid && self.size.is_none();
        let mut examples = self.select(select_invalid);
        if let Some((unit, target)) = self.size {
            examples = size_examples(examples, unit, target, self.pad);
        }
        if self.sort == Sort::Name {
            examples = sort_examples(examples);
        }
        if let Some(max) = self.max {
            let ghost before = examples@;
            examples.truncate(max);
            proof {
                if max < before.len() {
                    assert(example_views(examples@) =~= example_views(before).take(max as int));
                } else {
                    assert(examples@ =~= before);
                }
            }
        }
        examples
    }
}


// --- laws --------------------------------------------------------------------

proof fn lemma_capped<A>(s: Seq<A>, max: Option<usize>)
    ensures
        capped(s, max).len() <= s.len(),
        max matches Some(m) ==> capped(s, max).len() <= m,
        forall|i: int| 0 <= i < capped(s, max).len() ==> #[trigger] capped(s, max)[i] == s[i],
{
}

proof fn lemma_select_len<T: Target>(
    inputs: Seq<Input>,
    promote: bool,
    names: Option<Seq<Seq<char>>>,
    tags: Seq<Seq<char>>,
    exclude_tags: Seq<Seq<char>>,
)
    ensures
        select_inputs::<T>(inputs, promote, false, names, tags, exclude_tags).len()
            <= select_inputs::<T>(inputs, promote, true, names, tags, exclude_tags).len(),
    decreases inputs.len(),
{
    if inputs.len() > 0 {
        lemma_select_len::<T>(inputs.drop_last(), promote, names, tags, exclude_tags);
    }
}

proof fn lemma_decodable_len<T: Target>(s: Seq<ExampleView>)
    ensures
        decodable::<T>(s).len() <= s.len(),
    decreases s.len(),
{
    if s.len() > 0 {
        lemma_decodable_len::<T>(s.drop_last());
    }
}

/// Every example of a sized list has the encoding of some example of the
/// given list.
proof fn lemma_sized_from(exs: Seq<ExampleView>, unit: SizeUnit, target: nat, pad: char)
    ensures
        forall|i: int| 0 <= i < sized(exs, unit, target, pad).len() ==> exists|k: int|
            0 <= k < exs.len() && (#[trigger] sized(exs, unit, target, pad)[i]).decode_as == exs[k].decode_as,
        sized(exs, unit, target, pad).len() <= exs.len(),
    decreases exs.len(),
{
    if exs.len() > 0 {
        lemma_sized_from(exs.drop_last(), unit, target, pad);
        let before = sized(exs.drop_last(), unit, target, pad);
        let r = sized(exs, unit, target, pad);
        assert forall|i: int| 0 <= i < r.len() implies exists|k: int| 0 <= k < exs.len() && (#[trigger] r[i]).decode_as == exs[k].decode_as by {
            if i < before.len() {
                assert(r[i] == before[i]);
                let k = choose|k: int| 0 <= k < exs.drop_last().len() && before[i].decode_as == exs.drop_last()[k].decode_as;
                assert(exs[k] == exs.drop_last()[k]);
            } else {
                assert(r[i].decode_as == exs.last().decode_as);
                assert(r[i].decode_as == exs[exs.len() - 1].decode_as);
            }
        }
    }
}

/// A query's results are capped at its maximum.
pub proof fn law_query_capped<T: Target>(q: QueryView, invalid_mode: bool)
    ensures
        q.max matches Some(m) ==> built::<T>(q, invalid_mode).len() <= m,
{
    let inv = invalid_mode && q.include_invalid && q.size is None;
    let exs = select_inputs::<T>(q.inputs, q.promote, inv, q.names, q.tags, q.exclude_tags).map_values(|i: Input| view_of_input(i));
    let exs = match q.size {
        Some((unit, target)) => sized(exs, unit, target as nat, q.pad),
        None => exs,
    };
    let exs = if q.sort == Sort::Name { sort_by_name(exs) } else { exs };
    lemma_capped(exs, q.max);
}

/// Ordered by name (the default), a query's results come in ascending name
/// order.
pub proof fn law_query_sorted<T: Target>(q: QueryView, invalid_mode: bool)
    requires
        q.sort == Sort::Name,
    ensures
        name_sorted(built::<T>(q, invalid_mode)),
{
    let inv = invalid_mode && q.include_invalid && q.size is None;
    let exs = select_inputs::<T>(q.inputs, q.promote, inv, q.names, q.tags, q.exclude_tags).map_values(|i: Input| view_of_input(i));
    let exs = match q.size {
        Some((unit, target)) => sized(exs, unit, target as nat, q.pad),
        None => exs,
    };
    law_sort_by_name(exs);
    let s = sort_by_name(exs);
    lemma_capped(s, q.max);
    let r = built::<T>(q, invalid_mode);
    assert forall|i: int, j: int| 0 <= i < j < r.len() implies chars_le(#[trigger] r[i].name, #[trigger] r[j].name) by {
        assert(r[i] == s[i] && r[j] == s[j]);
    }
}

/// A query never yields more values than raw payloads: the value view
/// leaves out invalid inputs and undecodable examples, the raw view keeps
/// them.
pub proof fn law_values_within_raw<T: Target>(q: QueryView)
    ensures
        decodable::<T>(built::<T>(q, false)).len() <= built::<T>(q, true).len(),
{
    let sel_v = select_inputs::<T>(q.inputs, q.promote, false, q.names, q.tags, q.exclude_tags);
    let inv = q.include_invalid && q.size is None;
    let sel_r = select_inputs::<T>(q.inputs, q.promote, inv, q.names, q.tags, q.exclude_tags);
    lemma_select_len::<T>(q.inputs, q.promote, q.names, q.tags, q.exclude_tags);
    let ev = sel_v.map_values(|i: Input| view_of_input(i));
    let er = sel_r.map_values(|i: Input| view_of_input(i));
    let (sv, sr) = match q.size {
        Some((unit, target)) => (sized(ev, unit, target as nat, q.pad), sized(er, unit, target as nat, q.pad)),
        None => (ev, er),
    };
    assert(sv.len() <= sr.len());
    law_sort_by_name(sv);
    law_sort_by_name(sr);
    let (ov, or) = if q.sort == Sort::Name { (sort_by_name(sv), sort_by_name(sr)) } else { (sv, sr) };
    lemma_capped(ov, q.max);
    lemma_capped(or, q.max);
    lemma_decodable_len::<T>(built::<T>(q, false));
}

/// Promotion only widens a selection: every input selected without
/// promotion is also selected with it.
pub proof fn law_promotion_widens_selection<T: Target>(
    inputs: Seq<Input>,
    include_invalid: bool,
    names: Option<Seq<Seq<char>>>,
    tags: Seq<Seq<char>>,
    exclude_tags: Seq<Seq<char>>,
)
    ensures
        forall|x: Input| select_inputs::<T>(inputs, false, include_invalid, names, tags, exclude_tags).contains(x)
            ==> select_inputs::<T>(inputs, true, include_invalid, names, tags, exclude_tags).contains(x),
    decreases inputs.len(),
{
    if inputs.len() > 0 {
        law_promotion_widens_selection::<T>(inputs.drop_last(), include_invalid, names, tags, exclude_tags);
        let off = select_inputs::<T>(inputs, false, include_invalid, names, tags, exclude_tags);
        let on = select_inputs::<T>(inputs, true, include_invalid, names, tags, exclude_tags);
        let off0 = select_inputs::<T>(inputs.drop_last(), false, include_invalid, names, tags, exclude_tags);
        let on0 = select_inputs::<T>(inputs.drop_last(), true, include_invalid, names, tags, exclude_tags);
        let z = inputs.last();
        if T::spec_accepts(z.decode_as, false) {
            T::lemma_native_is_promoted(z.decode_as);
        }
        assert forall|x: Input| off.contains(x) implies on.contains(x) by {
            let k = choose|k: int| 0 <= k < off.len() && off[k] == x;
            if k < off0.len() {
                assert(off0[k] == x);
                assert(off0.contains(x));
                let m = choose|m: int| 0 <= m < on0.len() && on0[m] == x;
                assert(on[m] == x);
            } else {
                assert(x == z);
                assert(on[on.len() - 1] == z);
            }
        }
    }
}

/// Without invalid inputs (the value view always, the others when
/// `include_invalid` is off) every result is a member of the target's own
/// selection: its `decode-as` is accepted under the query's promotion.
pub proof fn law_results_accept_their_type<T: Target>(q: QueryView, invalid_mode: bool)
    requires
        !invalid_mode || !q.include_invalid,
    ensures
        forall|i: int| 0 <= i < built::<T>(q, invalid_mode).len() ==> T::spec_accepts(
            (#[trigger] built::<T>(q, invalid_mode)[i]).decode_as,
            q.promote,
        ),
{
    broadcast use vstd::seq_lib::group_to_multiset_ensures;

    let sel = select_inputs::<T>(q.inputs, q.promote, false, q.names, q.tags, q.exclude_tags);
    lemma_selected_are_members::<T>(q.inputs, q.promote, false, q.names, q.tags, q.exclude_tags);
    let e0 = sel.map_values(|i: Input| view_of_input(i));
    assert forall|k: int| 0 <= k < e0.len() implies T::spec_accepts(#[trigger] e0[k].decode_as, q.promote) by {
        assert(e0[k] == view_of_input(sel[k]));
        assert(is_member::<T>(sel[k], q.promote, false));
    }
    let e1 = match q.size {
        Some((unit, target)) => sized(e0, unit, target as nat, q.pad),
        None => e0,
    };
    assert forall|k: int| 0 <= k < e1.len() implies T::spec_accepts(#[trigger] e1[k].decode_as, q.promote) by {
        match q.size {
            Some((unit, target)) => {
                lemma_sized_from(e0, unit, target as nat, q.pad);
                let j = choose|j: int| 0 <= j < e0.len() && e1[k].decode_as == e0[j].decode_as;
                assert(T::spec_accepts(e0[j].decode_as, q.promote));
            },
            None => {},
        }
    }
    let e2 = if q.sort == Sort::Name { sort_by_name(e1) } else { e1 };
    law_sort_by_name(e1);
    assert forall|k: int| 0 <= k < e2.len() implies T::spec_accepts(#[trigger] e2[k].decode_as, q.promote) by {
        if q.sort == Sort::Name {
            assert(e2.contains(e2[k]));
            assert(e2.to_multiset().count(e2[k]) > 0);
            assert(e1.contains(e2[k]));
            let j = choose|j: int| 0 <= j < e1.len() && e1[j] == e2[k];
            assert(T::spec_accepts(e1[j].decode_as, q.promote));
        }
    }
    lemma_capped(e2, q.max);
}

/// An input is selected exactly when it is one of the inputs, a member of
/// `T`'s selection and passes the filters.
pub proof fn lemma_select_contains<T: Target>(
    inputs: Seq<Input>,
    promote: bool,
    include_invalid: bool,
    names: Option<Seq<Seq<char>>>,
    tags: Seq<Seq<char>>,
    exclude_tags: Seq<Seq<char>>,
    x: Input,
)
    ensures
        select_inputs::<T>(inputs, promote, include_invalid, names, tags, exclude_tags).contains(x) <==> inputs.contains(x)
            && is_member::<T>(x, promote, include_invalid) && passes_filters(names, tags, exclude_tags, x),
    decreases inputs.len(),
{
    if inputs.len() > 0 {
        let d = inputs.drop_last();
        let z = inputs.last();
        lemma_select_contains::<T>(d, promote, include_invalid, names, tags, exclude_tags, x);
        let s0 = select_inputs::<T>(d, promote, include_invalid, names, tags, exclude_tags);
        let s = select_inputs::<T>(inputs, promote, include_invalid, names, tags, exclude_tags);
        assert(inputs =~= d.push(z));
        assert(inputs.contains(x) <==> d.contains(x) || x == z) by {
            if inputs.contains(x) {
                let k = choose|k: int| 0 <= k < inputs.len() && inputs[k] == x;
                if k < d.len() {
                    assert(d[k] == x);
                }
            }
            if d.contains(x) {
                let k = choose|k: int| 0 <= k < d.len() && d[k] == x;
                assert(inputs[k] == x);
            }
            if x == z {
                assert(inputs[inputs.len() - 1] == x);
            }
        }
        if is_member::<T>(z, promote, include_invalid) && passes_filters(names, tags, exclude_tags, z) {
            assert(s == s0.push(z));
            assert(s.contains(x) <==> s0.contains(x) || x == z) by {
                if s.contains(x) {
                    let k = choose|k: int| 0 <= k < s.len() && s[k] == x;
                    if k < s0.len() {
                        assert(s0[k] == x);
                    }
                }
                if s0.contains(x) {
                    let k = choose|k: int| 0 <= k < s0.len() && s0[k] == x;
                    assert(s[k] == x);
                }
                if x == z {
                    assert(s[s.len() - 1] == x);
                }
            }
        } else {
            assert(s == s0);
        }
    } else {
        assert(!inputs.contains(x));
    }
}

/// What sizing makes of one example: itself when no size is set.
pub open spec fn sized_step(q: QueryView, v: ExampleView) -> Option<ExampleView> {
    match q.size {
        Some((unit, target)) => size_one(v, unit, target as nat, q.pad),
        None => Some(v),
    }
}

/// A sized sequence holds exactly the examples that sizing makes of the
/// examples it is built from.
proof fn lemma_sized_contains(exs: Seq<ExampleView>, unit: SizeUnit, target: nat, pad: char, e: ExampleView)
    ensures
        sized(exs, unit, target, pad).contains(e) <==> exists|k: int|
            0 <= k < exs.len() && #[trigger] size_one(exs[k], unit, target, pad) == Some(e),
    decreases exs.len(),
{
    if exs.len() > 0 {
        let d = exs.drop_last();
        lemma_sized_contains(d, unit, target, pad, e);
        let before = sized(d, unit, target, pad);
        let r = sized(exs, unit, target, pad);
        if r.contains(e) {
            let i = choose|i: int| 0 <= i < r.len() && r[i] == e;
            if i < before.len() {
                assert(r[i] == before[i]);
                assert(before.contains(e));
                let k = choose|k: int| 0 <= k < d.len() && #[trigger] size_one(d[k], unit, target, pad) == Some(e);
                assert(exs[k] == d[k]);
            } else {
                assert(size_one(exs[exs.len() - 1], unit, target, pad) == Some(e));
            }
        }
        if exists|k: int| 0 <= k < exs.len() && #[trigger] size_one(exs[k], unit, target, pad) == Some(e) {
            let k = choose|k: int| 0 <= k < exs.len() && #[trigger] size_one(exs[k], unit, target, pad) == Some(e);
            if k < d.len() {
                assert(d[k] == exs[k]);
                assert(before.contains(e));
                let i = choose|i: int| 0 <= i < before.len() && before[i] == e;
                assert(r[i] == before[i]);
            } else {
                assert(r[before.len() as int] == e);
            }
        }
    }
}

/// With no cap, a query's examples are exactly what sizing (when set) makes
/// of the views of the inputs it selects (in whichever order).
proof fn lemma_built_contains<T: Target>(q: QueryView, invalid_mode: bool, inv: bool, e: ExampleView)
    requires
        q.max is None,
        inv == (invalid_mode && q.include_invalid && q.size is None),
    ensures
        built::<T>(q, invalid_mode).contains(e) <==> exists|x: Input|
            #[trigger] select_inputs::<T>(q.inputs, q.promote, inv, q.names, q.tags, q.exclude_tags).contains(x)
                && sized_step(q, view_of_input(x)) == Some(e),
{
    broadcast use vstd::seq_lib::group_to_multiset_ensures;

    let sel = select_inputs::<T>(q.inputs, q.promote, inv, q.names, q.tags, q.exclude_tags);
    let views = sel.map_values(|i: Input| view_of_input(i));
    let exs = match q.size {
        Some((unit, target)) => sized(views, unit, target as nat, q.pad),
        None => views,
    };
    law_sort_by_name(exs);
    let b = built::<T>(q, invalid_mode);
    assert(b.contains(e) <==> exs.contains(e)) by {
        if q.sort == Sort::Name {
            assert(b == sort_by_name(exs));
            assert(b.to_multiset().count(e) == exs.to_multiset().count(e));
        } else {
            assert(b == exs);
        }
    }
    let found = exists|k: int| 0 <= k < views.len() && #[trigger] sized_step(q, views[k]) == Some(e);
    assert(exs.contains(e) <==> found) by {
        match q.size {
            Some((unit, target)) => {
                lemma_sized_contains(views, unit, target as nat, q.pad, e);
                if exs.contains(e) {
                    let k = choose|k: int| 0 <= k < views.len() && #[trigger] size_one(views[k], unit, target as nat, q.pad) == Some(e);
                    assert(sized_step(q, views[k]) == Some(e));
                }
                if found {
                    let k = choose|k: int| 0 <= k < views.len() && #[trigger] sized_step(q, views[k]) == Some(e);
                    assert(size_one(views[k], unit, target as nat, q.pad) == Some(e));
                }
            },
            None => {
                if exs.contains(e) {
                    let k = choose|k: int| 0 <= k < exs.len() && exs[k] == e;
                    assert(sized_step(q, views[k]) == Some(e));
                }
                if found {
                    let k = choose|k: int| 0 <= k < views.len() && #[trigger] sized_step(q, views[k]) == Some(e);
                    assert(exs[k] == e);
                }
            },
        }
    }
    if found {
        let k = choose|k: int| 0 <= k < views.len() && #[trigger] sized_step(q, views[k]) == Some(e);
        assert(views[k] == view_of_input(sel[k]));
        assert(sel.contains(sel[k]));
    }
    if exists|x: Input| #[trigger] sel.contains(x) && sized_step(q, view_of_input(x)) == Some(e) {
        let x = choose|x: Input| #[trigger] sel.contains(x) && sized_step(q, view_of_input(x)) == Some(e);
        let k = choose|k: int| 0 <= k < sel.len() && sel[k] == x;
        assert(views[k] == view_of_input(x));
    }
}

/// The two sort modes keep the same examples: ordering by name only permutes
/// the corpus-order results (when no cap cuts them), and yields names in
/// ascending order.
pub proof fn law_sort_modes_agree<T: Target>(q: QueryView, invalid_mode: bool)
    requires
        q.max is None,
    ensures
        name_sorted(built::<T>(QueryView { sort: Sort::Name, ..q }, invalid_mode)),
        built::<T>(QueryView { sort: Sort::Name, ..q }, invalid_mode).to_multiset()
            == built::<T>(QueryView { sort: Sort::CorpusOrder, ..q }, invalid_mode).to_multiset(),
{
    let qc = QueryView { sort: Sort::CorpusOrder, ..q };
    let inv = invalid_mode && q.include_invalid && q.size is None;
    let exs = select_inputs::<T>(q.inputs, q.promote, inv, q.names, q.tags, q.exclude_tags).map_values(|i: Input| view_of_input(i));
    let exs = match q.size {
        Some((unit, target)) => sized(exs, unit, target as nat, q.pad),
        None => exs,
    };
    assert(built::<T>(qc, invalid_mode) == exs);
    law_sort_by_name(exs);
}

/// `values` takes no invalid inputs whatever `include_invalid` says: its
/// examples are exactly those of the query with invalid inputs turned off.
pub proof fn law_values_are_valid_examples<T: Target>(q: QueryView, include_invalid: bool)
    ensures
        built::<T>(QueryView { include_invalid, ..q }, false) == built::<T>(q, false),
        built::<T>(q, false) == built::<T>(QueryView { include_invalid: false, ..q }, true),
{
}

/// Turning invalid inputs off only drops examples: every example of a query
/// without invalid inputs is also an example of the same query with them.
pub proof fn law_include_invalid_widens<T: Target>(q: QueryView)
    requires
        q.max is None,
    ensures
        forall|e: ExampleView| built::<T>(QueryView { include_invalid: false, ..q }, true).contains(e)
            ==> built::<T>(QueryView { include_invalid: true, ..q }, true).contains(e),
{
    let off = QueryView { include_invalid: false, ..q };
    let on = QueryView { include_invalid: true, ..q };
    if q.size is None {
        assert forall|e: ExampleView| built::<T>(off, true).contains(e) implies built::<T>(on, true).contains(e) by {
            lemma_built_contains::<T>(off, true, false, e);
            lemma_built_contains::<T>(on, true, true, e);
            let x = choose|x: Input| #[trigger] select_inputs::<T>(q.inputs, q.promote, false, q.names, q.tags, q.exclude_tags)
                .contains(x) && view_of_input(x) == e;
            lemma_select_contains::<T>(q.inputs, q.promote, false, q.names, q.tags, q.exclude_tags, x);
            lemma_select_contains::<T>(q.inputs, q.promote, true, q.names, q.tags, q.exclude_tags, x);
            assert(select_inputs::<T>(q.inputs, q.promote, true, q.names, q.tags, q.exclude_tags).contains(x));
        }
    } else {
        assert(built::<T>(off, true) == built::<T>(on, true));
    }
}

/// Required tags combine with AND: with no cap, a query restricted to the
/// tags `ts` keeps exactly the examples of the unrestricted query that carry
/// every one of them (sizing keeps an example's tags).
pub proof fn law_tags_filter<T: Target>(q: QueryView, ts: Seq<Seq<char>>, invalid_mode: bool, e: ExampleView)
    requires
        q.max is None,
        q.tags.len() == 0,
    ensures
        built::<T>(QueryView { tags: ts, ..q }, invalid_mode).contains(e) <==> built::<T>(q, invalid_mode).contains(e)
            && forall|i: int| 0 <= i < ts.len() ==> e.tags.contains(#[trigger] ts[i]),
{
    let qt = QueryView { tags: ts, ..q };
    let inv = invalid_mode && q.include_invalid && q.size is None;
    lemma_built_contains::<T>(qt, invalid_mode, inv, e);
    lemma_built_contains::<T>(q, invalid_mode, inv, e);
    if built::<T>(qt, invalid_mode).contains(e) {
        let x = choose|x: Input| #[trigger] select_inputs::<T>(q.inputs, q.promote, inv, q.names, ts, q.exclude_tags)
            .contains(x) && sized_step(qt, view_of_input(x)) == Some(e);
        lemma_select_contains::<T>(q.inputs, q.promote, inv, q.names, ts, q.exclude_tags, x);
        lemma_select_contains::<T>(q.inputs, q.promote, inv, q.names, q.tags, q.exclude_tags, x);
        assert(select_inputs::<T>(q.inputs, q.promote, inv, q.names, q.tags, q.exclude_tags).contains(x));
        assert(sized_step(q, view_of_input(x)) == Some(e));
        assert(e.tags == views(x.tags@));
        assert forall|i: int| 0 <= i < ts.len() implies e.tags.contains(#[trigger] ts[i]) by {
            assert(has_tag(x, ts[i]));
        }
    }
    if built::<T>(q, invalid_mode).contains(e) && forall|i: int| 0 <= i < ts.len() ==> e.tags.contains(#[trigger] ts[i]) {
        let x = choose|x: Input| #[trigger] select_inputs::<T>(q.inputs, q.promote, inv, q.names, q.tags, q.exclude_tags)
            .contains(x) && sized_step(q, view_of_input(x)) == Some(e);
        lemma_select_contains::<T>(q.inputs, q.promote, inv, q.names, ts, q.exclude_tags, x);
        lemma_select_contains::<T>(q.inputs, q.promote, inv, q.names, q.tags, q.exclude_tags, x);
        assert(e.tags == views(x.tags@));
        assert forall|i: int| 0 <= i < ts.len() implies has_tag(x, #[trigger] ts[i]) by {
            assert(e.tags.contains(ts[i]));
        }
        assert(passes_filters(q.names, ts, q.exclude_tags, x));
        assert(select_inputs::<T>(q.inputs, q.promote, inv, q.names, ts, q.exclude_tags).contains(x));
        assert(sized_step(qt, view_of_input(x)) == Some(e));
    }
}

/// A later list of required tags replaces an earlier one: the query selects
/// exactly as if only the later list had been given.
pub proof fn law_later_tags_replace<T: Target>(q: QueryView, earlier: Seq<Seq<char>>, later: Seq<Seq<char>>, invalid_mode: bool)
    ensures
        built::<T>(QueryView { tags: later, ..QueryView { tags: earlier, ..q } }, invalid_mode)
            == built::<T>(QueryView { tags: later, ..q }, invalid_mode),
{
    assert(QueryView { tags: later, ..QueryView { tags: earlier, ..q } } == QueryView { tags: later, ..q });
}

/// Deliberately-invalid inputs are stored as raw bytes, so none of them
/// contributes a value to a target that does not take bytes: only the
/// `Vec<u8>` sink (with promotion, or natively) sees them in `values`.
pub proof fn law_values_skip_invalid<T: Target>(q: QueryView)
    requires
        !T::spec_accepts(DecodeAs::Bytes, q.promote),
    ensures
        forall|i: int| 0 <= i < built::<T>(q, false).len() ==> !((#[trigger] built::<T>(q, false)[i]).invalid_as is Some
            && built::<T>(q, false)[i].decode_as == DecodeAs::Bytes),
{
    law_results_accept_their_type::<T>(q, false);
}

/// Excluded tags combine with OR: with no cap, a query that excludes the
/// tags `xs` keeps exactly the examples of the same query without them that
/// carry none of `xs` (an input carrying any one of them is dropped).
pub proof fn law_exclude_tags_filter<T: Target>(q: QueryView, xs: Seq<Seq<char>>, invalid_mode: bool, e: ExampleView)
    requires
        q.max is None,
        q.exclude_tags.len() == 0,
    ensures
        built::<T>(QueryView { exclude_tags: xs, ..q }, invalid_mode).contains(e) <==> built::<T>(q, invalid_mode).contains(e)
            && forall|i: int| 0 <= i < xs.len() ==> !e.tags.contains(#[trigger] xs[i]),
{
    let qx = QueryView { exclude_tags: xs, ..q };
    let inv = invalid_mode && q.include_invalid && q.size is None;
    lemma_built_contains::<T>(qx, invalid_mode, inv, e);
    lemma_built_contains::<T>(q, invalid_mode, inv, e);
    if built::<T>(qx, invalid_mode).contains(e) {
        let x = choose|x: Input| #[trigger] select_inputs::<T>(q.inputs, q.promote, inv, q.names, q.tags, xs)
            .contains(x) && sized_step(qx, view_of_input(x)) == Some(e);
        lemma_select_contains::<T>(q.inputs, q.promote, inv, q.names, q.tags, xs, x);
        lemma_select_contains::<T>(q.inputs, q.promote, inv, q.names, q.tags, q.exclude_tags, x);
        assert(select_inputs::<T>(q.inputs, q.promote, inv, q.names, q.tags, q.exclude_tags).contains(x));
        assert(sized_step(q, view_of_input(x)) == Some(e));
        assert(e.tags == views(x.tags@));
        assert forall|i: int| 0 <= i < xs.len() implies !e.tags.contains(#[trigger] xs[i]) by {
            assert(!has_tag(x, xs[i]));
        }
    }
    if built::<T>(q, invalid_mode).contains(e) && forall|i: int| 0 <= i < xs.len() ==> !e.tags.contains(#[trigger] xs[i]) {
        let x = choose|x: Input| #[trigger] select_inputs::<T>(q.inputs, q.promote, inv, q.names, q.tags, q.exclude_tags)
            .contains(x) && sized_step(q, view_of_input(x)) == Some(e);
        lemma_select_contains::<T>(q.inputs, q.promote, inv, q.names, q.tags, xs, x);
        lemma_select_contains::<T>(q.inputs, q.promote, inv, q.names, q.tags, q.exclude_tags, x);
        assert(e.tags == views(x.tags@));
        assert forall|i: int| 0 <= i < xs.len() implies !has_tag(x, #[trigger] xs[i]) by {
            assert(!e.tags.contains(xs[i]));
        }
        assert(passes_filters(q.names, q.tags, xs, x));
        assert(select_inputs::<T>(q.inputs, q.promote, inv, q.names, q.tags, xs).contains(x));
        assert(sized_step(qx, view_of_input(x)) == Some(e));
    }
}

} // verus!
