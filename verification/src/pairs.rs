//! [`PairQuery`]: interesting *pairs* of inputs from a target type.
//!
//! Explicit corpus links come first (filterable by [`PairHint`]); unless a
//! filter constrains the result, randomly drawn *unrelated* pairs are appended
//! to stress comparison/dedup logic. A seed makes the random draw reproducible
//! (via [`crate::rng`]).

use vstd::prelude::*;

use core::marker::PhantomData;

use crate::corpus::{Corpus, Input, PairHint, PairLink, views};
use crate::example::{Example, ExampleView, effective_as, member_of, view_of_input};
use crate::native::spec_decode;
use crate::query::{capped, is_member, member, owned_all, passes, select_inputs, str_views, value_of,
    lemma_selected_are_members};
use crate::rng::{SplitMix64, advance, mix64};
use crate::target::Target;
use crate::text::{chars_less, chars_lt, chars_of, same_chars};
use vstd::std_specs::iter::IteratorSpec;

verus! {

/// How many draws the unrelated-pair sampling makes at most.
pub const UNRELATED_ATTEMPT_LIMIT: usize = 10000;

/// The default cap on the number of pairs.
pub const DEFAULT_MAX: usize = 50;

// --- candidate links -------------------------------------------------------

/// The names of inputs, in order.
pub open spec fn input_names(sel: Seq<Input>) -> Seq<Seq<char>> {
    sel.map_values(|i: Input| i.name@)
}

/// The links of the input named `from` whose target is among `names`, as
/// (source name, target name, hint), in link order.
pub open spec fn kept_links(names: Seq<Seq<char>>, from: Seq<char>, links: Seq<PairLink>) -> Seq<(Seq<char>, Seq<char>, PairHint)>
    decreases links.len(),
{
    if links.len() == 0 {
        Seq::empty()
    } else {
        let before = kept_links(names, from, links.drop_last());
        let l = links.last();
        if names.contains(l.name@) {
            before.push((from, l.name@, l.hint))
        } else {
            before
        }
    }
}

/// Every link between two of the inputs, input by input.
pub open spec fn candidates(names: Seq<Seq<char>>, sel: Seq<Input>) -> Seq<(Seq<char>, Seq<char>, PairHint)>
    decreases sel.len(),
{
    if sel.len() == 0 {
        Seq::empty()
    } else {
        candidates(names, sel.drop_last()) + kept_links(names, sel.last().name@, sel.last().links@)
    }
}

/// `(a, b)` and `(c, d)` are the same unordered pair of names.
pub open spec fn same_key(a: Seq<char>, b: Seq<char>, c: Seq<char>, d: Seq<char>) -> bool {
    (a == c && b == d) || (a == d && b == c)
}

/// Some key of `keys` is the unordered pair `{a, b}`.
pub open spec fn keyed(keys: Seq<(Seq<char>, Seq<char>)>, a: Seq<char>, b: Seq<char>) -> bool {
    exists|i: int| 0 <= i < keys.len() && same_key(#[trigger] keys[i].0, keys[i].1, a, b)
}

/// The name pairs of candidate links.
pub open spec fn cand_keys(cs: Seq<(Seq<char>, Seq<char>, PairHint)>) -> Seq<(Seq<char>, Seq<char>)> {
    cs.map_values(|c: (Seq<char>, Seq<char>, PairHint)| (c.0, c.1))
}

/// The explicit links: those with the wanted hint (when one is set), each
/// unordered name pair kept once, at its first occurrence.
pub open spec fn explicit_links(cs: Seq<(Seq<char>, Seq<char>, PairHint)>, hint: Option<PairHint>) -> Seq<(Seq<char>, Seq<char>, PairHint)>
    decreases cs.len(),
{
    if cs.len() == 0 {
        Seq::empty()
    } else {
        let before = explicit_links(cs.drop_last(), hint);
        let c = cs.last();
        if (hint matches Some(h) && c.2 != h) || keyed(cand_keys(before), c.0, c.1) {
            before
        } else {
            before.push(c)
        }
    }
}

// --- orderings -------------------------------------------------------------

/// Order of links by (source name, target name).
pub open spec fn cand_lt(p: (Seq<char>, Seq<char>, PairHint), q: (Seq<char>, Seq<char>, PairHint)) -> bool {
    chars_lt(p.0, q.0) || (p.0 == q.0 && chars_lt(p.1, q.1))
}

/// Inserts `e` after every link that sorts no later.
pub open spec fn insert_cand(s: Seq<(Seq<char>, Seq<char>, PairHint)>, e: (Seq<char>, Seq<char>, PairHint)) -> Seq<(Seq<char>, Seq<char>, PairHint)>
    decreases s.len(),
{
    if s.len() == 0 {
        seq![e]
    } else if cand_lt(e, s.last()) {
        insert_cand(s.drop_last(), e).push(s.last())
    } else {
        s.push(e)
    }
}

/// The stable sort of links by (source name, target name).
pub open spec fn sort_cands(s: Seq<(Seq<char>, Seq<char>, PairHint)>) -> Seq<(Seq<char>, Seq<char>, PairHint)>
    decreases s.len(),
{
    if s.len() == 0 {
        Seq::empty()
    } else {
        insert_cand(sort_cands(s.drop_last()), s.last())
    }
}

/// Inserts name `e` after every name that sorts no later.
pub open spec fn insert_name(s: Seq<Seq<char>>, e: Seq<char>) -> Seq<Seq<char>>
    decreases s.len(),
{
    if s.len() == 0 {
        seq![e]
    } else if chars_lt(e, s.last()) {
        insert_name(s.drop_last(), e).push(s.last())
    } else {
        s.push(e)
    }
}

/// Names in ascending order.
pub open spec fn sort_names(s: Seq<Seq<char>>) -> Seq<Seq<char>>
    decreases s.len(),
{
    if s.len() == 0 {
        Seq::empty()
    } else {
        insert_name(sort_names(s.drop_last()), s.last())
    }
}

proof fn lemma_insert_cand(s: Seq<(Seq<char>, Seq<char>, PairHint)>, e: (Seq<char>, Seq<char>, PairHint))
    ensures
        insert_cand(s, e).len() == s.len() + 1,
        forall|x: (Seq<char>, Seq<char>, PairHint)| insert_cand(s, e).contains(x) ==> s.contains(x) || x == e,
    decreases s.len(),
{
    if s.len() > 0 && cand_lt(e, s.last()) {
        lemma_insert_cand(s.drop_last(), e);
        let r = insert_cand(s, e);
        let q = insert_cand(s.drop_last(), e);
        assert forall|x: (Seq<char>, Seq<char>, PairHint)| r.contains(x) implies s.contains(x) || x == e by {
            let k = choose|k: int| 0 <= k < r.len() && r[k] == x;
            if k < r.len() - 1 {
                assert(q[k] == x);
                assert(q.contains(x));
                if s.drop_last().contains(x) {
                    let m = choose|m: int| 0 <= m < s.drop_last().len() && s.drop_last()[m] == x;
                    assert(s[m] == x);
                }
            } else {
                assert(s[s.len() - 1] == x);
            }
        }
    } else if s.len() > 0 {
        let r = insert_cand(s, e);
        assert forall|x: (Seq<char>, Seq<char>, PairHint)| r.contains(x) implies s.contains(x) || x == e by {
            let k = choose|k: int| 0 <= k < r.len() && r[k] == x;
            if k < s.len() {
                assert(s[k] == x);
            }
        }
    }
}

proof fn lemma_sort_cands(s: Seq<(Seq<char>, Seq<char>, PairHint)>)
    ensures
        sort_cands(s).len() == s.len(),
        forall|x: (Seq<char>, Seq<char>, PairHint)| sort_cands(s).contains(x) ==> s.contains(x),
    decreases s.len(),
{
    if s.len() > 0 {
        lemma_sort_cands(s.drop_last());
        lemma_insert_cand(sort_cands(s.drop_last()), s.last());
        assert forall|x: (Seq<char>, Seq<char>, PairHint)| sort_cands(s).contains(x) implies s.contains(x) by {
            if sort_cands(s.drop_last()).contains(x) {
                assert(s.drop_last().contains(x));
                let m = choose|m: int| 0 <= m < s.drop_last().len() && s.drop_last()[m] == x;
                assert(s[m] == x);
            } else {
                assert(s[s.len() - 1] == x);
            }
        }
    }
}

proof fn lemma_insert_name(s: Seq<Seq<char>>, e: Seq<char>)
    ensures
        insert_name(s, e).len() == s.len() + 1,
        forall|x: Seq<char>| insert_name(s, e).contains(x) ==> s.contains(x) || x == e,
    decreases s.len(),
{
    if s.len() > 0 && chars_lt(e, s.last()) {
        lemma_insert_name(s.drop_last(), e);
        let r = insert_name(s, e);
        let q = insert_name(s.drop_last(), e);
        assert forall|x: Seq<char>| r.contains(x) implies s.contains(x) || x == e by {
            let k = choose|k: int| 0 <= k < r.len() && r[k] == x;
            if k < r.len() - 1 {
                assert(q[k] == x);
                assert(q.contains(x));
                if s.drop_last().contains(x) {
                    let m = choose|m: int| 0 <= m < s.drop_last().len() && s.drop_last()[m] == x;
                    assert(s[m] == x);
                }
            } else {
                assert(s[s.len() - 1] == x);
            }
        }
    } else if s.len() > 0 {
        let r = insert_name(s, e);
        assert forall|x: Seq<char>| r.contains(x) implies s.contains(x) || x == e by {
            let k = choose|k: int| 0 <= k < r.len() && r[k] == x;
            if k < s.len() {
                assert(s[k] == x);
            }
        }
    }
}

proof fn lemma_sort_names(s: Seq<Seq<char>>)
    ensures
        sort_names(s).len() == s.len(),
        forall|x: Seq<char>| sort_names(s).contains(x) ==> s.contains(x),
    decreases s.len(),
{
    if s.len() > 0 {
        lemma_sort_names(s.drop_last());
        lemma_insert_name(sort_names(s.drop_last()), s.last());
        assert forall|x: Seq<char>| sort_names(s).contains(x) implies s.contains(x) by {
            if sort_names(s.drop_last()).contains(x) {
                assert(s.drop_last().contains(x));
                let m = choose|m: int| 0 <= m < s.drop_last().len() && s.drop_last()[m] == x;
                assert(s[m] == x);
            } else {
                assert(s[s.len() - 1] == x);
            }
        }
    }
}

// --- the unrelated draw ----------------------------------------------------

/// The state of the unrelated-pair draw.
pub struct DrawState {
    /// The generator's state.
    pub rng: u64,
    pub attempts: nat,
    /// The pairs drawn so far.
    pub out: Seq<(Seq<char>, Seq<char>)>,
    /// The unordered pairs already used (explicit or drawn).
    pub seen: Seq<(Seq<char>, Seq<char>)>,
    /// Set once an uncapped draw holds as many pairs as there are names.
    pub done: bool,
}

/// The draw goes on: not stopped, attempts left, and more pairs wanted.
pub open spec fn drawing(st: DrawState, want: Option<usize>) -> bool {
    &&& !st.done
    &&& st.attempts < UNRELATED_ATTEMPT_LIMIT
    &&& want matches Some(w) ==> st.out.len() < w
}

/// One attempt: draw two positions; distinct positions whose names form a
/// pair neither used nor explicitly linked give a new pair.
pub open spec fn draw_step(
    st: DrawState,
    names: Seq<Seq<char>>,
    linked: Seq<(Seq<char>, Seq<char>)>,
    want: Option<usize>,
) -> DrawState {
    let s1 = advance(st.rng);
    let i = mix64(s1) % (names.len() as u64);
    let s2 = advance(s1);
    let j = mix64(s2) % (names.len() as u64);
    let base = DrawState { rng: s2, attempts: st.attempts + 1, ..st };
    if i == j {
        base
    } else {
        let a = names[i as int];
        let b = names[j as int];
        if keyed(st.seen, a, b) || keyed(linked, a, b) {
            base
        } else {
            let out = st.out.push((a, b));
            DrawState { out, seen: st.seen.push((a, b)), done: want is None && out.len() >= names.len(), ..base }
        }
    }
}

/// The draw run to its end.
pub open spec fn draws(
    st: DrawState,
    names: Seq<Seq<char>>,
    linked: Seq<(Seq<char>, Seq<char>)>,
    want: Option<usize>,
) -> DrawState
    decreases UNRELATED_ATTEMPT_LIMIT - st.attempts,
{
    if !drawing(st, want) {
        st
    } else {
        draws(draw_step(st, names, linked, want), names, linked, want)
    }
}

/// The unrelated name pairs drawn for a seed: none when fewer than two
/// names or when no more pairs are wanted.
pub open spec fn unrelated_keys(
    names: Seq<Seq<char>>,
    linked: Seq<(Seq<char>, Seq<char>)>,
    used: Seq<(Seq<char>, Seq<char>)>,
    want: Option<usize>,
    seed: u64,
) -> Seq<(Seq<char>, Seq<char>)> {
    if names.len() < 2 || want == Some(0usize) {
        Seq::empty()
    } else {
        draws(DrawState { rng: seed, attempts: 0, out: Seq::empty(), seen: used, done: false }, names, linked, want).out
    }
}

/// Every pair of `out` consists of names from `names`.
pub open spec fn from_names(out: Seq<(Seq<char>, Seq<char>)>, names: Seq<Seq<char>>) -> bool {
    forall|k: int| 0 <= k < out.len() ==> names.contains(#[trigger] out[k].0) && names.contains(out[k].1)
}

proof fn lemma_step_from_names(
    st: DrawState,
    names: Seq<Seq<char>>,
    linked: Seq<(Seq<char>, Seq<char>)>,
    want: Option<usize>,
)
    requires
        1 <= names.len() <= u64::MAX,
        from_names(st.out, names),
    ensures
        from_names(draw_step(st, names, linked, want).out, names),
{
    let nx = draw_step(st, names, linked, want);
    let s1 = advance(st.rng);
    let i = mix64(s1) % (names.len() as u64);
    let j = mix64(advance(s1)) % (names.len() as u64);
    assert(i < names.len() && j < names.len());
    assert(names.contains(names[i as int]));
    assert(names.contains(names[j as int]));
    assert(nx.out == st.out || nx.out == st.out.push((names[i as int], names[j as int])));
    assert forall|k: int| 0 <= k < nx.out.len() implies names.contains(#[trigger] nx.out[k].0) && names.contains(nx.out[k].1) by {
        if k < st.out.len() {
            assert(nx.out[k] == st.out[k]);
        }
    }
}

/// Every pair drawn consists of names from the list.
proof fn lemma_draws_from_names(
    st: DrawState,
    names: Seq<Seq<char>>,
    linked: Seq<(Seq<char>, Seq<char>)>,
    want: Option<usize>,
)
    requires
        1 <= names.len() <= u64::MAX,
        from_names(st.out, names),
    ensures
        from_names(draws(st, names, linked, want).out, names),
    decreases UNRELATED_ATTEMPT_LIMIT - st.attempts,
{
    if drawing(st, want) {
        lemma_step_from_names(st, names, linked, want);
        lemma_draws_from_names(draw_step(st, names, linked, want), names, linked, want);
    }
}

// --- the pairs a query gives -----------------------------------------------

/// The content of a [`Pair`].
pub struct PairView {
    pub a: ExampleView,
    pub b: ExampleView,
    pub hint: Option<PairHint>,
    pub related: bool,
}

/// Index of the first input with name `n`.
pub open spec fn first_named(sel: Seq<Input>, n: Seq<char>) -> int {
    choose|k: int| 0 <= k < sel.len() && sel[k].name@ == n && forall|j: int| 0 <= j < k ==> sel[j].name@ != n
}

/// The example of the first input named `n`.
#[verifier::opaque]
pub open spec fn example_named(sel: Seq<Input>, n: Seq<char>) -> ExampleView {
    view_of_input(sel[first_named(sel, n)])
}

/// An explicit link as a pair.
pub open spec fn explicit_view(sel: Seq<Input>, c: (Seq<char>, Seq<char>, PairHint)) -> PairView {
    PairView { a: example_named(sel, c.0), b: example_named(sel, c.1), hint: Some(c.2), related: true }
}

/// A drawn name pair as a pair.
pub open spec fn unrelated_view(sel: Seq<Input>, k: (Seq<char>, Seq<char>)) -> PairView {
    PairView { a: example_named(sel, k.0), b: example_named(sel, k.1), hint: None, related: false }
}

/// What a pair query's settings are.
pub struct PairQueryView {
    pub inputs: Seq<Input>,
    pub hint: Option<PairHint>,
    pub tags: Seq<Seq<char>>,
    pub exclude_tags: Seq<Seq<char>>,
    pub promote: bool,
    pub include_invalid: bool,
    pub include_unrelated: Option<bool>,
    pub max: Option<usize>,
    pub seed: Option<u64>,
}

/// The inputs a pair query selects.
pub open spec fn pair_selection<T: Target>(q: PairQueryView, invalid_mode: bool) -> Seq<Input> {
    select_inputs::<T>(q.inputs, q.promote, invalid_mode && q.include_invalid, None, q.tags, q.exclude_tags)
}

/// The explicit links of a pair query, ordered by (source, target) name and
/// capped.
#[verifier::opaque]
pub open spec fn head_links<T: Target>(q: PairQueryView, invalid_mode: bool) -> Seq<(Seq<char>, Seq<char>, PairHint)> {
    let sel = pair_selection::<T>(q, invalid_mode);
    let cs = candidates(input_names(sel), sel);
    capped(sort_cands(explicit_links(cs, q.hint)), q.max)
}

/// Unrelated pairs are drawn when asked for, or by default when no hint or
/// tag filter is set.
pub open spec fn wants_unrelated(q: PairQueryView) -> bool {
    match q.include_unrelated {
        Some(b) => b,
        None => !(q.hint is Some || q.tags.len() > 0 || q.exclude_tags.len() > 0),
    }
}

/// How many unrelated pairs a capped query still wants.
pub open spec fn still_wanted(max: Option<usize>, have: nat) -> Option<usize> {
    match max {
        Some(m) => Some(if have <= m { (m - have) as usize } else { 0usize }),
        None => None,
    }
}

/// The unrelated name pairs of a pair query.
#[verifier::opaque]
pub open spec fn tail_keys<T: Target>(q: PairQueryView, invalid_mode: bool) -> Seq<(Seq<char>, Seq<char>)> {
    let sel = pair_selection::<T>(q, invalid_mode);
    let cs = candidates(input_names(sel), sel);
    if wants_unrelated(q) {
        unrelated_keys(
            sort_names(input_names(sel)),
            cand_keys(cs),
            cand_keys(explicit_links(cs, q.hint)),
            still_wanted(q.max, head_links::<T>(q, invalid_mode).len()),
            match q.seed {
                Some(s) => s,
                None => 0u64,
            },
        )
    } else {
        Seq::empty()
    }
}

/// The pairs a query builds: its explicit links, then its unrelated draws.
#[verifier::opaque]
pub open spec fn built_pairs<T: Target>(q: PairQueryView, invalid_mode: bool) -> Seq<PairView> {
    let sel = pair_selection::<T>(q, invalid_mode);
    head_links::<T>(q, invalid_mode).map_values(|c: (Seq<char>, Seq<char>, PairHint)| explicit_view(sel, c))
        + tail_keys::<T>(q, invalid_mode).map_values(|k: (Seq<char>, Seq<char>)| unrelated_view(sel, k))
}

/// Both sides of a pair decode to a value of `T`.
pub open spec fn pair_decodes<T: Target>(p: PairView) -> bool {
    spec_decode(effective_as::<T>(p.a), p.a.raw) is Ok && spec_decode(effective_as::<T>(p.b), p.b.raw) is Ok
}

/// The pairs whose both sides decode, in order.
pub open spec fn decodable_pairs<T: Target>(s: Seq<PairView>) -> Seq<PairView>
    decreases s.len(),
{
    if s.len() == 0 {
        Seq::empty()
    } else {
        let before = decodable_pairs::<T>(s.drop_last());
        if pair_decodes::<T>(s.last()) {
            before.push(s.last())
        } else {
            before
        }
    }
}

/// `r` holds, in order, the values of each pair of `s` whose sides both
/// decode.
pub open spec fn pair_values_of<T: Target>(s: Seq<PairView>, r: Seq<(T, T)>) -> bool {
    &&& r.len() == decodable_pairs::<T>(s).len()
    &&& forall|i: int| 0 <= i < r.len() ==> value_of::<T>(#[trigger] decodable_pairs::<T>(s)[i].a, r[i].0)
        && value_of::<T>(decodable_pairs::<T>(s)[i].b, r[i].1)
}


// --- executable pieces -----------------------------------------------------

/// A link between two selected inputs, by name.
struct Cand {
    from: Vec<char>,
    to: Vec<char>,
    hint: PairHint,
}

spec fn cv(c: Cand) -> (Seq<char>, Seq<char>, PairHint) {
    (c.from@, c.to@, c.hint)
}

spec fn cvs(v: Seq<Cand>) -> Seq<(Seq<char>, Seq<char>, PairHint)> {
    v.map_values(|c: Cand| cv(c))
}

/// The views of name pairs.
pub open spec fn kviews(v: Seq<(Vec<char>, Vec<char>)>) -> Seq<(Seq<char>, Seq<char>)> {
    v.map_values(|k: (Vec<char>, Vec<char>)| (k.0@, k.1@))
}

/// The views of names.
pub open spec fn nviews(v: Seq<Vec<char>>) -> Seq<Seq<char>> {
    v.map_values(|c: Vec<char>| c@)
}

/// The inputs at the given positions.
pub open spec fn picked(inputs: Seq<Input>, idx: Seq<usize>) -> Seq<Input> {
    idx.map_values(|k: usize| inputs[k as int])
}

/// Positions lie inside the input list.
pub open spec fn in_bounds(idx: Seq<usize>, n: nat) -> bool {
    forall|k: int| 0 <= k < idx.len() ==> #[trigger] idx[k] < n
}

fn copy_chars(v: &Vec<char>) -> (r: Vec<char>)
    ensures
        r@ == v@,
{
    vstd::slice::slice_to_vec(v.as_slice())
}

/// Whether the name list holds `n`.
fn has_name(names: &Vec<Vec<char>>, n: &Vec<char>) -> (r: bool)
    ensures
        r == nviews(names@).contains(n@),
{
    let mut i: usize = 0;
    while i < names.len()
        invariant
            i <= names@.len(),
            forall|j: int| 0 <= j < i ==> #[trigger] names@[j]@ != n@,
        decreases names@.len() - i,
    {
        if same_chars(names[i].as_slice(), n.as_slice()) {
            assert(nviews(names@)[i as int] == n@);
            return true;
        }
        i += 1;
    }
    proof {
        if nviews(names@).contains(n@) {
            let k = choose|k: int| 0 <= k < nviews(names@).len() && nviews(names@)[k] == n@;
            assert(names@[k]@ == n@);
        }
    }
    false
}

/// Whether the key list holds the unordered pair `{a, b}`.
fn has_key(keys: &Vec<(Vec<char>, Vec<char>)>, a: &Vec<char>, b: &Vec<char>) -> (r: bool)
    ensures
        r == keyed(kviews(keys@), a@, b@),
{
    let mut i: usize = 0;
    while i < keys.len()
        invariant
            i <= keys@.len(),
            forall|j: int| 0 <= j < i ==> !same_key(#[trigger] kviews(keys@)[j].0, kviews(keys@)[j].1, a@, b@),
        decreases keys@.len() - i,
    {
        let k0 = keys[i].0.as_slice();
        let k1 = keys[i].1.as_slice();
        assert(kviews(keys@)[i as int] == (keys@[i as int].0@, keys@[i as int].1@));
        if (same_chars(k0, a.as_slice()) && same_chars(k1, b.as_slice())) || (same_chars(k0, b.as_slice()) && same_chars(k1, a.as_slice())) {
            assert(same_key(kviews(keys@)[i as int].0, kviews(keys@)[i as int].1, a@, b@));
            return true;
        }
        i += 1;
    }
    false
}

fn copy_keys(v: &Vec<(Vec<char>, Vec<char>)>) -> (r: Vec<(Vec<char>, Vec<char>)>)
    ensures
        kviews(r@) == kviews(v@),
{
    let mut r: Vec<(Vec<char>, Vec<char>)> = Vec::new();
    let mut i: usize = 0;
    while i < v.len()
        invariant
            i <= v@.len(),
            kviews(r@) == kviews(v@).take(i as int),
        decreases v@.len() - i,
    {
        let ghost before = r@;
        r.push((copy_chars(&v[i].0), copy_chars(&v[i].1)));
        assert(kviews(r@) =~= kviews(before).push((v@[i as int].0@, v@[i as int].1@)));
        assert(kviews(r@) =~= kviews(v@).take(i + 1));
        i += 1;
    }
    assert(kviews(v@).take(v@.len() as int) =~= kviews(v@));
    r
}

/// The unordered name pairs of candidate links.
fn keys_of(cs: &Vec<Cand>) -> (r: Vec<(Vec<char>, Vec<char>)>)
    ensures
        kviews(r@) == cand_keys(cvs(cs@)),
{
    let mut r: Vec<(Vec<char>, Vec<char>)> = Vec::new();
    let mut i: usize = 0;
    while i < cs.len()
        invariant
            i <= cs@.len(),
            kviews(r@) == cand_keys(cvs(cs@)).take(i as int),
        decreases cs@.len() - i,
    {
        let ghost before = r@;
        r.push((copy_chars(&cs[i].from), copy_chars(&cs[i].to)));
        assert(kviews(r@) =~= kviews(before).push((cs@[i as int].from@, cs@[i as int].to@)));
        assert(cand_keys(cvs(cs@))[i as int] == (cs@[i as int].from@, cs@[i as int].to@));
        assert(kviews(r@) =~= cand_keys(cvs(cs@)).take(i + 1));
        i += 1;
    }
    assert(cand_keys(cvs(cs@)).take(cs@.len() as int) =~= cand_keys(cvs(cs@)));
    r
}

/// The names of the inputs at the given positions.
fn names_of(inputs: &[Input], idx: &Vec<usize>) -> (r: Vec<Vec<char>>)
    requires
        in_bounds(idx@, inputs@.len()),
    ensures
        nviews(r@) == input_names(picked(inputs@, idx@)),
{
    let mut r: Vec<Vec<char>> = Vec::new();
    let mut i: usize = 0;
    while i < idx.len()
        invariant
            i <= idx@.len(),
            in_bounds(idx@, inputs@.len()),
            nviews(r@) == input_names(picked(inputs@, idx@)).take(i as int),
        decreases idx@.len() - i,
    {
        let k = idx[i];
        assert(k < inputs@.len());
        let ghost before = r@;
        r.push(chars_of(inputs[k].name.as_str()));
        assert(nviews(r@) =~= nviews(before).push(inputs@[k as int].name@));
        assert(input_names(picked(inputs@, idx@))[i as int] == inputs@[k as int].name@);
        assert(nviews(r@) =~= input_names(picked(inputs@, idx@)).take(i + 1));
        i += 1;
    }
    assert(input_names(picked(inputs@, idx@)).take(idx@.len() as int) =~= input_names(picked(inputs@, idx@)));
    r
}

proof fn lemma_kept_links(names: Seq<Seq<char>>, from: Seq<char>, links: Seq<PairLink>)
    ensures
        forall|c: (Seq<char>, Seq<char>, PairHint)| kept_links(names, from, links).contains(c) ==> c.0 == from && names.contains(c.1),
    decreases links.len(),
{
    if links.len() > 0 {
        lemma_kept_links(names, from, links.drop_last());
        let r = kept_links(names, from, links);
        let q = kept_links(names, from, links.drop_last());
        assert forall|c: (Seq<char>, Seq<char>, PairHint)| r.contains(c) implies c.0 == from && names.contains(c.1) by {
            let k = choose|k: int| 0 <= k < r.len() && r[k] == c;
            if k < q.len() {
                assert(q[k] == c);
                assert(q.contains(c));
            }
        }
    }
}

/// Every candidate link runs from a selected input to a listed name.
proof fn lemma_candidates(names: Seq<Seq<char>>, sel: Seq<Input>)
    ensures
        forall|c: (Seq<char>, Seq<char>, PairHint)| candidates(names, sel).contains(c) ==> input_names(sel).contains(c.0) && names.contains(c.1),
    decreases sel.len(),
{
    if sel.len() > 0 {
        lemma_candidates(names, sel.drop_last());
        lemma_kept_links(names, sel.last().name@, sel.last().links@);
        let q = candidates(names, sel.drop_last());
        let t = kept_links(names, sel.last().name@, sel.last().links@);
        assert forall|c: (Seq<char>, Seq<char>, PairHint)| candidates(names, sel).contains(c) implies input_names(sel).contains(c.0) && names.contains(c.1) by {
            let r = candidates(names, sel);
            assert(r == q + t);
            let k = choose|k: int| 0 <= k < r.len() && r[k] == c;
            if k < q.len() {
                assert(q[k] == c);
                assert(q.contains(c));
                let m = choose|m: int| 0 <= m < input_names(sel.drop_last()).len() && input_names(sel.drop_last())[m] == c.0;
                assert(input_names(sel)[m] == c.0);
            } else {
                assert(t[k - q.len()] == c);
                assert(t.contains(c));
                assert(input_names(sel)[sel.len() - 1] == c.0);
            }
        }
    }
}

/// Explicit links are candidates.
proof fn lemma_explicit_links(cs: Seq<(Seq<char>, Seq<char>, PairHint)>, hint: Option<PairHint>)
    ensures
        forall|c: (Seq<char>, Seq<char>, PairHint)| explicit_links(cs, hint).contains(c) ==> cs.contains(c),
    decreases cs.len(),
{
    if cs.len() > 0 {
        lemma_explicit_links(cs.drop_last(), hint);
        let r = explicit_links(cs, hint);
        let q = explicit_links(cs.drop_last(), hint);
        assert forall|c: (Seq<char>, Seq<char>, PairHint)| r.contains(c) implies cs.contains(c) by {
            let k = choose|k: int| 0 <= k < r.len() && r[k] == c;
            if k < q.len() {
                assert(q[k] == c);
                assert(q.contains(c));
                assert(cs.drop_last().contains(c));
                let m = choose|m: int| 0 <= m < cs.drop_last().len() && cs.drop_last()[m] == c;
                assert(cs[m] == c);
            } else {
                assert(cs[cs.len() - 1] == c);
            }
        }
    }
}


/// Every link between two selected inputs, input by input.
fn collect_candidates(inputs: &[Input], idx: &Vec<usize>, names: &Vec<Vec<char>>) -> (r: Vec<Cand>)
    requires
        in_bounds(idx@, inputs@.len()),
    ensures
        cvs(r@) == candidates(nviews(names@), picked(inputs@, idx@)),
{
    let ghost sel = picked(inputs@, idx@);
    let ghost nv = nviews(names@);
    let mut r: Vec<Cand> = Vec::new();
    let mut p: usize = 0;
    while p < idx.len()
        invariant
            p <= idx@.len(),
            in_bounds(idx@, inputs@.len()),
            sel == picked(inputs@, idx@),
            nv == nviews(names@),
            cvs(r@) == candidates(nv, sel.take(p as int)),
        decreases idx@.len() - p,
    {
        let k = idx[p];
        assert(k < inputs@.len());
        let input = &inputs[k];
        assert(sel[p as int] == *input);
        let from = chars_of(input.name.as_str());
        let ghost base = cvs(r@);
        let mut l: usize = 0;
        assert(input.links@.take(0) =~= Seq::<PairLink>::empty());
        assert(base + kept_links(nv, from@, input.links@.take(0)) =~= base);
        while l < input.links.len()
            invariant
                l <= input.links@.len(),
                nv == nviews(names@),
                from@ == input.name@,
                cvs(r@) == base + kept_links(nv, from@, input.links@.take(l as int)),
            decreases input.links@.len() - l,
        {
            let link = &input.links[l];
            let to = chars_of(link.name.as_str());
            assert(input.links@.take(l + 1).drop_last() =~= input.links@.take(l as int));
            assert(input.links@.take(l + 1).last() == *link);
            if has_name(names, &to) {
                let ghost before = r@;
                r.push(Cand { from: copy_chars(&from), to, hint: link.hint });
                assert(cvs(r@) =~= cvs(before).push((from@, link.name@, link.hint)));
                assert(cvs(r@) =~= base + kept_links(nv, from@, input.links@.take(l + 1)));
            }
            l += 1;
        }
        assert(input.links@.take(input.links@.len() as int) =~= input.links@);
        assert(sel.take(p + 1).drop_last() =~= sel.take(p as int));
        assert(sel.take(p + 1).last() == *input);
        p += 1;
    }
    assert(sel.take(idx@.len() as int) =~= sel);
    r
}

fn copy_cand(c: &Cand) -> (r: Cand)
    ensures
        cv(r) == cv(*c),
{
    Cand { from: copy_chars(&c.from), to: copy_chars(&c.to), hint: c.hint }
}

/// The explicit links of the candidates, with their unordered name pairs.
fn explicit(cs: &Vec<Cand>, hint: Option<PairHint>) -> (r: (Vec<Cand>, Vec<(Vec<char>, Vec<char>)>))
    ensures
        cvs(r.0@) == explicit_links(cvs(cs@), hint),
        kviews(r.1@) == cand_keys(explicit_links(cvs(cs@), hint)),
{
    let mut ex: Vec<Cand> = Vec::new();
    let mut seen: Vec<(Vec<char>, Vec<char>)> = Vec::new();
    let mut i: usize = 0;
    while i < cs.len()
        invariant
            i <= cs@.len(),
            cvs(ex@) == explicit_links(cvs(cs@).take(i as int), hint),
            kviews(seen@) == cand_keys(cvs(ex@)),
        decreases cs@.len() - i,
    {
        let c = &cs[i];
        assert(cvs(cs@).take(i + 1).drop_last() =~= cvs(cs@).take(i as int));
        assert(cvs(cs@).take(i + 1).last() == cv(*c));
        let wanted = match hint {
            Some(h) => c.hint == h,
            None => true,
        };
        if wanted && !has_key(&seen, &c.from, &c.to) {
            let ghost before = ex@;
            let ghost before_seen = seen@;
            ex.push(copy_cand(c));
            seen.push((copy_chars(&c.from), copy_chars(&c.to)));
            assert(cvs(ex@) =~= cvs(before).push(cv(*c)));
            assert(kviews(seen@) =~= kviews(before_seen).push((c.from@, c.to@)));
            assert(kviews(seen@) =~= cand_keys(cvs(ex@)));
        }
        i += 1;
    }
    assert(cvs(cs@).take(cs@.len() as int) =~= cvs(cs@));
    (ex, seen)
}

/// Whether link `a` sorts before link `b` by (source, target) name.
fn cand_less(a: &Cand, b: &Cand) -> (r: bool)
    ensures
        r == cand_lt(cv(*a), cv(*b)),
{
    chars_less(a.from.as_slice(), b.from.as_slice())
        || (same_chars(a.from.as_slice(), b.from.as_slice()) && chars_less(a.to.as_slice(), b.to.as_slice()))
}

/// Orders links by (source, target) name, stably.
fn sort_cand_vec(v: Vec<Cand>) -> (r: Vec<Cand>)
    ensures
        cvs(r@) == sort_cands(cvs(v@)),
{
    let mut rest = v;
    let mut out: Vec<Cand> = Vec::new();
    let ghost orig = cvs(rest@);
    let ghost n = rest@.len();
    while rest.len() > 0
        invariant
            orig == cvs(v@),
            n == v@.len(),
            rest@.len() <= n,
            cvs(rest@) == orig.skip(n - rest@.len()),
            cvs(out@) == sort_cands(orig.take(n - rest@.len())),
        decreases rest@.len(),
    {
        let ghost done = n - rest@.len();
        let ghost old_rest = rest@;
        let e = rest.remove(0);
        proof {
            assert(e == old_rest[0]);
            assert(cvs(old_rest)[0] == orig.skip(done)[0]);
            assert forall|k: int| 0 <= k < rest@.len() implies #[trigger] cvs(rest@)[k] == orig.skip(done + 1)[k] by {
                assert(rest@[k] == old_rest[k + 1]);
                assert(cvs(old_rest)[k + 1] == orig.skip(done)[k + 1]);
            }
            assert(cvs(rest@) =~= orig.skip(done + 1));
            assert(orig.take(done + 1).drop_last() =~= orig.take(done));
            assert(orig.take(done + 1).last() == cv(e));
        }
        let mut p: usize = out.len();
        let ghost ov = cvs(out@);
        assert(ov.take(p as int) =~= ov);
        assert(ov.skip(p as int) =~= Seq::<(Seq<char>, Seq<char>, PairHint)>::empty());
        while p > 0
            invariant
                p <= out@.len(),
                ov == cvs(out@),
                insert_cand(ov, cv(e)) == insert_cand(ov.take(p as int), cv(e)) + ov.skip(p as int),
            ensures
                p <= out@.len(),
                insert_cand(ov, cv(e)) == insert_cand(ov.take(p as int), cv(e)) + ov.skip(p as int),
                p == 0 || !cand_lt(cv(e), ov[p - 1]),
            decreases p,
        {
            if !cand_less(&e, &out[p - 1]) {
                break;
            }
            proof {
                let t = ov.take(p as int);
                assert(t.last() == ov[p - 1]);
                assert(t.drop_last() =~= ov.take(p - 1));
                assert(ov.skip(p - 1) =~= seq![ov[p - 1]] + ov.skip(p as int));
                assert(insert_cand(ov.take(p - 1), cv(e)).push(ov[p - 1]) + ov.skip(p as int)
                    =~= insert_cand(ov.take(p - 1), cv(e)) + ov.skip(p - 1));
            }
            p -= 1;
        }
        proof {
            if p == 0 {
                assert(ov.take(0) =~= Seq::<(Seq<char>, Seq<char>, PairHint)>::empty());
                assert(insert_cand(ov, cv(e)) =~= ov.insert(0, cv(e)));
            } else {
                let t = ov.take(p as int);
                assert(t.last() == ov[p - 1]);
                assert(insert_cand(t, cv(e)) == t.push(cv(e)));
                assert(insert_cand(ov, cv(e)) =~= ov.insert(p as int, cv(e)));
            }
        }
        let ghost before = out@;
        let ghost ce = cv(e);
        out.insert(p, e);
        proof {
            assert(out@ == before.insert(p as int, e));
            assert(cvs(out@) =~= ov.insert(p as int, ce));
        }
    }
    proof {
        assert(orig.take(n as int) =~= orig);
    }
    out
}

/// Orders names ascending.
fn sort_name_vec(v: Vec<Vec<char>>) -> (r: Vec<Vec<char>>)
    ensures
        nviews(r@) == sort_names(nviews(v@)),
{
    let mut rest = v;
    let mut out: Vec<Vec<char>> = Vec::new();
    let ghost orig = nviews(rest@);
    let ghost n = rest@.len();
    while rest.len() > 0
        invariant
            orig == nviews(v@),
            n == v@.len(),
            rest@.len() <= n,
            nviews(rest@) == orig.skip(n - rest@.len()),
            nviews(out@) == sort_names(orig.take(n - rest@.len())),
        decreases rest@.len(),
    {
        let ghost done = n - rest@.len();
        let ghost old_rest = rest@;
        let e = rest.remove(0);
        proof {
            assert(e == old_rest[0]);
            assert(nviews(old_rest)[0] == orig.skip(done)[0]);
            assert forall|k: int| 0 <= k < rest@.len() implies #[trigger] nviews(rest@)[k] == orig.skip(done + 1)[k] by {
                assert(rest@[k] == old_rest[k + 1]);
                assert(nviews(old_rest)[k + 1] == orig.skip(done)[k + 1]);
            }
            assert(nviews(rest@) =~= orig.skip(done + 1));
            assert(orig.take(done + 1).drop_last() =~= orig.take(done));
            assert(orig.take(done + 1).last() == e@);
        }
        let mut p: usize = out.len();
        let ghost ov = nviews(out@);
        assert(ov.take(p as int) =~= ov);
        assert(ov.skip(p as int) =~= Seq::<Seq<char>>::empty());
        while p > 0
            invariant
                p <= out@.len(),
                ov == nviews(out@),
                insert_name(ov, e@) == insert_name(ov.take(p as int), e@) + ov.skip(p as int),
            ensures
                p <= out@.len(),
                insert_name(ov, e@) == insert_name(ov.take(p as int), e@) + ov.skip(p as int),
                p == 0 || !chars_lt(e@, ov[p - 1]),
            decreases p,
        {
            if !chars_less(e.as_slice(), out[p - 1].as_slice()) {
                break;
            }
            proof {
                let t = ov.take(p as int);
                assert(t.last() == ov[p - 1]);
                assert(t.drop_last() =~= ov.take(p - 1));
                assert(ov.skip(p - 1) =~= seq![ov[p - 1]] + ov.skip(p as int));
                assert(insert_name(ov.take(p - 1), e@).push(ov[p - 1]) + ov.skip(p as int)
                    =~= insert_name(ov.take(p - 1), e@) + ov.skip(p - 1));
            }
            p -= 1;
        }
        proof {
            if p == 0 {
                assert(ov.take(0) =~= Seq::<Seq<char>>::empty());
                assert(insert_name(ov, e@) =~= ov.insert(0, e@));
            } else {
                let t = ov.take(p as int);
                assert(t.last() == ov[p - 1]);
                assert(insert_name(t, e@) == t.push(e@));
                assert(insert_name(ov, e@) =~= ov.insert(p as int, e@));
            }
        }
        let ghost before = out@;
        let ghost ce = e@;
        out.insert(p, e);
        proof {
            assert(out@ == before.insert(p as int, e));
            assert(nviews(out@) =~= ov.insert(p as int, ce));
        }
    }
    proof {
        assert(orig.take(n as int) =~= orig);
    }
    out
}

fn copy_names(v: &Vec<Vec<char>>) -> (r: Vec<Vec<char>>)
    ensures
        nviews(r@) == nviews(v@),
{
    let mut r: Vec<Vec<char>> = Vec::new();
    let mut i: usize = 0;
    while i < v.len()
        invariant
            i <= v@.len(),
            nviews(r@) == nviews(v@).take(i as int),
        decreases v@.len() - i,
    {
        let ghost before = r@;
        r.push(copy_chars(&v[i]));
        assert(nviews(r@) =~= nviews(before).push(v@[i as int]@));
        assert(nviews(r@) =~= nviews(v@).take(i + 1));
        i += 1;
    }
    assert(nviews(v@).take(v@.len() as int) =~= nviews(v@));
    r
}


/// The draw state an executing draw is in.
spec fn state_of(rng: u64, attempts: usize, out: Seq<(Vec<char>, Vec<char>)>, seen: Seq<(Vec<char>, Vec<char>)>, done: bool) -> DrawState {
    DrawState { rng, attempts: attempts as nat, out: kviews(out), seen: kviews(seen), done }
}

/// Randomly draws unrelated pairs: distinct positions whose names are
/// neither explicitly linked nor already used. Deterministic given `seed`.
fn draw_unrelated(
    names: &Vec<Vec<char>>,
    linked: &Vec<(Vec<char>, Vec<char>)>,
    used: &Vec<(Vec<char>, Vec<char>)>,
    want: Option<usize>,
    seed: u64,
) -> (r: Vec<(Vec<char>, Vec<char>)>)
    ensures
        kviews(r@) == unrelated_keys(nviews(names@), kviews(linked@), kviews(used@), want, seed),
{
    let n = names.len();
    if n < 2 {
        return Vec::new();
    }
    match want {
        Some(w) => {
            if w == 0 {
                return Vec::new();
            }
        },
        None => {},
    }
    let ghost nv = nviews(names@);
    let ghost lv = kviews(linked@);
    let ghost init = DrawState { rng: seed, attempts: 0, out: Seq::empty(), seen: kviews(used@), done: false };
    let mut rng = SplitMix64::new(seed);
    let mut seen = copy_keys(used);
    let mut out: Vec<(Vec<char>, Vec<char>)> = Vec::new();
    let mut attempts: usize = 0;
    let mut done = false;
    assert(kviews(out@) =~= Seq::<(Seq<char>, Seq<char>)>::empty());
    assert(state_of(rng@, attempts, out@, seen@, done) == init);
    loop
        invariant
            n == names@.len(),
            n >= 2,
            nv == nviews(names@),
            lv == kviews(linked@),
            attempts <= UNRELATED_ATTEMPT_LIMIT,
            draws(state_of(rng@, attempts, out@, seen@, done), nv, lv, want) == draws(init, nv, lv, want),
        ensures
            state_of(rng@, attempts, out@, seen@, done) == draws(init, nv, lv, want),
        decreases UNRELATED_ATTEMPT_LIMIT - attempts,
    {
        let more = match want {
            Some(w) => out.len() < w,
            None => true,
        };
        if done || attempts >= UNRELATED_ATTEMPT_LIMIT || !more {
            break;
        }
        let ghost st = state_of(rng@, attempts, out@, seen@, done);
        assert(drawing(st, want));
        attempts += 1;
        let i = rng.below(n);
        let j = rng.below(n);
        let ghost nx = draw_step(st, nv, lv, want);
        if i == j {
            assert(state_of(rng@, attempts, out@, seen@, done) =~= nx);
            continue;
        }
        if has_key(&seen, &names[i], &names[j]) || has_key(linked, &names[i], &names[j]) {
            assert(state_of(rng@, attempts, out@, seen@, done) =~= nx);
            continue;
        }
        let ghost old_out = out@;
        let ghost old_seen = seen@;
        seen.push((copy_chars(&names[i]), copy_chars(&names[j])));
        out.push((copy_chars(&names[i]), copy_chars(&names[j])));
        if want.is_none() && out.len() >= n {
            done = true;
        }
        proof {
            assert(kviews(out@) =~= kviews(old_out).push((nv[i as int], nv[j as int])));
            assert(kviews(seen@) =~= kviews(old_seen).push((nv[i as int], nv[j as int])));
            assert(state_of(rng@, attempts, out@, seen@, done) =~= nx);
        }
    }
    out
}

/// Every input belongs to `T`'s selection.
pub open spec fn members_of<T: Target>(sel: Seq<Input>) -> bool {
    forall|k: int| 0 <= k < sel.len() ==> member_of::<T>(#[trigger] sel[k].decode_as, sel[k].invalid_as)
}

/// The example of the first selected input named `n`.
fn example_for<T: Target>(inputs: &[Input], idx: &Vec<usize>, n: &Vec<char>) -> (r: Example<T>)
    requires
        in_bounds(idx@, inputs@.len()),
        input_names(picked(inputs@, idx@)).contains(n@),
        members_of::<T>(picked(inputs@, idx@)),
    ensures
        r@ == example_named(picked(inputs@, idx@), n@),
{
    proof {
        reveal(example_named);
    }
    let ghost sel = picked(inputs@, idx@);
    let mut p: usize = 0;
    let ghost w = choose|w: int| 0 <= w < input_names(sel).len() && input_names(sel)[w] == n@;
    while p < idx.len()
        invariant
            p <= idx@.len(),
            sel == picked(inputs@, idx@),
            in_bounds(idx@, inputs@.len()),
            0 <= w < sel.len(),
            sel[w].name@ == n@,
            forall|j: int| 0 <= j < p ==> #[trigger] sel[j].name@ != n@,
            members_of::<T>(picked(inputs@, idx@)),
        decreases idx@.len() - p,
    {
        let k = idx[p];
        assert(sel[p as int] == inputs@[k as int]);
        let name = chars_of(inputs[k].name.as_str());
        if same_chars(name.as_slice(), n.as_slice()) {
            proof {
                let f = first_named(sel, n@);
                assert(exists|q: int| 0 <= q < sel.len() && sel[q].name@ == n@ && forall|j: int| 0 <= j < q ==> sel[j].name@ != n@) by {
                    assert(0 <= p < sel.len() && sel[p as int].name@ == n@ && forall|j: int| 0 <= j < p ==> sel[j].name@ != n@);
                }
                assert(0 <= f < sel.len() && sel[f].name@ == n@ && forall|j: int| 0 <= j < f ==> sel[j].name@ != n@);
                if f < p {
                    assert(sel[f].name@ != n@);
                } else if f > p {
                    assert(sel[p as int].name@ != n@);
                }
                assert(f == p);
                reveal(example_named);
                assert(member_of::<T>(sel[p as int].decode_as, sel[p as int].invalid_as));
            }
            return Example::from_input(&inputs[k]);
        }
        p += 1;
    }
    proof {
        assert(input_names(sel)[w] == sel[w].name@);
        assert(sel[w].name@ != n@);
    }
    Example::from_input(&inputs[idx[0]])
}


// --- pairs and pair queries ------------------------------------------------

/// Two inputs presented together. `related` is true for an explicit corpus
/// link (with a `hint`), false for a randomly drawn unrelated pair.
pub struct Pair<T: Target> {
    pub a: Example<T>,
    pub b: Example<T>,
    /// The relationship for an explicit link; `None` for an unrelated pair.
    pub hint: Option<PairHint>,
    /// Whether this is an explicit corpus link (vs a random unrelated draw).
    pub related: bool,
}

impl<T: Target> View for Pair<T> {
    type V = PairView;

    open spec fn view(&self) -> PairView {
        PairView { a: self.a@, b: self.b@, hint: self.hint, related: self.related }
    }
}

/// The views of a list of pairs.
pub open spec fn pair_views<T: Target>(v: Seq<Pair<T>>) -> Seq<PairView> {
    v.map_values(|p: Pair<T>| p@)
}

impl<T: Target> Pair<T> {
    /// The two examples, `a` then `b`.
    pub fn into_iter(self) -> (r: std::vec::IntoIter<Example<T>>)
        ensures
            r.remaining() == seq![self.a, self.b],
    {
        broadcast use vstd::std_specs::vec::axiom_spec_into_iter;
        let v = vec![self.a, self.b];
        v.into_iter()
    }
}

/// A pending pair selection over a [`Corpus`]. Created by [`Corpus::pairs`].
pub struct PairQuery<'c, T: Target> {
    corpus: &'c Corpus,
    hint: Option<PairHint>,
    tags: Vec<String>,
    exclude_tags: Vec<String>,
    promote: bool,
    include_invalid: bool,
    include_unrelated: Option<bool>,
    max: Option<usize>,
    seed: Option<u64>,
    _t: PhantomData<T>,
}

impl<'c, T: Target> View for PairQuery<'c, T> {
    type V = PairQueryView;

    closed spec fn view(&self) -> PairQueryView {
        PairQueryView {
            inputs: self.corpus.spec_inputs(),
            hint: self.hint,
            tags: views(self.tags@),
            exclude_tags: views(self.exclude_tags@),
            promote: self.promote,
            include_invalid: self.include_invalid,
            include_unrelated: self.include_unrelated,
            max: self.max,
            seed: self.seed,
        }
    }
}

/// A fresh pair query: no filters, promotion on, invalid inputs included,
/// unrelated pairs by default, at most [`DEFAULT_MAX`] pairs, no seed.
pub open spec fn fresh_pair_query(inputs: Seq<Input>) -> PairQueryView {
    PairQueryView {
        inputs,
        hint: None,
        tags: Seq::empty(),
        exclude_tags: Seq::empty(),
        promote: true,
        include_invalid: true,
        include_unrelated: None,
        max: Some(DEFAULT_MAX),
        seed: None,
    }
}

impl<'c, T: Target> PairQuery<'c, T> {
    pub(crate) fn new(corpus: &'c Corpus) -> (r: Self)
        ensures
            r@ == fresh_pair_query(corpus.spec_inputs()),
    {
        let r = PairQuery {
            corpus,
            hint: None,
            tags: Vec::new(),
            exclude_tags: Vec::new(),
            promote: true,
            include_invalid: true,
            include_unrelated: None,
            max: Some(DEFAULT_MAX),
            seed: None,
            _t: PhantomData,
        };
        assert(r@.tags =~= Seq::<Seq<char>>::empty());
        assert(r@.exclude_tags =~= Seq::<Seq<char>>::empty());
        r
    }

    /// Keep only explicit links with this relationship.
    pub fn hint(self, hint: PairHint) -> (r: Self)
        ensures
            r@ == (PairQueryView { hint: Some(hint), ..self@ }),
    {
        PairQuery { hint: Some(hint), ..self }
    }

    /// Require all of these tags on both inputs (via selection).
    pub fn tags<const N: usize>(self, tags: [&str; N]) -> (r: Self)
        ensures
            r@ == (PairQueryView { tags: str_views(tags@), ..self@ }),
    {
        let tags = owned_all(tags.as_slice());
        PairQuery { tags, ..self }
    }

    /// Exclude any input carrying any of these tags.
    pub fn exclude_tags<const N: usize>(self, tags: [&str; N]) -> (r: Self)
        ensures
            r@ == (PairQueryView { exclude_tags: str_views(tags@), ..self@ }),
    {
        let exclude_tags = owned_all(tags.as_slice());
        PairQuery { exclude_tags, ..self }
    }

    /// Enable/disable lossless promotion in selection. Default `true`.
    pub fn promote(self, yes: bool) -> (r: Self)
        ensures
            r@ == (PairQueryView { promote: yes, ..self@ }),
    {
        PairQuery { promote: yes, ..self }
    }

    /// Include deliberately-invalid inputs in the `examples`/`raw` views.
    pub fn include_invalid(self, yes: bool) -> (r: Self)
        ensures
            r@ == (PairQueryView { include_invalid: yes, ..self@ }),
    {
        PairQuery { include_invalid: yes, ..self }
    }

    /// Force the random *unrelated* pairs on or off. Defaults to on unless a
    /// hint or tag filter is set.
    pub fn include_unrelated(self, yes: bool) -> (r: Self)
        ensures
            r@ == (PairQueryView { include_unrelated: Some(yes), ..self@ }),
    {
        PairQuery { include_unrelated: Some(yes), ..self }
    }

    /// Cap the total number of pairs. Default [`DEFAULT_MAX`]. Pass
    /// `usize::MAX` for no practical cap.
    pub fn max(self, n: usize) -> (r: Self)
        ensures
            r@ == (PairQueryView { max: Some(n), ..self@ }),
    {
        PairQuery { max: Some(n), ..self }
    }

    /// Seed the unrelated-pair draw for reproducibility.
    pub fn seed(self, seed: u64) -> (r: Self)
        ensures
            r@ == (PairQueryView { seed: Some(seed), ..self@ }),
    {
        PairQuery { seed: Some(seed), ..self }
    }

    // --- terminals ---------------------------------------------------------

    /// Pairs of natural target values (pairs with an undecodable side are
    /// left out).
    pub fn values(self) -> (r: Vec<(T, T)>)
        ensures
            pair_values_of::<T>(built_pairs::<T>(self@, false), r@),
    {
        let ps = self.build(false);
        pair_values(&ps)
    }

    /// Rich [`Pair`] objects.
    pub fn examples(self) -> (r: Vec<Pair<T>>)
        ensures
            pair_views(r@) == built_pairs::<T>(self@, true),
    {
        self.build(true)
    }

    /// Pairs of raw payload bytes.
    pub fn raw(self) -> (r: Vec<(Vec<u8>, Vec<u8>)>)
        ensures
            byte_pairs(r@) == raw_pairs(built_pairs::<T>(self@, true)),
    {
        let ps = self.build(true);
        pair_raws(&ps)
    }

    // --- internals ---------------------------------------------------------

    /// Positions of the selected inputs, in corpus order.
    fn select_indices(&self, include_invalid: bool) -> (r: Vec<usize>)
        ensures
            in_bounds(r@, self@.inputs.len()),
            picked(self@.inputs, r@) == select_inputs::<T>(
                self@.inputs, self@.promote, include_invalid, None, self@.tags, self@.exclude_tags,
            ),
    {
        let inputs = self.corpus.inputs();
        let no_names: Option<Vec<String>> = None;
        let mut out: Vec<usize> = Vec::new();
        let mut k: usize = 0;
        while k < inputs.len()
            invariant
                k <= inputs@.len(),
                inputs@ == self@.inputs,
                no_names is None,
                in_bounds(out@, inputs@.len()),
                picked(inputs@, out@) == select_inputs::<T>(
                    inputs@.take(k as int), self@.promote, include_invalid, None, self@.tags, self@.exclude_tags,
                ),
            decreases inputs@.len() - k,
        {
            let input = &inputs[k];
            proof {
                assert(inputs@.take(k + 1).drop_last() =~= inputs@.take(k as int));
                assert(inputs@.take(k + 1).last() == *input);
            }
            if member::<T>(input, self.promote, include_invalid)
                && passes(&no_names, &self.tags, &self.exclude_tags, input) {
                let ghost before = out@;
                out.push(k);
                proof {
                    assert(picked(inputs@, out@) =~= picked(inputs@, before).push(*input));
                }
            }
            k += 1;
        }
        proof {
            assert(inputs@.take(inputs@.len() as int) =~= inputs@);
        }
        out
    }

    /// Explicit links first (deduplicated, ordered by name, capped), then
    /// the unrelated draw when wanted.
    fn build(&self, invalid_mode: bool) -> (r: Vec<Pair<T>>)
        ensures
            pair_views(r@) == built_pairs::<T>(self@, invalid_mode),
    {
        let inputs = self.corpus.inputs();
        let inv = invalid_mode && self.include_invalid;
        let idx = self.select_indices(inv);
        let ghost sel = picked(inputs@, idx@);
        proof {
            lemma_selected_members::<T>(inputs@, self.promote, inv, self@.tags, self@.exclude_tags);
        }
        let names = names_of(inputs, &idx);
        let ghost nv = nviews(names@);
        let cs = collect_candidates(inputs, &idx, &names);
        let (ex, seen) = explicit(&cs, self.hint);
        let mut sorted = sort_cand_vec(ex);
        let ghost full = cvs(sorted@);
        if let Some(m) = self.max {
            sorted.truncate(m);
        }
        proof {
            assert(cvs(sorted@) == capped(full, self.max)) by {
                match self.max {
                    Some(m) => {
                        if m < full.len() {
                            assert(cvs(sorted@) =~= full.take(m as int));
                        } else {
                            assert(cvs(sorted@) =~= full);
                        }
                    },
                    None => {},
                }
            }
            assert(cvs(sorted@) == head_links::<T>(self@, invalid_mode)) by {
                reveal(head_links);
            }
            lemma_head_from_names(nv, sel, cvs(cs@), self.hint, self.max);
        }
        let mut result = explicit_pairs::<T>(inputs, &idx, &sorted);
        let filtered = self.hint.is_some() || self.tags.len() > 0 || self.exclude_tags.len() > 0;
        let wants = match self.include_unrelated {
            Some(yes) => yes,
            None => !filtered,
        };
        assert(wants == wants_unrelated(self@));
        if !wants {
            proof {
                assert(tail_keys::<T>(self@, invalid_mode) =~= Seq::<(Seq<char>, Seq<char>)>::empty()) by {
                    reveal(tail_keys);
                }
                assert(Seq::<PairView>::empty() =~= tail_keys::<T>(self@, invalid_mode).map_values(
                    |k: (Seq<char>, Seq<char>)| unrelated_view(pair_selection::<T>(self@, invalid_mode), k),
                ));
                lemma_built_pairs::<T>(self@, invalid_mode, pair_views(result@), Seq::empty());
            }
            return result;
        }
        let want = match self.max {
            Some(m) => Some(if result.len() <= m { m - result.len() } else { 0 }),
            None => None,
        };
        let linked = keys_of(&cs);
        let sorted_names = sort_name_vec(copy_names(&names));
        let seed = match self.seed {
            Some(s) => s,
            None => 0,
        };
        proof {
            assert(result@.len() == pair_views(result@).len());
        }
        let name_count = names.len();
        let keys = draw_unrelated(&sorted_names, &linked, &seen, want, seed);
        proof {
            assert(nv.len() == name_count);
            assert(kviews(keys@) == tail_keys::<T>(self@, invalid_mode)) by {
                reveal(tail_keys);
            }
            lemma_unrelated_from_names(nv, cand_keys(cvs(cs@)), cand_keys(explicit_links(cvs(cs@), self.hint)), want, seed);
        }
        let mut more = unrelated_pairs::<T>(inputs, &idx, &keys);
        let ghost head_part = result@;
        let ghost tail_part = more@;
        result.append(&mut more);
        proof {
            assert(pair_views(result@) =~= pair_views(head_part) + pair_views(tail_part));
            lemma_built_pairs::<T>(self@, invalid_mode, pair_views(head_part), pair_views(tail_part));
        }
        result
    }
}

/// The pairs a query builds are its explicit-link pairs followed by its
/// drawn pairs.
proof fn lemma_built_pairs<T: Target>(q: PairQueryView, invalid_mode: bool, head: Seq<PairView>, tail: Seq<PairView>)
    requires
        head == head_links::<T>(q, invalid_mode).map_values(
            |c: (Seq<char>, Seq<char>, PairHint)| explicit_view(pair_selection::<T>(q, invalid_mode), c),
        ),
        tail == tail_keys::<T>(q, invalid_mode).map_values(
            |k: (Seq<char>, Seq<char>)| unrelated_view(pair_selection::<T>(q, invalid_mode), k),
        ),
    ensures
        head + tail == built_pairs::<T>(q, invalid_mode),
{
    reveal(built_pairs);
}

/// Selected inputs all belong to `T`'s selection.
proof fn lemma_selected_members<T: Target>(
    inputs: Seq<Input>,
    promote: bool,
    include_invalid: bool,
    tags: Seq<Seq<char>>,
    exclude_tags: Seq<Seq<char>>,
)
    ensures
        members_of::<T>(select_inputs::<T>(inputs, promote, include_invalid, None, tags, exclude_tags)),
{
    let sel = select_inputs::<T>(inputs, promote, include_invalid, None, tags, exclude_tags);
    lemma_selected_are_members::<T>(inputs, promote, include_invalid, None, tags, exclude_tags);
    assert forall|k: int| 0 <= k < sel.len() implies member_of::<T>(#[trigger] sel[k].decode_as, sel[k].invalid_as) by {
        let x = sel[k];
        assert(is_member::<T>(x, promote, include_invalid));
        if T::spec_accepts(x.decode_as, promote) && !promote {
            T::lemma_native_is_promoted(x.decode_as);
        }
    }
}

/// Both ends of every capped, ordered explicit link are selected names.
proof fn lemma_head_from_names(
    nv: Seq<Seq<char>>,
    sel: Seq<Input>,
    cs: Seq<(Seq<char>, Seq<char>, PairHint)>,
    hint: Option<PairHint>,
    max: Option<usize>,
)
    requires
        nv == input_names(sel),
        cs == candidates(nv, sel),
    ensures
        cand_from_names(capped(sort_cands(explicit_links(cs, hint)), max), nv),
{
    lemma_candidates(nv, sel);
    lemma_explicit_links(cs, hint);
    lemma_sort_cands(explicit_links(cs, hint));
    let full = sort_cands(explicit_links(cs, hint));
    let head = capped(full, max);
    assert forall|k: int| 0 <= k < head.len() implies nv.contains(#[trigger] head[k].0) && nv.contains(head[k].1) by {
        let c = head[k];
        assert(full[k] == c);
        assert(full.contains(c));
        assert(explicit_links(cs, hint).contains(c));
        assert(cs.contains(c));
    }
}

/// Both ends of every drawn pair are names of the list.
proof fn lemma_unrelated_from_names(
    nv: Seq<Seq<char>>,
    linked: Seq<(Seq<char>, Seq<char>)>,
    used: Seq<(Seq<char>, Seq<char>)>,
    want: Option<usize>,
    seed: u64,
)
    requires
        nv.len() <= u64::MAX,
    ensures
        from_names(unrelated_keys(sort_names(nv), linked, used, want, seed), nv),
{
    lemma_sort_names(nv);
    let sn = sort_names(nv);
    let tail = unrelated_keys(sn, linked, used, want, seed);
    if !(sn.len() < 2 || want == Some(0usize)) {
        let init = DrawState { rng: seed, attempts: 0, out: Seq::empty(), seen: used, done: false };
        lemma_draws_from_names(init, sn, linked, want);
    }
    assert forall|k: int| 0 <= k < tail.len() implies nv.contains(#[trigger] tail[k].0) && nv.contains(tail[k].1) by {
        assert(sn.contains(tail[k].0) && sn.contains(tail[k].1));
    }
}

/// Both ends of every link are names of the list.
pub open spec fn cand_from_names(cs: Seq<(Seq<char>, Seq<char>, PairHint)>, nv: Seq<Seq<char>>) -> bool {
    forall|k: int| 0 <= k < cs.len() ==> nv.contains(#[trigger] cs[k].0) && nv.contains(cs[k].1)
}

/// The explicit links as pairs.
fn explicit_pairs<T: Target>(inputs: &[Input], idx: &Vec<usize>, links: &Vec<Cand>) -> (r: Vec<Pair<T>>)
    requires
        in_bounds(idx@, inputs@.len()),
        members_of::<T>(picked(inputs@, idx@)),
        cand_from_names(cvs(links@), input_names(picked(inputs@, idx@))),
    ensures
        pair_views(r@) == cvs(links@).map_values(|c: (Seq<char>, Seq<char>, PairHint)| explicit_view(picked(inputs@, idx@), c)),
{
    let ghost sel = picked(inputs@, idx@);
    let ghost head = cvs(links@);
    let mut result: Vec<Pair<T>> = Vec::new();
    let mut i: usize = 0;
    while i < links.len()
        invariant
            i <= links@.len(),
            head == cvs(links@),
            sel == picked(inputs@, idx@),
            in_bounds(idx@, inputs@.len()),
            members_of::<T>(sel),
            cand_from_names(head, input_names(sel)),
            pair_views(result@) == head.take(i as int).map_values(|c: (Seq<char>, Seq<char>, PairHint)| explicit_view(sel, c)),
        decreases links@.len() - i,
    {
        let c = &links[i];
        assert(head[i as int] == cv(*c));
        let a = example_for::<T>(inputs, idx, &c.from);
        let b = example_for::<T>(inputs, idx, &c.to);
        let ghost before = result@;
        let pair = Pair { a, b, hint: Some(c.hint), related: true };
        result.push(pair);
        proof {
            assert(pair@ == explicit_view(sel, head[i as int]));
            assert(head.take(i + 1) =~= head.take(i as int).push(head[i as int]));
            assert(pair_views(result@) =~= pair_views(before).push(pair@));
            assert(head.take(i + 1).map_values(|c: (Seq<char>, Seq<char>, PairHint)| explicit_view(sel, c))
                =~= head.take(i as int).map_values(|c: (Seq<char>, Seq<char>, PairHint)| explicit_view(sel, c)).push(explicit_view(sel, head[i as int])));
        }
        i += 1;
    }
    assert(head.take(head.len() as int) =~= head);
    result
}

/// The drawn name pairs as pairs.
fn unrelated_pairs<T: Target>(inputs: &[Input], idx: &Vec<usize>, keys: &Vec<(Vec<char>, Vec<char>)>) -> (r: Vec<Pair<T>>)
    requires
        in_bounds(idx@, inputs@.len()),
        members_of::<T>(picked(inputs@, idx@)),
        from_names(kviews(keys@), input_names(picked(inputs@, idx@))),
    ensures
        pair_views(r@) == kviews(keys@).map_values(|k: (Seq<char>, Seq<char>)| unrelated_view(picked(inputs@, idx@), k)),
{
    let ghost sel = picked(inputs@, idx@);
    let ghost tail = kviews(keys@);
    let mut result: Vec<Pair<T>> = Vec::new();
    let mut j: usize = 0;
    while j < keys.len()
        invariant
            j <= keys@.len(),
            tail == kviews(keys@),
            sel == picked(inputs@, idx@),
            in_bounds(idx@, inputs@.len()),
            members_of::<T>(sel),
            from_names(tail, input_names(sel)),
            pair_views(result@) == tail.take(j as int).map_values(|k: (Seq<char>, Seq<char>)| unrelated_view(sel, k)),
        decreases keys@.len() - j,
    {
        assert(tail[j as int] == (keys@[j as int].0@, keys@[j as int].1@));
        let a = example_for::<T>(inputs, idx, &keys[j].0);
        let b = example_for::<T>(inputs, idx, &keys[j].1);
        let ghost before = result@;
        let pair = Pair { a, b, hint: None, related: false };
        result.push(pair);
        proof {
            assert(pair@ == unrelated_view(sel, tail[j as int]));
            assert(tail.take(j + 1) =~= tail.take(j as int).push(tail[j as int]));
            assert(pair_views(result@) =~= pair_views(before).push(pair@));
            assert(tail.take(j + 1).map_values(|k: (Seq<char>, Seq<char>)| unrelated_view(sel, k))
                =~= tail.take(j as int).map_values(|k: (Seq<char>, Seq<char>)| unrelated_view(sel, k)).push(unrelated_view(sel, tail[j as int])));
        }
        j += 1;
    }
    assert(tail.take(tail.len() as int) =~= tail);
    result
}

/// The values of pairs whose sides both decode.
fn pair_values<T: Target>(ps: &Vec<Pair<T>>) -> (r: Vec<(T, T)>)
    ensures
        pair_values_of::<T>(pair_views(ps@), r@),
{
    let mut r: Vec<(T, T)> = Vec::new();
    let mut i: usize = 0;
    while i < ps.len()
        invariant
            i <= ps@.len(),
            pair_values_of::<T>(pair_views(ps@.take(i as int)), r@),
        decreases ps@.len() - i,
    {
        let ghost s = pair_views(ps@.take(i + 1));
        proof {
            assert(s.drop_last() =~= pair_views(ps@.take(i as int)));
            assert(s.last() == ps@[i as int]@);
        }
        let va = ps[i].a.value();
        let vb = ps[i].b.value();
        match (va, vb) {
            (Ok(a), Ok(b)) => {
                let ghost before = r@;
                r.push((a, b));
                proof {
                    assert(decodable_pairs::<T>(s) == decodable_pairs::<T>(s.drop_last()).push(s.last()));
                    assert forall|k: int| 0 <= k < r@.len() implies value_of::<T>(#[trigger] decodable_pairs::<T>(s)[k].a, r@[k].0)
                        && value_of::<T>(decodable_pairs::<T>(s)[k].b, r@[k].1) by {
                        if k < before.len() {
                            assert(decodable_pairs::<T>(s)[k] == decodable_pairs::<T>(s.drop_last())[k]);
                        }
                    }
                }
            },
            _ => {},
        }
        i += 1;
    }
    assert(ps@.take(ps@.len() as int) == ps@);
    r
}

/// The raw payloads of pairs.
fn pair_raws<T: Target>(ps: &Vec<Pair<T>>) -> (r: Vec<(Vec<u8>, Vec<u8>)>)
    ensures
        byte_pairs(r@) == raw_pairs(pair_views(ps@)),
{
    let mut r: Vec<(Vec<u8>, Vec<u8>)> = Vec::new();
    let mut i: usize = 0;
    while i < ps.len()
        invariant
            i <= ps@.len(),
            byte_pairs(r@) == raw_pairs(pair_views(ps@)).take(i as int),
        decreases ps@.len() - i,
    {
        let x = vstd::slice::slice_to_vec(ps[i].a.as_bytes());
        let y = vstd::slice::slice_to_vec(ps[i].b.as_bytes());
        let ghost before = r@;
        r.push((x, y));
        proof {
            assert(raw_pairs(pair_views(ps@))[i as int] == (ps@[i as int]@.a.raw, ps@[i as int]@.b.raw));
            assert(byte_pairs(r@) =~= byte_pairs(before).push((x@, y@)));
            assert(byte_pairs(r@) =~= raw_pairs(pair_views(ps@)).take(i + 1));
        }
        i += 1;
    }
    assert(raw_pairs(pair_views(ps@)).take(ps@.len() as int) =~= raw_pairs(pair_views(ps@)));
    r
}

/// The views of pairs of byte vectors.
pub open spec fn byte_pairs(v: Seq<(Vec<u8>, Vec<u8>)>) -> Seq<(Seq<u8>, Seq<u8>)> {
    v.map_values(|p: (Vec<u8>, Vec<u8>)| (p.0@, p.1@))
}

/// The raw payloads of both sides of each pair.
pub open spec fn raw_pairs(s: Seq<PairView>) -> Seq<(Seq<u8>, Seq<u8>)> {
    s.map_values(|p: PairView| (p.a.raw, p.b.raw))
}


// --- laws --------------------------------------------------------------------

proof fn lemma_explicit_hint(cs: Seq<(Seq<char>, Seq<char>, PairHint)>, h: PairHint)
    ensures
        forall|c: (Seq<char>, Seq<char>, PairHint)| explicit_links(cs, Some(h)).contains(c) ==> c.2 == h,
    decreases cs.len(),
{
    if cs.len() > 0 {
        lemma_explicit_hint(cs.drop_last(), h);
        let r = explicit_links(cs, Some(h));
        let q = explicit_links(cs.drop_last(), Some(h));
        assert forall|c: (Seq<char>, Seq<char>, PairHint)| r.contains(c) implies c.2 == h by {
            let k = choose|k: int| 0 <= k < r.len() && r[k] == c;
            if k < q.len() {
                assert(q[k] == c);
                assert(q.contains(c));
            }
        }
    }
}

/// The explicit links of a list never repeat an unordered name pair.
pub proof fn law_explicit_links_distinct(cs: Seq<(Seq<char>, Seq<char>, PairHint)>, hint: Option<PairHint>)
    ensures
        forall|i: int, j: int| 0 <= i < j < explicit_links(cs, hint).len() ==> !same_key(
            #[trigger] explicit_links(cs, hint)[i].0,
            explicit_links(cs, hint)[i].1,
            #[trigger] explicit_links(cs, hint)[j].0,
            explicit_links(cs, hint)[j].1,
        ),
    decreases cs.len(),
{
    if cs.len() > 0 {
        law_explicit_links_distinct(cs.drop_last(), hint);
        let r = explicit_links(cs, hint);
        let q = explicit_links(cs.drop_last(), hint);
        let c = cs.last();
        assert forall|i: int, j: int| 0 <= i < j < r.len() implies !same_key(#[trigger] r[i].0, r[i].1, #[trigger] r[j].0, r[j].1) by {
            if j < q.len() {
                assert(r[i] == q[i] && r[j] == q[j]);
            } else {
                assert(r[j] == c);
                assert(r[i] == q[i]);
                assert(cand_keys(q)[i] == (q[i].0, q[i].1));
                if same_key(q[i].0, q[i].1, c.0, c.1) {
                    assert(same_key(cand_keys(q)[i].0, cand_keys(q)[i].1, c.0, c.1));
                    assert(keyed(cand_keys(q), c.0, c.1));
                }
            }
        }
    }
}

/// A draw never stops short of being fresh: what it holds as used is what
/// it was given plus what it drew, and each drawn pair is neither linked,
/// nor given as used, nor drawn twice.
pub open spec fn fresh_draw(st: DrawState, linked: Seq<(Seq<char>, Seq<char>)>, used: Seq<(Seq<char>, Seq<char>)>) -> bool {
    &&& st.seen == used + st.out
    &&& forall|k: int| 0 <= k < st.out.len() ==> !keyed(linked, #[trigger] st.out[k].0, st.out[k].1)
        && !keyed(used, st.out[k].0, st.out[k].1)
    &&& forall|i: int, j: int| 0 <= i < j < st.out.len() ==> !same_key(
        #[trigger] st.out[i].0,
        st.out[i].1,
        #[trigger] st.out[j].0,
        st.out[j].1,
    )
}

proof fn lemma_step_fresh(
    st: DrawState,
    names: Seq<Seq<char>>,
    linked: Seq<(Seq<char>, Seq<char>)>,
    used: Seq<(Seq<char>, Seq<char>)>,
    want: Option<usize>,
)
    requires
        fresh_draw(st, linked, used),
    ensures
        fresh_draw(draw_step(st, names, linked, want), linked, used),
{
    let nx = draw_step(st, names, linked, want);
    if nx.out.len() > st.out.len() {
        let s1 = advance(st.rng);
        let i = mix64(s1) % (names.len() as u64);
        let j = mix64(advance(s1)) % (names.len() as u64);
        let a = names[i as int];
        let b = names[j as int];
        assert(nx.out == st.out.push((a, b)));
        assert(!keyed(st.seen, a, b));
        assert(!keyed(linked, a, b));
        assert(nx.seen =~= used + nx.out);
        assert(!keyed(used, a, b)) by {
            if keyed(used, a, b) {
                let x = choose|x: int| 0 <= x < used.len() && same_key(used[x].0, used[x].1, a, b);
                assert(st.seen[x] == used[x]);
            }
        }
        assert forall|k: int| 0 <= k < st.out.len() implies !same_key(#[trigger] st.out[k].0, st.out[k].1, a, b) by {
            assert(st.seen[used.len() + k] == st.out[k]);
            if same_key(st.out[k].0, st.out[k].1, a, b) {
                assert(same_key(st.seen[used.len() + k].0, st.seen[used.len() + k].1, a, b));
            }
        }
        assert forall|k: int| 0 <= k < nx.out.len() implies !keyed(linked, #[trigger] nx.out[k].0, nx.out[k].1)
            && !keyed(used, nx.out[k].0, nx.out[k].1) by {
            if k < st.out.len() {
                assert(nx.out[k] == st.out[k]);
            }
        }
        assert forall|x: int, y: int| 0 <= x < y < nx.out.len() implies !same_key(
            #[trigger] nx.out[x].0,
            nx.out[x].1,
            #[trigger] nx.out[y].0,
            nx.out[y].1,
        ) by {
            if y < st.out.len() {
                assert(nx.out[x] == st.out[x] && nx.out[y] == st.out[y]);
            } else {
                assert(nx.out[x] == st.out[x] && nx.out[y] == (a, b));
                assert(!same_key(st.out[x].0, st.out[x].1, a, b));
            }
        }
    } else {
        assert(nx.out == st.out && nx.seen == st.seen);
    }
}

proof fn lemma_draws_fresh(
    st: DrawState,
    names: Seq<Seq<char>>,
    linked: Seq<(Seq<char>, Seq<char>)>,
    used: Seq<(Seq<char>, Seq<char>)>,
    want: Option<usize>,
)
    requires
        fresh_draw(st, linked, used),
    ensures
        fresh_draw(draws(st, names, linked, want), linked, used),
    decreases UNRELATED_ATTEMPT_LIMIT - st.attempts,
{
    if drawing(st, want) {
        lemma_step_fresh(st, names, linked, used, want);
        lemma_draws_fresh(draw_step(st, names, linked, want), names, linked, used, want);
    }
}

proof fn lemma_draws_within(
    st: DrawState,
    names: Seq<Seq<char>>,
    linked: Seq<(Seq<char>, Seq<char>)>,
    want: Option<usize>,
)
    requires
        want matches Some(w) ==> st.out.len() <= w,
    ensures
        want matches Some(w) ==> draws(st, names, linked, want).out.len() <= w,
    decreases UNRELATED_ATTEMPT_LIMIT - st.attempts,
{
    if drawing(st, want) {
        let nx = draw_step(st, names, linked, want);
        assert(nx.out.len() <= st.out.len() + 1);
        lemma_draws_within(nx, names, linked, want);
    }
}

/// The unrelated draw yields fresh pairs: no drawn pair is explicitly
/// linked or already used, and no unordered pair is drawn twice.
pub proof fn law_unrelated_pairs_are_fresh(
    names: Seq<Seq<char>>,
    linked: Seq<(Seq<char>, Seq<char>)>,
    used: Seq<(Seq<char>, Seq<char>)>,
    want: Option<usize>,
    seed: u64,
)
    ensures
        forall|k: int| 0 <= k < unrelated_keys(names, linked, used, want, seed).len() ==> !keyed(
            linked,
            #[trigger] unrelated_keys(names, linked, used, want, seed)[k].0,
            unrelated_keys(names, linked, used, want, seed)[k].1,
        ) && !keyed(used, unrelated_keys(names, linked, used, want, seed)[k].0, unrelated_keys(names, linked, used, want, seed)[k].1),
        forall|i: int, j: int| 0 <= i < j < unrelated_keys(names, linked, used, want, seed).len() ==> !same_key(
            #[trigger] unrelated_keys(names, linked, used, want, seed)[i].0,
            unrelated_keys(names, linked, used, want, seed)[i].1,
            #[trigger] unrelated_keys(names, linked, used, want, seed)[j].0,
            unrelated_keys(names, linked, used, want, seed)[j].1,
        ),
        want matches Some(w) ==> unrelated_keys(names, linked, used, want, seed).len() <= w,
{
    if !(names.len() < 2 || want == Some(0usize)) {
        let init = DrawState { rng: seed, attempts: 0, out: Seq::empty(), seen: used, done: false };
        assert(init.seen =~= used + init.out);
        lemma_draws_fresh(init, names, linked, used, want);
        lemma_draws_within(init, names, linked, want);
    }
}

/// The shape of a pair query's result: its explicit links come first, each
/// related and carrying its hint (the wanted one, when a hint is set); the
/// drawn pairs follow, unrelated and without a hint, and only when unrelated
/// pairs are wanted; a cap bounds the whole.
pub proof fn law_pairs_shape<T: Target>(q: PairQueryView, invalid_mode: bool)
    ensures
        forall|i: int| 0 <= i < built_pairs::<T>(q, invalid_mode).len() ==> (
            (#[trigger] built_pairs::<T>(q, invalid_mode)[i]).related <==> i < head_links::<T>(q, invalid_mode).len()),
        forall|i: int| 0 <= i < built_pairs::<T>(q, invalid_mode).len() ==> (
            (#[trigger] built_pairs::<T>(q, invalid_mode)[i]).related ==> built_pairs::<T>(q, invalid_mode)[i].hint is Some
                && (q.hint is Some ==> built_pairs::<T>(q, invalid_mode)[i].hint == q.hint)),
        forall|i: int| 0 <= i < built_pairs::<T>(q, invalid_mode).len() ==> (
            !(#[trigger] built_pairs::<T>(q, invalid_mode)[i]).related ==> built_pairs::<T>(q, invalid_mode)[i].hint is None),
        !wants_unrelated(q) ==> built_pairs::<T>(q, invalid_mode).len() == head_links::<T>(q, invalid_mode).len(),
        q.max matches Some(m) ==> built_pairs::<T>(q, invalid_mode).len() <= m,
{
    reveal(built_pairs);
    reveal(head_links);
    reveal(tail_keys);
    let sel = pair_selection::<T>(q, invalid_mode);
    let cs = candidates(input_names(sel), sel);
    let ex = explicit_links(cs, q.hint);
    let full = sort_cands(ex);
    let head = head_links::<T>(q, invalid_mode);
    let tail = tail_keys::<T>(q, invalid_mode);
    let r = built_pairs::<T>(q, invalid_mode);
    let hv = head.map_values(|c: (Seq<char>, Seq<char>, PairHint)| explicit_view(sel, c));
    let tv = tail.map_values(|k: (Seq<char>, Seq<char>)| unrelated_view(sel, k));
    assert(r == hv + tv);
    lemma_sort_cands(ex);
    if let Some(h) = q.hint {
        lemma_explicit_hint(cs, h);
    }
    assert forall|i: int| 0 <= i < r.len() implies ((#[trigger] r[i]).related <==> i < head.len())
        && (r[i].related ==> r[i].hint is Some && (q.hint is Some ==> r[i].hint == q.hint))
        && (!r[i].related ==> r[i].hint is None) by {
        if i < head.len() {
            assert(r[i] == hv[i]);
            assert(r[i] == explicit_view(sel, head[i]));
            if let Some(h) = q.hint {
                assert(head[i] == full[i]);
                assert(full.contains(head[i]));
                assert(ex.contains(head[i]));
            }
        } else {
            assert(r[i] == tv[i - head.len()]);
        }
    }
    if let Some(m) = q.max {
        let sn = sort_names(input_names(sel));
        let want = still_wanted(q.max, head.len());
        law_unrelated_pairs_are_fresh(
            sn,
            cand_keys(cs),
            cand_keys(ex),
            want,
            match q.seed {
                Some(s) => s,
                None => 0u64,
            },
        );
    }
}

/// A hint or tag filter turns unrelated pairs off unless they are asked
/// for: such a query (or one told not to include them) returns only its
/// explicit, related links.
pub proof fn law_filtered_pairs_are_related<T: Target>(q: PairQueryView, invalid_mode: bool)
    requires
        q.include_unrelated == Some(false) || (q.include_unrelated is None && (q.hint is Some || q.tags.len() > 0
            || q.exclude_tags.len() > 0)),
    ensures
        built_pairs::<T>(q, invalid_mode).len() == head_links::<T>(q, invalid_mode).len(),
        forall|i: int| 0 <= i < built_pairs::<T>(q, invalid_mode).len() ==> (#[trigger] built_pairs::<T>(q, invalid_mode)[i]).related
            && built_pairs::<T>(q, invalid_mode)[i].hint is Some,
{
    law_pairs_shape::<T>(q, invalid_mode);
}

} // verus!
