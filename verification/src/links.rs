//! Resolving `pair[].with` declarations to links between inputs.
//!
//! Each declaration is a path relative to the declaring input's own `path`;
//! it is matched on the lexically normalised path of the target input, and
//! links both ways. Links are deduplicated per input (the first link to a
//! target wins) and sorted by name.

use vstd::prelude::*;

use crate::corpus::{Input, PairHint, PairLink, hint_of, last_named, RawEntry, RawPair};
use crate::path::{norm, posix_dirname, posix_join, spec_norm, spec_dirname, spec_join_path};
use crate::text::{chars_of, same_chars, same_text, chars_lt, chars_less, lemma_chars_lt_total,
    lemma_chars_lt_transitive};

verus! {

/// A resolved declaration: declaring input, target name, hint.
pub type Decl = (int, Seq<char>, PairHint);

/// The pair declarations of an index entry.
pub open spec fn entry_pairs(e: RawEntry) -> Seq<RawPair> {
    match e.pair {
        Some(v) => v@,
        None => Seq::empty(),
    }
}

/// Index of the last input with a non-empty path that normalises to `tp`.
pub open spec fn path_owner(inputs: Seq<Input>, tp: Seq<char>) -> Option<int>
    decreases inputs.len(),
{
    if inputs.len() == 0 {
        None
    } else if inputs.last().path@.len() > 0 && spec_norm(inputs.last().path@) == tp {
        Some(inputs.len() - 1)
    } else {
        path_owner(inputs.drop_last(), tp)
    }
}

/// The normalised path a declaration of input `k` points at.
pub open spec fn link_target(inputs: Seq<Input>, k: int, p: RawPair) -> Seq<char> {
    spec_norm(spec_join_path(spec_dirname(inputs[k].path@), p.with@))
}

/// The input that holds the links of input `k`'s name: the last input of
/// that name.
pub open spec fn named_index(inputs: Seq<Input>, k: int) -> int {
    match last_named(inputs, inputs[k].name@) {
        Some(i) => i,
        None => k,
    }
}

/// A declaration of input `k`, resolved: it needs a known hint and a target.
/// It links both ways: the declaring input to the target, then the target
/// back to the declaring input, with the same hint.
pub open spec fn resolve_decl(inputs: Seq<Input>, k: int, p: RawPair) -> Seq<Decl> {
    match (hint_of(p.hint@), path_owner(inputs, link_target(inputs, k, p))) {
        (Some(h), Some(j)) => seq![
            (named_index(inputs, k), inputs[j].name@, h),
            (named_index(inputs, j), inputs[k].name@, h),
        ],
        _ => Seq::empty(),
    }
}

/// The resolved declarations among the first `m` pairs of entry `k`.
pub open spec fn decls_of_entry(inputs: Seq<Input>, raw: Seq<RawEntry>, k: int, m: int) -> Seq<Decl>
    decreases m,
{
    if m <= 0 {
        Seq::empty()
    } else {
        decls_of_entry(inputs, raw, k, m - 1) + resolve_decl(inputs, k, entry_pairs(raw[k])[m - 1])
    }
}

/// The resolved declarations of entries `0..k`, in order.
pub open spec fn decls_upto(inputs: Seq<Input>, raw: Seq<RawEntry>, k: int) -> Seq<Decl>
    decreases k,
{
    if k <= 0 {
        Seq::empty()
    } else {
        decls_upto(inputs, raw, k - 1) + decls_of_entry(inputs, raw, k - 1, entry_pairs(raw[k - 1]).len() as int)
    }
}

/// Declarations kept after dropping every repeat of an earlier
/// (declaring input, target) pair.
pub open spec fn accepted(ds: Seq<Decl>) -> Seq<Decl>
    decreases ds.len(),
{
    if ds.len() == 0 {
        Seq::empty()
    } else {
        let a = accepted(ds.drop_last());
        let d = ds.last();
        if exists|x: int| 0 <= x < a.len() && a[x].0 == d.0 && a[x].1 == d.1 {
            a
        } else {
            a.push(d)
        }
    }
}

/// The (name, hint) pairs of the declarations of input `i`, in order.
pub open spec fn of_input(ds: Seq<Decl>, i: int) -> Seq<(Seq<char>, PairHint)>
    decreases ds.len(),
{
    if ds.len() == 0 {
        Seq::empty()
    } else {
        let r = of_input(ds.drop_last(), i);
        if ds.last().0 == i {
            r.push((ds.last().1, ds.last().2))
        } else {
            r
        }
    }
}

/// The (name, hint) pairs an input ends up linked with.
pub open spec fn links_of(ds: Seq<Decl>, i: int) -> Seq<(Seq<char>, PairHint)> {
    of_input(accepted(ds), i)
}

/// The (name, hint) of a link.
pub open spec fn link_view(l: PairLink) -> (Seq<char>, PairHint) {
    (l.name@, l.hint)
}

/// Some link of the list has this (name, hint).
pub open spec fn has_view(links: Seq<PairLink>, v: (Seq<char>, PairHint)) -> bool {
    exists|q: int| 0 <= q < links.len() && link_view(#[trigger] links[q]) == v
}

/// Links strictly ascending by name.
pub open spec fn strictly_sorted(links: Seq<PairLink>) -> bool {
    forall|a: int, b: int| 0 <= a < b < links.len() ==> chars_lt(#[trigger] links[a].name@, #[trigger] links[b].name@)
}

/// The links an input holds after resolution: the accepted declarations of
/// that input, sorted by name.
pub open spec fn resolved_links(links: Seq<PairLink>, ds: Seq<Decl>, i: int) -> bool {
    &&& strictly_sorted(links)
    &&& forall|v: (Seq<char>, PairHint)| has_view(links, v) <==> links_of(ds, i).contains(v)
}


// --- execution -------------------------------------------------------------

/// A (declaring input, link) pair as a declaration.
pub open spec fn decl_view(e: (usize, PairLink)) -> Decl {
    (e.0 as int, e.1.name@, e.1.hint)
}

pub open spec fn decl_views(v: Seq<(usize, PairLink)>) -> Seq<Decl> {
    v.map_values(|e: (usize, PairLink)| decl_view(e))
}

fn clone_link(l: &PairLink) -> (r: PairLink)
    ensures
        link_view(r) == link_view(*l),
{
    PairLink { name: l.name.clone(), hint: l.hint }
}

/// The normalised path of every input with a non-empty path.
fn normalised_paths(inputs: &Vec<Input>) -> (r: Vec<Option<Vec<char>>>)
    ensures
        r@.len() == inputs@.len(),
        forall|j: int| 0 <= j < r@.len() ==> match #[trigger] r@[j] {
            Some(p) => inputs@[j].path@.len() > 0 && p@ == spec_norm(inputs@[j].path@),
            None => inputs@[j].path@.len() == 0,
        },
{
    let mut r: Vec<Option<Vec<char>>> = Vec::new();
    let mut j: usize = 0;
    while j < inputs.len()
        invariant
            j <= inputs@.len(),
            r@.len() == j,
            forall|x: int| 0 <= x < j ==> match #[trigger] r@[x] {
                Some(p) => inputs@[x].path@.len() > 0 && p@ == spec_norm(inputs@[x].path@),
                None => inputs@[x].path@.len() == 0,
            },
        decreases inputs@.len() - j,
    {
        if inputs[j].path.as_str().is_empty() {
            r.push(None);
        } else {
            let n = norm(inputs[j].path.as_str());
            r.push(Some(chars_of(n.as_str())));
        }
        j += 1;
    }
    r
}

fn find_path_owner(inputs: &Vec<Input>, normed: &Vec<Option<Vec<char>>>, tp: &Vec<char>) -> (r: Option<usize>)
    requires
        normed@.len() == inputs@.len(),
        forall|j: int| 0 <= j < normed@.len() ==> match #[trigger] normed@[j] {
            Some(p) => inputs@[j].path@.len() > 0 && p@ == spec_norm(inputs@[j].path@),
            None => inputs@[j].path@.len() == 0,
        },
    ensures
        match path_owner(inputs@, tp@) {
            Some(j) => r == Some(j as usize),
            None => r is None,
        },
        r matches Some(j) ==> j < inputs@.len() && path_owner(inputs@, tp@) == Some(j as int),
{
    let mut j = normed.len();
    assert(inputs@.take(j as int) == inputs@);
    while j > 0
        invariant
            j <= normed@.len(),
            normed@.len() == inputs@.len(),
            forall|x: int| 0 <= x < normed@.len() ==> match #[trigger] normed@[x] {
                Some(p) => inputs@[x].path@.len() > 0 && p@ == spec_norm(inputs@[x].path@),
                None => inputs@[x].path@.len() == 0,
            },
            path_owner(inputs@, tp@) == path_owner(inputs@.take(j as int), tp@),
        decreases j,
    {
        assert(inputs@.take(j as int).drop_last() == inputs@.take(j - 1));
        assert(inputs@.take(j as int).last() == inputs@[j - 1]);
        match &normed[j - 1] {
            Some(p) => {
                if same_chars(p.as_slice(), tp.as_slice()) {
                    return Some(j - 1);
                }
            },
            None => {},
        }
        j -= 1;
    }
    None
}

fn find_last_named(inputs: &Vec<Input>, k: usize) -> (r: usize)
    requires
        k < inputs@.len(),
    ensures
        r < inputs@.len(),
        r == match last_named(inputs@, inputs@[k as int].name@) {
            Some(i) => i,
            None => k as int,
        },
{
    let ghost name = inputs@[k as int].name@;
    let mut j = inputs.len();
    assert(inputs@.take(j as int) == inputs@);
    while j > 0
        invariant
            j <= inputs@.len(),
            k < inputs@.len(),
            name == inputs@[k as int].name@,
            last_named(inputs@, name) == last_named(inputs@.take(j as int), name),
            j <= k ==> last_named(inputs@, name) is Some,
        decreases j,
    {
        assert(inputs@.take(j as int).drop_last() == inputs@.take(j - 1));
        assert(inputs@.take(j as int).last() == inputs@[j - 1]);
        if same_text(inputs[j - 1].name.as_str(), inputs[k].name.as_str()) {
            return j - 1;
        }
        j -= 1;
    }
    k
}

fn has_link(flat: &Vec<(usize, PairLink)>, src: usize, name: &Vec<char>) -> (r: bool)
    ensures
        r == exists|x: int| 0 <= x < flat@.len() && decl_views(flat@)[x].0 == src as int && decl_views(flat@)[x].1 == name@,
{
    let mut x: usize = 0;
    while x < flat.len()
        invariant
            x <= flat@.len(),
            forall|y: int| 0 <= y < x ==> !(decl_views(flat@)[y].0 == src as int && decl_views(flat@)[y].1 == name@),
        decreases flat@.len() - x,
    {
        if flat[x].0 == src {
            let c = chars_of(flat[x].1.name.as_str());
            if same_chars(c.as_slice(), name.as_slice()) {
                assert(decl_views(flat@)[x as int] == decl_view(flat@[x as int]));
                return true;
            }
        }
        assert(decl_views(flat@)[x as int] == decl_view(flat@[x as int]));
        x += 1;
    }
    false
}

/// Parses a hint token into the hint `hint_of` names.
fn parse_hint(s: &str) -> (r: Option<PairHint>)
    ensures
        r == hint_of(s@),
{
    let r = PairHint::parse(s);
    proof {
        match r {
            Some(h) => {
                assert(h.token() == s@);
                let c = choose|x: PairHint| x.token() == s@;
                crate::corpus::lemma_hint_token_injective(c, h);
            },
            None => {},
        }
    }
    r
}

/// The accepted declarations of entries `0..min(inputs, raw)`.
fn accepted_decls(inputs: &Vec<Input>, raw: &Vec<RawEntry>) -> (r: Vec<(usize, PairLink)>)
    ensures
        decl_views(r@) == accepted(decls_upto(inputs@, raw@, if inputs@.len() < raw@.len() { inputs@.len() as int } else { raw@.len() as int })),
        forall|x: int| 0 <= x < r@.len() ==> (#[trigger] r@[x]).0 < inputs@.len(),
{
    let normed = normalised_paths(inputs);
    let lim = if inputs.len() < raw.len() { inputs.len() } else { raw.len() };
    let mut flat: Vec<(usize, PairLink)> = Vec::new();
    let mut k: usize = 0;
    while k < lim
        invariant
            k <= lim,
            lim <= inputs@.len(),
            lim <= raw@.len(),
            lim == if inputs@.len() < raw@.len() { inputs@.len() as int } else { raw@.len() as int },
            normed@.len() == inputs@.len(),
            forall|j: int| 0 <= j < normed@.len() ==> match #[trigger] normed@[j] {
                Some(p) => inputs@[j].path@.len() > 0 && p@ == spec_norm(inputs@[j].path@),
                None => inputs@[j].path@.len() == 0,
            },
            decl_views(flat@) == accepted(decls_upto(inputs@, raw@, k as int)),
            forall|x: int| 0 <= x < flat@.len() ==> (#[trigger] flat@[x]).0 < inputs@.len(),
        decreases lim - k,
    {
        let base = posix_dirname(inputs[k].path.as_str());
        let ghost prior = decls_upto(inputs@, raw@, k as int);
        match &raw[k].pair {
            None => {
                assert(entry_pairs(raw@[k as int]) == Seq::<RawPair>::empty());
                assert(decls_upto(inputs@, raw@, k + 1) == prior + Seq::<Decl>::empty());
                assert(prior + Seq::<Decl>::empty() == prior);
            },
            Some(pairs) => {
                let mut m: usize = 0;
                assert(prior + decls_of_entry(inputs@, raw@, k as int, 0) == prior);
                while m < pairs.len()
                    invariant
                        m <= pairs@.len(),
                        k < lim,
                        lim <= inputs@.len(),
                        lim <= raw@.len(),
                        raw@[k as int].pair == Some(*pairs),
                        base@ == spec_dirname(inputs@[k as int].path@),
                        prior == decls_upto(inputs@, raw@, k as int),
                        normed@.len() == inputs@.len(),
                        forall|j: int| 0 <= j < normed@.len() ==> match #[trigger] normed@[j] {
                            Some(p) => inputs@[j].path@.len() > 0 && p@ == spec_norm(inputs@[j].path@),
                            None => inputs@[j].path@.len() == 0,
                        },
                        decl_views(flat@) == accepted(prior + decls_of_entry(inputs@, raw@, k as int, m as int)),
                        forall|x: int| 0 <= x < flat@.len() ==> (#[trigger] flat@[x]).0 < inputs@.len(),
                    decreases pairs@.len() - m,
                {
                    let p = &pairs[m];
                    assert(entry_pairs(raw@[k as int])[m as int] == *p);
                    let ghost before = decls_of_entry(inputs@, raw@, k as int, m as int);
                    let hint = parse_hint(p.hint.as_str());
                    let joined = posix_join(base.as_str(), p.with.as_str());
                    let tp_s = norm(joined.as_str());
                    let tp = chars_of(tp_s.as_str());
                    assert(tp@ == link_target(inputs@, k as int, *p));
                    let owner = find_path_owner(inputs, &normed, &tp);
                    if hint.is_some() && owner.is_some() {
                        let h = hint.unwrap();
                        let j = owner.unwrap();
                        let src = find_last_named(inputs, k);
                        let dst = find_last_named(inputs, j);
                        let name = chars_of(inputs[j].name.as_str());
                        let back = chars_of(inputs[k].name.as_str());
                        let ghost d1: Decl = (src as int, inputs@[j as int].name@, h);
                        let ghost d2: Decl = (dst as int, inputs@[k as int].name@, h);
                        assert(hint_of(p.hint@) == Some(h));
                        assert(path_owner(inputs@, link_target(inputs@, k as int, *p)) == Some(j as int));
                        assert(resolve_decl(inputs@, k as int, *p) == seq![d1, d2]);
                        assert(decls_of_entry(inputs@, raw@, k as int, m + 1) == before + seq![d1, d2]);
                        assert(prior + (before + seq![d1, d2]) == (prior + before).push(d1).push(d2));
                        assert((prior + before).push(d1).push(d2).drop_last() == (prior + before).push(d1));
                        assert((prior + before).push(d1).drop_last() == prior + before);
                        if !has_link(&flat, src, &name) {
                            let ghost old_flat = flat@;
                            flat.push((src, PairLink { name: inputs[j].name.clone(), hint: h }));
                            assert(decl_views(flat@) =~= decl_views(old_flat).push(d1));
                        }
                        assert(decl_views(flat@) == accepted((prior + before).push(d1)));
                        if !has_link(&flat, dst, &back) {
                            let ghost old_flat = flat@;
                            flat.push((dst, PairLink { name: inputs[k].name.clone(), hint: h }));
                            assert(decl_views(flat@) =~= decl_views(old_flat).push(d2));
                        }
                    } else {
                        assert(resolve_decl(inputs@, k as int, *p) == Seq::<Decl>::empty());
                        assert(decls_of_entry(inputs@, raw@, k as int, m + 1) == before + Seq::<Decl>::empty());
                        assert(before + Seq::<Decl>::empty() == before);
                    }
                    m += 1;
                }
                assert(entry_pairs(raw@[k as int]).len() == pairs@.len());
            },
        }
        k += 1;
    }
    flat
}

/// No two accepted declarations share both declaring input and target.
pub open spec fn distinct_pairs(a: Seq<Decl>) -> bool {
    forall|x: int, y: int| 0 <= x < y < a.len() ==> !(#[trigger] a[x].0 == #[trigger] a[y].0 && a[x].1 == a[y].1)
}

proof fn lemma_accepted_distinct(ds: Seq<Decl>)
    ensures
        distinct_pairs(accepted(ds)),
    decreases ds.len(),
{
    if ds.len() > 0 {
        lemma_accepted_distinct(ds.drop_last());
    }
}

/// A link of input `i` comes from one of its accepted declarations.
pub proof fn lemma_of_input_member(a: Seq<Decl>, i: int, v: (Seq<char>, PairHint))
    requires
        of_input(a, i).contains(v),
    ensures
        exists|x: int| 0 <= x < a.len() && #[trigger] a[x].0 == i && a[x].1 == v.0,
    decreases a.len(),
{
    let r = of_input(a.drop_last(), i);
    if a.last().0 == i && v == (a.last().1, a.last().2) {
        assert(a[a.len() - 1].0 == i);
    } else {
        if a.last().0 == i {
            let q = choose|q: int| 0 <= q < r.push((a.last().1, a.last().2)).len() && r.push((a.last().1, a.last().2))[q] == v;
            assert(q < r.len());
            assert(r[q] == v);
        }
        assert(r.contains(v));
        lemma_of_input_member(a.drop_last(), i, v);
        let x = choose|x: int| 0 <= x < a.drop_last().len() && #[trigger] a.drop_last()[x].0 == i && a.drop_last()[x].1 == v.0;
        assert(a[x] == a.drop_last()[x]);
    }
}

proof fn lemma_of_input_distinct(a: Seq<Decl>, i: int)
    requires
        distinct_pairs(a),
    ensures
        forall|x: int, y: int| 0 <= x < y < of_input(a, i).len() ==> #[trigger] of_input(a, i)[x].0 != #[trigger] of_input(a, i)[y].0,
    decreases a.len(),
{
    if a.len() > 0 {
        let b = a.drop_last();
        assert(distinct_pairs(b)) by {
            assert forall|x: int, y: int| 0 <= x < y < b.len() implies !(#[trigger] b[x].0 == #[trigger] b[y].0 && b[x].1 == b[y].1) by {
                assert(b[x] == a[x] && b[y] == a[y]);
            }
        }
        lemma_of_input_distinct(b, i);
        let r = of_input(b, i);
        if a.last().0 == i {
            let v = (a.last().1, a.last().2);
            assert forall|x: int| 0 <= x < r.len() implies r[x].0 != v.0 by {
                assert(r.contains(r[x]));
                lemma_of_input_member(b, i, r[x]);
                let z = choose|z: int| 0 <= z < b.len() && #[trigger] b[z].0 == i && b[z].1 == r[x].0;
                assert(a[z] == b[z]);
                assert(!(a[z].0 == a[a.len() - 1].0 && a[z].1 == a[a.len() - 1].1));
            }
            let s = r.push(v);
            assert forall|x: int, y: int| 0 <= x < y < s.len() implies #[trigger] s[x].0 != #[trigger] s[y].0 by {
                if y == s.len() - 1 {
                    assert(s[x] == r[x]);
                } else {
                    assert(s[x] == r[x] && s[y] == r[y]);
                }
            }
        }
    }
}

/// The links of input `i` among the accepted declarations, in order.
fn gather(flat: &Vec<(usize, PairLink)>, i: usize) -> (r: Vec<PairLink>)
    ensures
        r@.map_values(|l: PairLink| link_view(l)) == of_input(decl_views(flat@), i as int),
{
    let mut r: Vec<PairLink> = Vec::new();
    let mut x: usize = 0;
    assert(decl_views(flat@).take(0) == Seq::<Decl>::empty());
    while x < flat.len()
        invariant
            x <= flat@.len(),
            r@.map_values(|l: PairLink| link_view(l)) == of_input(decl_views(flat@).take(x as int), i as int),
        decreases flat@.len() - x,
    {
        let ghost dv = decl_views(flat@);
        assert(dv.take(x + 1).drop_last() == dv.take(x as int));
        assert(dv.take(x + 1).last() == decl_view(flat@[x as int]));
        if flat[x].0 == i {
            let ghost old_r = r@;
            r.push(clone_link(&flat[x].1));
            assert(r@.map_values(|l: PairLink| link_view(l)) =~= old_r.map_values(|l: PairLink| link_view(l)).push(
                (flat@[x as int].1.name@, flat@[x as int].1.hint)));
        }
        x += 1;
    }
    assert(decl_views(flat@).take(flat@.len() as int) == decl_views(flat@));
    r
}

/// Sorts links with distinct names into strictly ascending name order.
fn sort_links(row: &Vec<PairLink>) -> (r: Vec<PairLink>)
    requires
        forall|a: int, b: int| 0 <= a < b < row@.len() ==> #[trigger] row@[a].name@ != #[trigger] row@[b].name@,
    ensures
        strictly_sorted(r@),
        forall|v: (Seq<char>, PairHint)| has_view(r@, v) <==> has_view(row@, v),
{
    let mut r: Vec<PairLink> = Vec::new();
    let mut i: usize = 0;
    while i < row.len()
        invariant
            i <= row@.len(),
            forall|a: int, b: int| 0 <= a < b < row@.len() ==> #[trigger] row@[a].name@ != #[trigger] row@[b].name@,
            strictly_sorted(r@),
            forall|v: (Seq<char>, PairHint)| has_view(r@, v) <==> has_view(row@.take(i as int), v),
        decreases row@.len() - i,
    {
        let t = clone_link(&row[i]);
        let tn = chars_of(t.name.as_str());
        let mut p: usize = 0;
        let mut scanning = true;
        while scanning && p < r.len()
            invariant
                p <= r@.len(),
                tn@ == t.name@,
                forall|q: int| 0 <= q < p ==> chars_lt(#[trigger] r@[q].name@, t.name@),
                !scanning ==> p < r@.len() && !chars_lt(r@[p as int].name@, t.name@),
            decreases r@.len() - p + (if scanning { 1int } else { 0int }),
        {
            let rn = chars_of(r[p].name.as_str());
            if chars_less(rn.as_slice(), tn.as_slice()) {
                p += 1;
            } else {
                scanning = false;
            }
        }
        proof {
            // every link from position p on sorts strictly after t
            assert forall|q: int| p <= q < r@.len() implies chars_lt(t.name@, #[trigger] r@[q].name@) by {
                if chars_lt(r@[q].name@, t.name@) {
                    if q > p {
                        lemma_chars_lt_transitive(r@[p as int].name@, r@[q].name@, t.name@);
                    }
                }
                assert(has_view(r@, link_view(r@[q])));
                assert(has_view(row@.take(i as int), link_view(r@[q])));
                let z = choose|z: int| 0 <= z < row@.take(i as int).len() && link_view(#[trigger] row@.take(i as int)[z]) == link_view(r@[q]);
                assert(row@[z] == row@.take(i as int)[z]);
                assert(row@[z].name@ != row@[i as int].name@);
                lemma_chars_lt_total(t.name@, r@[q].name@);
            }
        }
        let ghost old_r = r@;
        r.insert(p, t);
        proof {
            assert(r@ == old_r.insert(p as int, t));
            assert forall|a: int, b: int| 0 <= a < b < r@.len() implies chars_lt(#[trigger] r@[a].name@, #[trigger] r@[b].name@) by {
                if b < p {
                    assert(r@[a] == old_r[a] && r@[b] == old_r[b]);
                } else if b == p {
                    assert(r@[a] == old_r[a]);
                } else if a < p {
                    assert(r@[a] == old_r[a] && r@[b] == old_r[b - 1]);
                    lemma_chars_lt_transitive(old_r[a].name@, t.name@, old_r[b - 1].name@);
                } else if a == p {
                    assert(r@[b] == old_r[b - 1]);
                } else {
                    assert(r@[a] == old_r[a - 1] && r@[b] == old_r[b - 1]);
                }
            }
            assert(row@.take(i + 1) == row@.take(i as int).push(row@[i as int]));
            assert forall|v: (Seq<char>, PairHint)| has_view(r@, v) <==> has_view(row@.take(i + 1), v) by {
                if has_view(r@, v) {
                    let q = choose|q: int| 0 <= q < r@.len() && link_view(#[trigger] r@[q]) == v;
                    if q < p {
                        assert(r@[q] == old_r[q]);
                        assert(has_view(old_r, v));
                        let z = choose|z: int| 0 <= z < row@.take(i as int).len() && link_view(#[trigger] row@.take(i as int)[z]) == v;
                        assert(row@.take(i + 1)[z] == row@.take(i as int)[z]);
                    } else if q == p {
                        assert(row@.take(i + 1)[i as int] == row@[i as int]);
                    } else {
                        assert(r@[q] == old_r[q - 1]);
                        assert(has_view(old_r, v));
                        let z = choose|z: int| 0 <= z < row@.take(i as int).len() && link_view(#[trigger] row@.take(i as int)[z]) == v;
                        assert(row@.take(i + 1)[z] == row@.take(i as int)[z]);
                    }
                }
                if has_view(row@.take(i + 1), v) {
                    let z = choose|z: int| 0 <= z < row@.take(i + 1).len() && link_view(#[trigger] row@.take(i + 1)[z]) == v;
                    if z < i {
                        assert(row@.take(i as int)[z] == row@.take(i + 1)[z]);
                        assert(has_view(row@.take(i as int), v));
                        assert(has_view(old_r, v));
                        let q = choose|q: int| 0 <= q < old_r.len() && link_view(#[trigger] old_r[q]) == v;
                        if q < p {
                            assert(r@[q] == old_r[q]);
                        } else {
                            assert(r@[q + 1] == old_r[q]);
                        }
                    } else {
                        assert(r@[p as int] == t);
                    }
                }
            }
        }
        i += 1;
    }
    assert(row@.take(row@.len() as int) == row@);
    r
}

/// The number of entries that pair up with inputs.
pub open spec fn paired_len(inputs: Seq<Input>, raw: Seq<RawEntry>) -> int {
    if inputs.len() < raw.len() {
        inputs.len() as int
    } else {
        raw.len() as int
    }
}

/// `a` and `b` agree on everything but the links.
pub open spec fn same_but_links(a: Input, b: Input) -> bool {
    &&& a.name == b.name
    &&& a.path == b.path
    &&& a.description == b.description
    &&& a.tags == b.tags
    &&& a.decode_as == b.decode_as
    &&& a.invalid_as == b.invalid_as
    &&& a.unicode_meta == b.unicode_meta
    &&& a.payload == b.payload
}

/// Resolve each entry's `pair[].with` (a path relative to the linking input's
/// own `path`) to the target input's name and make the link symmetric: the
/// declaring input links to the target and the target links back, so a
/// one-sided declaration still links both ways (each on the last input of its
/// name). A link that is already present keeps its first hint; each input's
/// links end up sorted by name.
pub fn resolve_pairs(inputs: &mut Vec<Input>, raw: &Vec<RawEntry>)
    ensures
        final(inputs)@.len() == old(inputs)@.len(),
        forall|i: int| 0 <= i < final(inputs)@.len() ==> same_but_links(#[trigger] final(inputs)@[i], old(inputs)@[i]),
        forall|i: int| 0 <= i < final(inputs)@.len() ==> resolved_links(
            #[trigger] final(inputs)@[i].links@,
            decls_upto(old(inputs)@, raw@, paired_len(old(inputs)@, raw@)),
            i,
        ),
{
    let ghost orig = inputs@;
    let ghost ds = decls_upto(orig, raw@, paired_len(orig, raw@));
    let flat = accepted_decls(inputs, raw);
    proof {
        lemma_accepted_distinct(ds);
    }
    let n = inputs.len();
    let mut i: usize = 0;
    while i < n
        invariant
            i <= n,
            n == orig.len(),
            inputs@.len() == n,
            ds == decls_upto(orig, raw@, paired_len(orig, raw@)),
            decl_views(flat@) == accepted(ds),
            distinct_pairs(accepted(ds)),
            forall|x: int| 0 <= x < n ==> same_but_links(#[trigger] inputs@[x], orig[x]),
            forall|x: int| 0 <= x < i ==> resolved_links(#[trigger] inputs@[x].links@, ds, x),
        decreases n - i,
    {
        let row = gather(&flat, i);
        proof {
            lemma_of_input_distinct(accepted(ds), i as int);
            let rv = row@.map_values(|l: PairLink| link_view(l));
            let oi = of_input(accepted(ds), i as int);
            assert(rv == oi);
            assert forall|a: int, b: int| 0 <= a < b < row@.len() implies #[trigger] row@[a].name@ != #[trigger] row@[b].name@ by {
                assert(rv[a] == link_view(row@[a]) && rv[b] == link_view(row@[b]));
                assert(oi[a].0 != oi[b].0);
            }
        }
        let sorted = sort_links(&row);
        proof {
            let rv = row@.map_values(|l: PairLink| link_view(l));
            assert forall|v: (Seq<char>, PairHint)| has_view(row@, v) <==> links_of(ds, i as int).contains(v) by {
                if has_view(row@, v) {
                    let q = choose|q: int| 0 <= q < row@.len() && link_view(#[trigger] row@[q]) == v;
                    assert(rv[q] == v);
                }
                if links_of(ds, i as int).contains(v) {
                    let q = choose|q: int| 0 <= q < rv.len() && rv[q] == v;
                    assert(link_view(row@[q]) == v);
                }
            }
        }
        inputs[i].links = sorted;
        i += 1;
    }
}

} // verus!
