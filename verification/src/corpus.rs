//! The loaded corpus: inputs with their metadata, raw payloads and resolved
//! pair links, built from a parsed index and the payload blob.

use vstd::prelude::*;

use crate::decode_as::DecodeAs;
use crate::error::ParseError;
use crate::text::{same_text, owned, clone_strings, chars_le};
use crate::name_order::{sort_entries, sort_entries_by_name, law_sort_entries};
use crate::links::{resolve_pairs, resolved_links, decls_upto, path_owner, link_target, resolve_decl, decls_of_entry, entry_pairs,
    accepted, of_input, links_of, link_view, has_view, Decl, named_index, lemma_of_input_member};

verus! {

/// How two paired inputs relate (the `pair[].hint` value).
#[derive(Debug, Clone, Copy, PartialEq, Eq, Structural)]
pub enum PairHint {
    /// They look different but should compare equal.
    Equal,
    /// They look the same but should compare unequal.
    NotEqual,
    /// Together they form a tricky case.
    Tricky,
}

impl PairHint {
    pub open spec fn token(self) -> Seq<char> {
        match self {
            PairHint::Equal => "equal"@,
            PairHint::NotEqual => "not-equal"@,
            PairHint::Tricky => "tricky"@,
        }
    }

    /// Parses a hint token; `None` for an unknown one.
    pub fn parse(s: &str) -> (r: Option<PairHint>)
        ensures
            forall|h: PairHint| r == Some(h) <==> h.token() == s@,
    {
        let r = if same_text(s, "equal") {
            Some(PairHint::Equal)
        } else if same_text(s, "not-equal") {
            Some(PairHint::NotEqual)
        } else if same_text(s, "tricky") {
            Some(PairHint::Tricky)
        } else {
            None
        };
        proof {
            reveal_strlit("equal");
            reveal_strlit("not-equal");
            reveal_strlit("tricky");
            assert forall|h: PairHint| r == Some(h) <==> h.token() == s@ by {
                if let Some(e) = r {
                    if h.token() == s@ && h != e {
                        assert(h.token()[0] != e.token()[0]);
                    }
                }
            }
        }
        r
    }
}

/// Distinct hints have distinct tokens.
pub proof fn lemma_hint_token_injective(a: PairHint, b: PairHint)
    requires
        a.token() == b.token(),
    ensures
        a == b,
{
    reveal_strlit("equal");
    reveal_strlit("not-equal");
    reveal_strlit("tricky");
    let t = a.token();
    let u = b.token();
    assert(t.len() == u.len());
    assert(t[0] == u[0]);
}

/// The hint a token names, if any.
pub open spec fn hint_of(s: Seq<char>) -> Option<PairHint> {
    if exists|h: PairHint| h.token() == s {
        Some(choose|h: PairHint| h.token() == s)
    } else {
        None
    }
}

/// A resolved link from one input to another in the corpus.
#[derive(Debug, Clone)]
pub struct PairLink {
    /// Name of the linked input.
    pub name: String,
    /// How the two relate.
    pub hint: PairHint,
}

/// Known-good Unicode segmentation counts, present for Unicode text inputs.
#[derive(Debug, Clone, Copy, PartialEq, Eq)]
pub struct UnicodeMeta {
    pub code_units: u64,
    pub code_points: u64,
    pub scalar_values: u64,
    pub legacy_grapheme_clusters: u64,
    pub extended_grapheme_clusters: u64,
}

/// One corpus input: its metadata, raw payload and resolved links.
#[derive(Debug, Clone)]
pub struct Input {
    pub name: String,
    pub path: String,
    pub description: String,
    pub tags: Vec<String>,
    /// The stored `decode-as` (`bytes` when absent).
    pub decode_as: DecodeAs,
    /// For deliberately-invalid inputs: the type this *would* decode as if valid.
    pub invalid_as: Option<DecodeAs>,
    pub unicode_meta: Option<UnicodeMeta>,
    pub payload: Vec<u8>,
    pub links: Vec<PairLink>,
}

impl Input {
    /// True for an ordinary, valid input; false for a deliberately-invalid one.
    pub fn is_valid(&self) -> (r: bool)
        ensures
            r == (self.invalid_as is None),
    {
        self.invalid_as.is_none()
    }
}

/// One `pair[]` declaration of an index entry.
#[derive(Debug, Clone)]
pub struct RawPair {
    pub with: String,
    pub hint: String,
}

/// One input entry of the index, as the index JSON holds it.
#[derive(Debug, Clone)]
pub struct RawEntry {
    pub name: String,
    pub description: Option<String>,
    pub tags: Vec<String>,
    pub decode_as: Option<String>,
    pub invalid_as: Option<String>,
    pub pair: Option<Vec<RawPair>>,
    pub unicode_meta: Option<UnicodeMeta>,
    pub path: Option<String>,
    pub offset: usize,
    pub length: usize,
}

/// The index of a corpus artifact, as the index JSON holds it.
#[derive(Debug, Clone)]
pub struct RawIndex {
    pub version: Option<String>,
    pub inputs: Vec<RawEntry>,
}

/// The views of a list of strings.
pub open spec fn views(v: Seq<String>) -> Seq<Seq<char>> {
    v.map_values(|s: String| s@)
}

/// A loaded corpus.
#[derive(Debug, Clone)]
pub struct Corpus {
    pub(crate) version: String,
    pub(crate) inputs: Vec<Input>,
}

/// Index of the last input with the given name.
pub open spec fn last_named(inputs: Seq<Input>, name: Seq<char>) -> Option<int>
    decreases inputs.len(),
{
    if inputs.len() == 0 {
        None
    } else if inputs.last().name@ == name {
        Some(inputs.len() - 1)
    } else {
        last_named(inputs.drop_last(), name)
    }
}

impl Corpus {
    /// The corpus version recorded in the index.
    pub closed spec fn spec_version(&self) -> Seq<char> {
        self.version@
    }

    /// All inputs, in name order.
    pub closed spec fn spec_inputs(&self) -> Seq<Input> {
        self.inputs@
    }

    /// The corpus version recorded in the index.
    pub fn version(&self) -> (r: &str)
        ensures
            r@ == self.spec_version(),
    {
        self.version.as_str()
    }

    /// All inputs, in deterministic (name-sorted) order.
    pub fn inputs(&self) -> (r: &[Input])
        ensures
            r@ == self.spec_inputs(),
    {
        self.inputs.as_slice()
    }

    /// Look up an input by its name (the last one, should the index repeat a
    /// name).
    pub fn input(&self, name: &str) -> (r: Option<&Input>)
        ensures
            match last_named(self.spec_inputs(), name@) {
                Some(i) => r == Some(&self.spec_inputs()[i]),
                None => r is None,
            },
    {
        let mut i = self.inputs.len();
        assert(self.inputs@.take(i as int) == self.inputs@);
        while i > 0
            invariant
                i <= self.inputs@.len(),
                last_named(self.inputs@, name@) == last_named(self.inputs@.take(i as int), name@),
            decreases i,
        {
            assert(self.inputs@.take(i as int).drop_last() == self.inputs@.take(i - 1));
            if same_text(self.inputs[i - 1].name.as_str(), name) {
                return Some(&self.inputs[i - 1]);
            }
            i -= 1;
        }
        None
    }
}

// --- building a corpus from its index ---------------------------------------

/// The type a token names, if any.
pub open spec fn decode_token(s: Seq<char>) -> Option<DecodeAs> {
    if exists|d: DecodeAs| d.token() == s {
        Some(choose|d: DecodeAs| d.token() == s)
    } else {
        None
    }
}

/// The text of an optional string (empty when absent).
pub open spec fn opt_text(o: Option<String>) -> Seq<char> {
    match o {
        Some(s) => s@,
        None => Seq::empty(),
    }
}

/// An absent token, or one naming a known type.
pub open spec fn token_ok(t: Option<String>) -> bool {
    t matches Some(s) ==> decode_token(s@) is Some
}

/// The entry's slice lies inside the blob.
pub open spec fn slice_ok(e: RawEntry, blob_len: nat) -> bool {
    e.offset + e.length <= blob_len
}

/// An entry that yields an input.
pub open spec fn entry_ok(e: RawEntry, blob_len: nat) -> bool {
    slice_ok(e, blob_len) && token_ok(e.decode_as) && token_ok(e.invalid_as)
}

/// `err` is the error an entry that yields no input is refused with: a bad
/// slice first, then an unknown `decode-as`, then an unknown `invalid-as`.
pub open spec fn entry_error(e: RawEntry, blob_len: nat, err: ParseError) -> bool {
    if !slice_ok(e, blob_len) {
        err matches ParseError::BadSlice { name, offset, length, blob_len: bl }
            && name@ == e.name@ && offset == e.offset && length == e.length && bl == blob_len
    } else if !token_ok(e.decode_as) {
        err matches ParseError::UnknownToken { field, token }
            && field@ == "decode-as"@ && token@ == opt_text(e.decode_as)
    } else {
        err matches ParseError::UnknownToken { field, token }
            && field@ == "invalid-as"@ && token@ == opt_text(e.invalid_as)
    }
}

/// `inp` is the input an entry describes (before links are resolved).
pub open spec fn input_from(inp: Input, e: RawEntry, blob: Seq<u8>) -> bool {
    &&& inp.name@ == e.name@
    &&& inp.path@ == opt_text(e.path)
    &&& inp.description@ == opt_text(e.description)
    &&& views(inp.tags@) == views(e.tags@)
    &&& inp.decode_as == match e.decode_as {
        Some(s) => decode_token(s@)->Some_0,
        None => DecodeAs::Bytes,
    }
    &&& inp.invalid_as == match e.invalid_as {
        Some(s) => decode_token(s@),
        None => None,
    }
    &&& inp.unicode_meta == e.unicode_meta
    &&& inp.payload@ == blob.subrange(e.offset as int, e.offset + e.length)
}

/// The version a corpus records: the index's, or `dev` when absent.
pub open spec fn index_version(v: Option<String>) -> Seq<char> {
    match v {
        Some(s) => s@,
        None => "dev"@,
    }
}

/// `r` is what building a corpus from `doc` and `blob` gives: the first
/// entry (in index order) that yields no input decides the error; otherwise
/// every entry yields its input, the inputs are listed in name order (the
/// stable sort of the entries by name), links are resolved, and the version
/// is the index's.
pub open spec fn built_from_index(doc: RawIndex, blob: Seq<u8>, r: Result<Corpus, ParseError>) -> bool {
    &&& r is Ok <==> forall|k: int| 0 <= k < doc.inputs@.len() ==> entry_ok(#[trigger] doc.inputs@[k], blob.len())
    &&& r matches Err(e) ==> exists|k: int| {
        &&& 0 <= k < doc.inputs@.len()
        &&& forall|j: int| 0 <= j < k ==> entry_ok(#[trigger] doc.inputs@[j], blob.len())
        &&& !entry_ok(doc.inputs@[k], blob.len())
        &&& entry_error(#[trigger] doc.inputs@[k], blob.len(), e)
    }
    &&& r matches Ok(c) ==> {
        let sorted = sort_entries(doc.inputs@);
        &&& c.spec_version() == index_version(doc.version)
        &&& c.spec_inputs().len() == doc.inputs@.len()
        &&& forall|k: int| 0 <= k < doc.inputs@.len() ==> input_from(#[trigger] c.spec_inputs()[k], sorted[k], blob)
        &&& forall|j: int, k: int| 0 <= j < k < c.spec_inputs().len()
            ==> chars_le(#[trigger] c.spec_inputs()[j].name@, #[trigger] c.spec_inputs()[k].name@)
        &&& forall|k: int| 0 <= k < doc.inputs@.len() ==> resolved_links(
            #[trigger] c.spec_inputs()[k].links@,
            decls_upto(c.spec_inputs(), sorted, doc.inputs@.len() as int),
            k,
        )
    }
}

/// Parse an optional `decode-as`/`invalid-as` token, erroring on an unknown
/// one rather than silently treating it as bytes.
fn parse_token(field: &'static str, token: &Option<String>) -> (r: Result<Option<DecodeAs>, ParseError>)
    ensures
        r is Ok <==> token_ok(*token),
        r matches Ok(d) ==> d == match *token {
            Some(s) => decode_token(s@),
            None => None,
        },
        r matches Err(e) ==> e matches ParseError::UnknownToken { field: f, token: t } && f == field && t@ == opt_text(*token),
{
    match token.as_ref() {
        None => Ok(None),
        Some(s) => match DecodeAs::from_token(s.as_str()) {
            Some(d) => {
                proof {
                    assert(d.token() == s@);
                    let c = choose|x: DecodeAs| x.token() == s@;
                    crate::decode_as::lemma_token_injective(c, d);
                }
                Ok(Some(d))
            },
            None => Err(ParseError::UnknownToken { field, token: s.clone() }),
        },
    }
}

fn opt_string(o: &Option<String>) -> (r: String)
    ensures
        r@ == opt_text(*o),
{
    match o {
        Some(s) => s.clone(),
        None => String::new(),
    }
}

fn copy_bytes(blob: &[u8], start: usize, end: usize) -> (r: Vec<u8>)
    requires
        start <= end <= blob@.len(),
    ensures
        r@ == blob@.subrange(start as int, end as int),
{
    vstd::slice::slice_to_vec(vstd::slice::slice_subrange(blob, start, end))
}

impl Corpus {
    /// Build a corpus from a parsed index and the payload blob: each entry's
    /// payload is its `offset`/`length` slice of the blob; tokens are parsed
    /// (an absent `decode-as` means `bytes`); the inputs are listed in name
    /// order; pair declarations are resolved and link both ways.
    pub fn from_index(doc: RawIndex, blob: &[u8]) -> (r: Result<Corpus, ParseError>)
        ensures
            built_from_index(doc, blob@, r),
    {
        let mut k: usize = 0;
        while k < doc.inputs.len()
            invariant
                k <= doc.inputs@.len(),
                forall|j: int| 0 <= j < k ==> entry_ok(#[trigger] doc.inputs@[j], blob@.len()),
            decreases doc.inputs@.len() - k,
        {
            match check_entry(&doc.inputs[k], blob.len()) {
                Ok(()) => {},
                Err(e) => {
                    return Err(e);
                },
            }
            k += 1;
        }
        let ghost all = doc.inputs@;
        let version = match &doc.version {
            Some(v) => v.clone(),
            None => owned("dev"),
        };
        let entries = sort_entries_by_name(doc.inputs);
        proof {
            broadcast use vstd::seq_lib::group_to_multiset_ensures;
            law_sort_entries(all);
            assert forall|j: int| 0 <= j < entries@.len() implies entry_ok(#[trigger] entries@[j], blob@.len()) by {
                assert(entries@.to_multiset().count(entries@[j]) > 0);
                assert(all.to_multiset().count(entries@[j]) > 0);
                assert(all.contains(entries@[j]));
                let z = choose|z: int| 0 <= z < all.len() && all[z] == entries@[j];
                assert(entry_ok(all[z], blob@.len()));
            }
        }
        let mut inputs: Vec<Input> = Vec::new();
        let mut k: usize = 0;
        while k < entries.len()
            invariant
                k <= entries@.len(),
                inputs@.len() == k,
                forall|j: int| 0 <= j < entries@.len() ==> entry_ok(#[trigger] entries@[j], blob@.len()),
                forall|j: int| 0 <= j < k ==> input_from(#[trigger] inputs@[j], entries@[j], blob@),
            decreases entries@.len() - k,
        {
            let input = input_of(&entries[k], blob);
            inputs.push(input);
            k += 1;
        }
        let ghost before = inputs@;
        resolve_pairs(&mut inputs, &entries);
        proof {
            lemma_decls_agree(before, inputs@, entries@, entries@.len() as int);
            assert forall|j: int, k: int| 0 <= j < k < inputs@.len()
                implies chars_le(#[trigger] inputs@[j].name@, #[trigger] inputs@[k].name@) by {
                assert(input_from(inputs@[j], entries@[j], blob@));
                assert(input_from(inputs@[k], entries@[k], blob@));
            }
        }
        Ok(Corpus { version, inputs })
    }
}

/// Checks that an entry yields an input: its slice lies inside the blob and
/// its tokens are known.
fn check_entry(entry: &RawEntry, blob_len: usize) -> (r: Result<(), ParseError>)
    ensures
        r is Ok <==> entry_ok(*entry, blob_len as nat),
        r matches Err(e) ==> entry_error(*entry, blob_len as nat, e),
{
    let bad_slice = match entry.offset.checked_add(entry.length) {
        Some(e) => e > blob_len,
        None => true,
    };
    if bad_slice {
        return Err(ParseError::BadSlice {
            name: entry.name.clone(),
            offset: entry.offset,
            length: entry.length,
            blob_len,
        });
    }
    match parse_token("decode-as", &entry.decode_as) {
        Ok(_) => {},
        Err(e) => {
            proof {
                reveal_strlit("decode-as");
            }
            return Err(e);
        },
    }
    match parse_token("invalid-as", &entry.invalid_as) {
        Ok(_) => {},
        Err(e) => {
            proof {
                reveal_strlit("invalid-as");
            }
            return Err(e);
        },
    }
    Ok(())
}

/// The input an entry describes, before its links are resolved.
fn input_of(entry: &RawEntry, blob: &[u8]) -> (r: Input)
    requires
        entry_ok(*entry, blob@.len()),
    ensures
        input_from(r, *entry, blob@),
{
    assert(blob@.len() == blob.len());
    let payload = copy_bytes(blob, entry.offset, entry.offset + entry.length);
    let decode_as = match parse_token("decode-as", &entry.decode_as) {
        Ok(Some(d)) => d,
        _ => DecodeAs::Bytes,
    };
    let invalid_as = match parse_token("invalid-as", &entry.invalid_as) {
        Ok(d) => d,
        Err(_) => None,
    };
    Input {
        name: entry.name.clone(),
        path: opt_string(&entry.path),
        description: opt_string(&entry.description),
        tags: clone_strings(entry.tags.as_slice()),
        decode_as,
        invalid_as,
        unicode_meta: entry.unicode_meta,
        payload,
        links: Vec::new(),
    }
}

/// Resolution reads only names and paths, so inputs that agree on those
/// resolve the same declarations.
proof fn lemma_decls_agree(a: Seq<Input>, b: Seq<Input>, raw: Seq<RawEntry>, k: int)
    requires
        k <= a.len(),
        a.len() == b.len(),
        forall|i: int| 0 <= i < a.len() ==> #[trigger] a[i].name@ == b[i].name@ && a[i].path@ == b[i].path@,
    ensures
        decls_upto(a, raw, k) == decls_upto(b, raw, k),
    decreases k,
{
    if k > 0 {
        lemma_decls_agree(a, b, raw, k - 1);
        lemma_entry_decls_agree(a, b, raw, k - 1, entry_pairs(raw[k - 1]).len() as int);
    }
}

proof fn lemma_entry_decls_agree(a: Seq<Input>, b: Seq<Input>, raw: Seq<RawEntry>, k: int, m: int)
    requires
        0 <= k < a.len(),
        a.len() == b.len(),
        forall|i: int| 0 <= i < a.len() ==> #[trigger] a[i].name@ == b[i].name@ && a[i].path@ == b[i].path@,
    ensures
        decls_of_entry(a, raw, k, m) == decls_of_entry(b, raw, k, m),
    decreases m,
{
    if m > 0 {
        lemma_entry_decls_agree(a, b, raw, k, m - 1);
        let p = entry_pairs(raw[k])[m - 1];
        {
            assert(a[k].path@ == b[k].path@ && a[k].name@ == b[k].name@);
            assert(link_target(a, k, p) == link_target(b, k, p));
            lemma_path_owner_agree(a, b, link_target(a, k, p));
            lemma_last_named_agree(a, b, a[k].name@);
            match path_owner(a, link_target(a, k, p)) {
                Some(j) => {
                    lemma_path_owner_range(a, link_target(a, k, p));
                    assert(a[j].name@ == b[j].name@);
                    lemma_last_named_agree(a, b, a[j].name@);
                },
                None => {},
            }
            assert(resolve_decl(a, k, p) == resolve_decl(b, k, p));
        }
    }
}

proof fn lemma_path_owner_range(a: Seq<Input>, tp: Seq<char>)
    ensures
        path_owner(a, tp) matches Some(j) ==> 0 <= j < a.len(),
    decreases a.len(),
{
    if a.len() > 0 {
        lemma_path_owner_range(a.drop_last(), tp);
    }
}

proof fn lemma_path_owner_agree(a: Seq<Input>, b: Seq<Input>, tp: Seq<char>)
    requires
        a.len() == b.len(),
        forall|i: int| 0 <= i < a.len() ==> #[trigger] a[i].name@ == b[i].name@ && a[i].path@ == b[i].path@,
    ensures
        path_owner(a, tp) == path_owner(b, tp),
    decreases a.len(),
{
    if a.len() > 0 {
        let z = a.len() - 1;
        assert(a[z].name@ == b[z].name@ && a[z].path@ == b[z].path@);
        assert forall|i: int| 0 <= i < a.drop_last().len() implies #[trigger] a.drop_last()[i].name@ == b.drop_last()[i].name@
            && a.drop_last()[i].path@ == b.drop_last()[i].path@ by {
            assert(a.drop_last()[i] == a[i] && b.drop_last()[i] == b[i]);
        }
        lemma_path_owner_agree(a.drop_last(), b.drop_last(), tp);
    }
}

proof fn lemma_last_named_agree(a: Seq<Input>, b: Seq<Input>, n: Seq<char>)
    requires
        a.len() == b.len(),
        forall|i: int| 0 <= i < a.len() ==> #[trigger] a[i].name@ == b[i].name@ && a[i].path@ == b[i].path@,
    ensures
        last_named(a, n) == last_named(b, n),
    decreases a.len(),
{
    if a.len() > 0 {
        let z = a.len() - 1;
        assert(a[z].name@ == b[z].name@ && a[z].path@ == b[z].path@);
        assert forall|i: int| 0 <= i < a.drop_last().len() implies #[trigger] a.drop_last()[i].name@ == b.drop_last()[i].name@
            && a.drop_last()[i].path@ == b.drop_last()[i].path@ by {
            assert(a.drop_last()[i] == a[i] && b.drop_last()[i] == b[i]);
        }
        lemma_last_named_agree(a.drop_last(), b.drop_last(), n);
    }
}


// --- every link names an input ---------------------------------------------

/// Some input of the list has this name.
pub open spec fn names_an_input(inputs: Seq<Input>, n: Seq<char>) -> bool {
    exists|j: int| 0 <= j < inputs.len() && #[trigger] inputs[j].name@ == n
}

proof fn lemma_entry_decls_named(inputs: Seq<Input>, raw: Seq<RawEntry>, k: int, m: int)
    requires
        0 <= k < inputs.len(),
    ensures
        forall|x: Decl| decls_of_entry(inputs, raw, k, m).contains(x) ==> names_an_input(inputs, x.1),
    decreases m,
{
    if m > 0 {
        lemma_entry_decls_named(inputs, raw, k, m - 1);
        let before = decls_of_entry(inputs, raw, k, m - 1);
        let r = decls_of_entry(inputs, raw, k, m);
        let p = entry_pairs(raw[k])[m - 1];
        let extra = resolve_decl(inputs, k, p);
        assert(r == before + extra);
        lemma_path_owner_range(inputs, link_target(inputs, k, p));
        assert forall|x: Decl| r.contains(x) implies names_an_input(inputs, x.1) by {
            let q = choose|q: int| 0 <= q < r.len() && r[q] == x;
            if q < before.len() {
                assert(before[q] == x);
                assert(before.contains(x));
            } else {
                let j = path_owner(inputs, link_target(inputs, k, p))->Some_0;
                assert(extra[q - before.len()] == x);
                if q == before.len() {
                    assert(inputs[j].name@ == x.1);
                } else {
                    assert(inputs[k].name@ == x.1);
                }
            }
        }
    }
}

proof fn lemma_decls_named(inputs: Seq<Input>, raw: Seq<RawEntry>, k: int)
    requires
        k <= inputs.len(),
    ensures
        forall|x: Decl| decls_upto(inputs, raw, k).contains(x) ==> names_an_input(inputs, x.1),
    decreases k,
{
    if k > 0 {
        lemma_decls_named(inputs, raw, k - 1);
        let m = entry_pairs(raw[k - 1]).len() as int;
        lemma_entry_decls_named(inputs, raw, k - 1, m);
        let a = decls_upto(inputs, raw, k - 1);
        let b = decls_of_entry(inputs, raw, k - 1, m);
        assert forall|x: Decl| decls_upto(inputs, raw, k).contains(x) implies names_an_input(inputs, x.1) by {
            let r = decls_upto(inputs, raw, k);
            assert(r == a + b);
            let q = choose|q: int| 0 <= q < r.len() && r[q] == x;
            if q < a.len() {
                assert(a[q] == x);
                assert(a.contains(x));
            } else {
                assert(b[q - a.len()] == x);
                assert(b.contains(x));
            }
        }
    }
}

proof fn lemma_accepted_within(ds: Seq<Decl>)
    ensures
        forall|x: Decl| accepted(ds).contains(x) ==> ds.contains(x),
    decreases ds.len(),
{
    if ds.len() > 0 {
        lemma_accepted_within(ds.drop_last());
        let a = accepted(ds.drop_last());
        assert forall|x: Decl| accepted(ds).contains(x) implies ds.contains(x) by {
            let r = accepted(ds);
            let q = choose|q: int| 0 <= q < r.len() && r[q] == x;
            if q < a.len() {
                assert(a[q] == x);
                assert(a.contains(x));
                assert(ds.drop_last().contains(x));
                let z = choose|z: int| 0 <= z < ds.drop_last().len() && ds.drop_last()[z] == x;
                assert(ds[z] == x);
            } else {
                assert(ds[ds.len() - 1] == x);
            }
        }
    }
}

proof fn lemma_of_input_within(ds: Seq<Decl>, i: int)
    ensures
        forall|v: (Seq<char>, PairHint)| of_input(ds, i).contains(v) ==> exists|x: Decl| ds.contains(x) && x.1 == v.0,
    decreases ds.len(),
{
    if ds.len() > 0 {
        lemma_of_input_within(ds.drop_last(), i);
        let a = of_input(ds.drop_last(), i);
        assert forall|v: (Seq<char>, PairHint)| of_input(ds, i).contains(v) implies exists|x: Decl| ds.contains(x) && x.1 == v.0 by {
            let r = of_input(ds, i);
            let q = choose|q: int| 0 <= q < r.len() && r[q] == v;
            if q < a.len() {
                assert(a[q] == v);
                assert(a.contains(v));
                let x = choose|x: Decl| ds.drop_last().contains(x) && x.1 == v.0;
                let z = choose|z: int| 0 <= z < ds.drop_last().len() && ds.drop_last()[z] == x;
                assert(ds[z] == x);
                assert(ds.contains(x));
            } else {
                let x = ds.last();
                assert(ds[ds.len() - 1] == x);
                assert(ds.contains(x) && x.1 == v.0);
            }
        }
    }
}

/// Every resolved link of a built corpus names one of its inputs.
pub proof fn law_links_name_inputs(doc: RawIndex, blob: Seq<u8>, c: Corpus)
    requires
        built_from_index(doc, blob, Ok(c)),
    ensures
        forall|k: int, l: int| 0 <= k < c.spec_inputs().len() && 0 <= l < c.spec_inputs()[k].links@.len()
            ==> names_an_input(c.spec_inputs(), #[trigger] c.spec_inputs()[k].links@[l].name@),
{
    let inputs = c.spec_inputs();
    let ds = decls_upto(inputs, sort_entries(doc.inputs@), doc.inputs@.len() as int);
    lemma_decls_named(inputs, sort_entries(doc.inputs@), doc.inputs@.len() as int);
    lemma_accepted_within(ds);
    assert forall|k: int, l: int| 0 <= k < inputs.len() && 0 <= l < inputs[k].links@.len()
        implies names_an_input(inputs, #[trigger] inputs[k].links@[l].name@) by {
        let links = inputs[k].links@;
        assert(resolved_links(links, ds, k));
        let v = link_view(links[l]);
        assert(has_view(links, v));
        assert(links_of(ds, k).contains(v));
        lemma_of_input_within(accepted(ds), k);
        let x = choose|x: Decl| accepted(ds).contains(x) && x.1 == v.0;
        assert(ds.contains(x));
    }
}

// --- links go both ways ----------------------------------------------------

proof fn lemma_last_named_found(inputs: Seq<Input>, name: Seq<char>)
    ensures
        last_named(inputs, name) matches Some(i) ==> 0 <= i < inputs.len() && inputs[i].name@ == name,
        (exists|j: int| 0 <= j < inputs.len() && #[trigger] inputs[j].name@ == name) ==> last_named(inputs, name) is Some,
    decreases inputs.len(),
{
    if inputs.len() > 0 {
        let d = inputs.drop_last();
        lemma_last_named_found(d, name);
        if inputs.last().name@ != name {
            if exists|j: int| 0 <= j < inputs.len() && #[trigger] inputs[j].name@ == name {
                let j = choose|j: int| 0 <= j < inputs.len() && #[trigger] inputs[j].name@ == name;
                assert(j < inputs.len() - 1);
                assert(d[j] == inputs[j]);
            }
            match last_named(d, name) {
                Some(i) => {
                    assert(d[i] == inputs[i]);
                },
                None => {},
            }
        }
    }
}

/// The declaration that records `x` the other way round: from the input
/// named by `x` back to the name of `x`'s declaring input, with its hint.
pub open spec fn partner(inputs: Seq<Input>, x: Decl) -> Decl {
    (
        match last_named(inputs, x.1) {
            Some(i) => i,
            None => -1,
        },
        inputs[x.0].name@,
        x.2,
    )
}

proof fn lemma_entry_decls_paired(inputs: Seq<Input>, raw: Seq<RawEntry>, k: int, m: int)
    requires
        0 <= k < inputs.len(),
    ensures
        forall|x: Decl| #[trigger] decls_of_entry(inputs, raw, k, m).contains(x) ==> 0 <= x.0 < inputs.len()
            && decls_of_entry(inputs, raw, k, m).contains(partner(inputs, x)),
    decreases m,
{
    if m > 0 {
        lemma_entry_decls_paired(inputs, raw, k, m - 1);
        let before = decls_of_entry(inputs, raw, k, m - 1);
        let r = decls_of_entry(inputs, raw, k, m);
        let p = entry_pairs(raw[k])[m - 1];
        let extra = resolve_decl(inputs, k, p);
        assert(r == before + extra);
        lemma_path_owner_range(inputs, link_target(inputs, k, p));
        assert forall|x: Decl| #[trigger] r.contains(x) implies 0 <= x.0 < inputs.len() && r.contains(partner(inputs, x)) by {
            let q = choose|q: int| 0 <= q < r.len() && r[q] == x;
            if q < before.len() {
                assert(before[q] == x);
                assert(before.contains(x));
                let z = choose|z: int| 0 <= z < before.len() && before[z] == partner(inputs, x);
                assert(r[z] == before[z]);
            } else {
                let j = path_owner(inputs, link_target(inputs, k, p))->Some_0;
                lemma_last_named_found(inputs, inputs[k].name@);
                lemma_last_named_found(inputs, inputs[j].name@);
                let d1 = extra[0];
                let d2 = extra[1];
                assert(r[before.len() as int] == d1);
                assert(r[before.len() as int + 1] == d2);
                assert(d1.0 == named_index(inputs, k));
                assert(d2.0 == named_index(inputs, j));
                assert(partner(inputs, d1) == d2);
                assert(partner(inputs, d2) == d1);
                assert(extra[q - before.len()] == x);
            }
        }
    }
}

proof fn lemma_decls_paired(inputs: Seq<Input>, raw: Seq<RawEntry>, k: int)
    requires
        k <= inputs.len(),
    ensures
        forall|x: Decl| #[trigger] decls_upto(inputs, raw, k).contains(x) ==> 0 <= x.0 < inputs.len()
            && decls_upto(inputs, raw, k).contains(partner(inputs, x)),
    decreases k,
{
    if k > 0 {
        lemma_decls_paired(inputs, raw, k - 1);
        let m = entry_pairs(raw[k - 1]).len() as int;
        lemma_entry_decls_paired(inputs, raw, k - 1, m);
        let a = decls_upto(inputs, raw, k - 1);
        let b = decls_of_entry(inputs, raw, k - 1, m);
        let r = decls_upto(inputs, raw, k);
        assert(r == a + b);
        assert forall|x: Decl| #[trigger] r.contains(x) implies 0 <= x.0 < inputs.len() && r.contains(partner(inputs, x)) by {
            let q = choose|q: int| 0 <= q < r.len() && r[q] == x;
            if q < a.len() {
                assert(a[q] == x);
                assert(a.contains(x));
                let z = choose|z: int| 0 <= z < a.len() && a[z] == partner(inputs, x);
                assert(r[z] == a[z]);
            } else {
                assert(b[q - a.len()] == x);
                assert(b.contains(x));
                let z = choose|z: int| 0 <= z < b.len() && b[z] == partner(inputs, x);
                assert(r[z + a.len()] == b[z]);
            }
        }
    }
}

/// Every declaration keeps an accepted one with the same input and target.
proof fn lemma_accepted_covers(ds: Seq<Decl>, x: Decl)
    requires
        ds.contains(x),
    ensures
        exists|y: Decl| #[trigger] accepted(ds).contains(y) && y.0 == x.0 && y.1 == x.1,
    decreases ds.len(),
{
    let a = accepted(ds.drop_last());
    if ds.last() == x {
        if exists|z: int| 0 <= z < a.len() && a[z].0 == x.0 && a[z].1 == x.1 {
            let z = choose|z: int| 0 <= z < a.len() && a[z].0 == x.0 && a[z].1 == x.1;
            assert(accepted(ds) == a);
            assert(accepted(ds).contains(a[z]));
        } else {
            assert(accepted(ds) == a.push(x));
            assert(accepted(ds)[a.len() as int] == x);
            assert(accepted(ds).contains(x));
        }
    } else {
        let q = choose|q: int| 0 <= q < ds.len() && ds[q] == x;
        assert(q < ds.len() - 1);
        assert(ds.drop_last()[q] == x);
        lemma_accepted_covers(ds.drop_last(), x);
        let y = choose|y: Decl| #[trigger] a.contains(y) && y.0 == x.0 && y.1 == x.1;
        let z = choose|z: int| 0 <= z < a.len() && a[z] == y;
        if accepted(ds) == a {
        } else {
            assert(accepted(ds) == a.push(ds.last()));
            assert(accepted(ds)[z] == y);
        }
        assert(accepted(ds).contains(y));
    }
}

/// Each declaration lands among the links of its declaring input.
proof fn lemma_of_input_has(a: Seq<Decl>, y: Decl)
    requires
        a.contains(y),
    ensures
        of_input(a, y.0).contains((y.1, y.2)),
    decreases a.len(),
{
    let r = of_input(a.drop_last(), y.0);
    if a.last() == y {
        assert(of_input(a, y.0) == r.push((y.1, y.2)));
        assert(of_input(a, y.0)[r.len() as int] == (y.1, y.2));
    } else {
        let q = choose|q: int| 0 <= q < a.len() && a[q] == y;
        assert(q < a.len() - 1);
        assert(a.drop_last()[q] == y);
        lemma_of_input_has(a.drop_last(), y);
        let z = choose|z: int| 0 <= z < r.len() && r[z] == (y.1, y.2);
        if a.last().0 == y.0 {
            assert(of_input(a, y.0) == r.push((a.last().1, a.last().2)));
            assert(of_input(a, y.0)[z] == r[z]);
        }
    }
}

/// A one-sided declaration still links both ways: whenever input `i` holds a
/// link to the name `v.0`, the input of that name holds a link back to the
/// name of `i` (its hint is the first one recorded between the two).
pub proof fn lemma_links_symmetric(inputs: Seq<Input>, raw: Seq<RawEntry>, n: int, i: int, v: (Seq<char>, PairHint))
    requires
        n <= inputs.len(),
        links_of(decls_upto(inputs, raw, n), i).contains(v),
    ensures
        last_named(inputs, v.0) matches Some(t) && exists|w: (Seq<char>, PairHint)|
            #[trigger] links_of(decls_upto(inputs, raw, n), t).contains(w) && w.0 == inputs[i].name@,
{
    let ds = decls_upto(inputs, raw, n);
    lemma_of_input_member(accepted(ds), i, v);
    let xi = choose|x: int| 0 <= x < accepted(ds).len() && #[trigger] accepted(ds)[x].0 == i && accepted(ds)[x].1 == v.0;
    let x = accepted(ds)[xi];
    lemma_accepted_within(ds);
    assert(accepted(ds).contains(x));
    assert(ds.contains(x));
    lemma_decls_paired(inputs, raw, n);
    lemma_decls_named(inputs, raw, n);
    assert(names_an_input(inputs, x.1));
    lemma_last_named_found(inputs, v.0);
    let t = last_named(inputs, v.0)->Some_0;
    let p = partner(inputs, x);
    assert(ds.contains(p));
    assert(p.0 == t && p.1 == inputs[i].name@);
    lemma_accepted_covers(ds, p);
    let y = choose|y: Decl| #[trigger] accepted(ds).contains(y) && y.0 == p.0 && y.1 == p.1;
    lemma_of_input_has(accepted(ds), y);
    assert(links_of(ds, t).contains((y.1, y.2)));
}

/// A one-sided `pair[]` declaration still links both ways: in a built
/// corpus, whenever an input links to a name, the input of that name (the
/// last, should the index repeat it) links back to the first input's name.
pub proof fn law_links_are_symmetric(doc: RawIndex, blob: Seq<u8>, c: Corpus, k: int, l: int)
    requires
        built_from_index(doc, blob, Ok(c)),
        0 <= k < c.spec_inputs().len(),
        0 <= l < c.spec_inputs()[k].links@.len(),
    ensures
        last_named(c.spec_inputs(), c.spec_inputs()[k].links@[l].name@) matches Some(t) && exists|q: int|
            0 <= q < c.spec_inputs()[t].links@.len() && #[trigger] c.spec_inputs()[t].links@[q].name@
                == c.spec_inputs()[k].name@,
{
    let inputs = c.spec_inputs();
    let raw = sort_entries(doc.inputs@);
    let n = doc.inputs@.len() as int;
    let ds = decls_upto(inputs, raw, n);
    let links = inputs[k].links@;
    assert(resolved_links(links, ds, k));
    let v = link_view(links[l]);
    assert(has_view(links, v));
    assert(links_of(ds, k).contains(v));
    lemma_links_symmetric(inputs, raw, n, k, v);
    lemma_last_named_found(inputs, v.0);
    let t = last_named(inputs, v.0)->Some_0;
    let w = choose|w: (Seq<char>, PairHint)| #[trigger] links_of(ds, t).contains(w) && w.0 == inputs[k].name@;
    assert(resolved_links(inputs[t].links@, ds, t));
    assert(has_view(inputs[t].links@, w));
    let q = choose|q: int| 0 <= q < inputs[t].links@.len() && link_view(#[trigger] inputs[t].links@[q]) == w;
    assert(inputs[t].links@[q].name@ == inputs[k].name@);
}

proof fn lemma_decodes_to(s: Seq<char>, d: DecodeAs)
    requires
        d.token() == s,
    ensures
        decode_token(s) == Some(d),
{
    let c = choose|x: DecodeAs| x.token() == s;
    crate::decode_as::lemma_token_injective(c, d);
}

/// Each `decode-as` / `invalid-as` token of the index schema names its own
/// type: an entry written with that token loads as that type.
pub proof fn law_schema_tokens()
    ensures
        decode_token("u8"@) == Some(DecodeAs::U8),
        decode_token("u16-le"@) == Some(DecodeAs::U16Le),
        decode_token("u32-le"@) == Some(DecodeAs::U32Le),
        decode_token("u64-le"@) == Some(DecodeAs::U64Le),
        decode_token("u128-le"@) == Some(DecodeAs::U128Le),
        decode_token("i8"@) == Some(DecodeAs::I8),
        decode_token("i16-le"@) == Some(DecodeAs::I16Le),
        decode_token("i32-le"@) == Some(DecodeAs::I32Le),
        decode_token("i64-le"@) == Some(DecodeAs::I64Le),
        decode_token("i128-le"@) == Some(DecodeAs::I128Le),
        decode_token("f16-le"@) == Some(DecodeAs::F16Le),
        decode_token("f32-le"@) == Some(DecodeAs::F32Le),
        decode_token("f64-le"@) == Some(DecodeAs::F64Le),
        decode_token("bool"@) == Some(DecodeAs::Bool),
        decode_token("bytes"@) == Some(DecodeAs::Bytes),
        decode_token("ascii"@) == Some(DecodeAs::Ascii),
        decode_token("utf8"@) == Some(DecodeAs::Utf8),
        decode_token("utf16-le"@) == Some(DecodeAs::Utf16Le),
        decode_token("utf32-le"@) == Some(DecodeAs::Utf32Le),
        decode_token("latin1"@) == Some(DecodeAs::Latin1),
{
    lemma_decodes_to("u8"@, DecodeAs::U8);
    lemma_decodes_to("u16-le"@, DecodeAs::U16Le);
    lemma_decodes_to("u32-le"@, DecodeAs::U32Le);
    lemma_decodes_to("u64-le"@, DecodeAs::U64Le);
    lemma_decodes_to("u128-le"@, DecodeAs::U128Le);
    lemma_decodes_to("i8"@, DecodeAs::I8);
    lemma_decodes_to("i16-le"@, DecodeAs::I16Le);
    lemma_decodes_to("i32-le"@, DecodeAs::I32Le);
    lemma_decodes_to("i64-le"@, DecodeAs::I64Le);
    lemma_decodes_to("i128-le"@, DecodeAs::I128Le);
    lemma_decodes_to("f16-le"@, DecodeAs::F16Le);
    lemma_decodes_to("f32-le"@, DecodeAs::F32Le);
    lemma_decodes_to("f64-le"@, DecodeAs::F64Le);
    lemma_decodes_to("bool"@, DecodeAs::Bool);
    lemma_decodes_to("bytes"@, DecodeAs::Bytes);
    lemma_decodes_to("ascii"@, DecodeAs::Ascii);
    lemma_decodes_to("utf8"@, DecodeAs::Utf8);
    lemma_decodes_to("utf16-le"@, DecodeAs::Utf16Le);
    lemma_decodes_to("utf32-le"@, DecodeAs::Utf32Le);
    lemma_decodes_to("latin1"@, DecodeAs::Latin1);
}

} // verus!
