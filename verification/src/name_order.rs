//! Ordering index entries by name, stably: a corpus lists its inputs in
//! name order whatever order its index gives them in.

use vstd::prelude::*;

use crate::corpus::RawEntry;
use crate::text::{chars_le, chars_less, chars_lt, chars_of, lemma_chars_lt_irreflexive, lemma_chars_lt_transitive,
    lemma_chars_le_transitive};

verus! {

/// Inserts `e` after every entry whose name sorts no later than its own.
pub open spec fn insert_entry(s: Seq<RawEntry>, e: RawEntry) -> Seq<RawEntry>
    decreases s.len(),
{
    if s.len() == 0 {
        seq![e]
    } else if chars_lt(e.name@, s.last().name@) {
        insert_entry(s.drop_last(), e).push(s.last())
    } else {
        s.push(e)
    }
}

/// The stable sort of entries by name: each entry in turn is inserted after
/// those already placed whose names sort no later.
pub open spec fn sort_entries(s: Seq<RawEntry>) -> Seq<RawEntry>
    decreases s.len(),
{
    if s.len() == 0 {
        Seq::empty()
    } else {
        insert_entry(sort_entries(s.drop_last()), s.last())
    }
}

/// Names appear in ascending order.
pub open spec fn entries_sorted(s: Seq<RawEntry>) -> bool {
    forall|i: int, j: int| 0 <= i < j < s.len() ==> chars_le(#[trigger] s[i].name@, #[trigger] s[j].name@)
}

proof fn lemma_insert_entry(s: Seq<RawEntry>, e: RawEntry)
    ensures
        insert_entry(s, e).len() == s.len() + 1,
        insert_entry(s, e).to_multiset() == s.to_multiset().insert(e),
        entries_sorted(s) ==> entries_sorted(insert_entry(s, e)),
    decreases s.len(),
{
    broadcast use vstd::seq_lib::group_to_multiset_ensures;
    let r = insert_entry(s, e);
    if s.len() == 0 {
        assert(r =~= seq![e]);
        assert(seq![e] =~= Seq::<RawEntry>::empty().push(e));
        assert(s =~= Seq::<RawEntry>::empty());
    } else if chars_lt(e.name@, s.last().name@) {
        let t = s.drop_last();
        let z = s.last();
        lemma_insert_entry(t, e);
        let q = insert_entry(t, e);
        assert(s =~= t.push(z));
        assert(r.to_multiset() =~= s.to_multiset().insert(e));
        if entries_sorted(s) {
            assert(entries_sorted(t));
            assert forall|i: int, j: int| 0 <= i < j < r.len() implies chars_le(#[trigger] r[i].name@, #[trigger] r[j].name@) by {
                if j < r.len() - 1 {
                    assert(r[i] == q[i] && r[j] == q[j]);
                } else {
                    assert(r[j] == z);
                    assert(r[i] == q[i]);
                    assert(q.to_multiset().count(q[i]) > 0);
                    assert(q.to_multiset().count(q[i]) == t.to_multiset().insert(e).count(q[i]));
                    if q[i] == e {
                        lemma_chars_lt_irreflexive(z.name@);
                        if chars_lt(z.name@, e.name@) {
                            lemma_chars_lt_transitive(e.name@, z.name@, e.name@);
                            lemma_chars_lt_irreflexive(e.name@);
                        }
                    } else {
                        assert(t.to_multiset().count(q[i]) > 0);
                        assert(t.contains(q[i]));
                        let k = choose|k: int| 0 <= k < t.len() && t[k] == q[i];
                        assert(s[k] == t[k] && s[s.len() - 1] == z);
                    }
                }
            }
        }
    } else {
        let z = s.last();
        assert(r == s.push(e));
        if entries_sorted(s) {
            assert forall|i: int, j: int| 0 <= i < j < r.len() implies chars_le(#[trigger] r[i].name@, #[trigger] r[j].name@) by {
                if j < r.len() - 1 {
                    assert(r[i] == s[i] && r[j] == s[j]);
                } else {
                    assert(r[j] == e && r[i] == s[i]);
                    if i < s.len() - 1 {
                        assert(chars_le(s[i].name@, s[s.len() - 1].name@));
                        lemma_chars_le_transitive(s[i].name@, z.name@, e.name@);
                    }
                }
            }
        }
    }
}

/// Ordering entries by name yields names in ascending order, and is a
/// permutation of the entries.
pub proof fn law_sort_entries(s: Seq<RawEntry>)
    ensures
        entries_sorted(sort_entries(s)),
        sort_entries(s).to_multiset() == s.to_multiset(),
        sort_entries(s).len() == s.len(),
    decreases s.len(),
{
    broadcast use vstd::seq_lib::group_to_multiset_ensures;
    if s.len() == 0 {
        assert(sort_entries(s) =~= s);
    } else {
        law_sort_entries(s.drop_last());
        lemma_insert_entry(sort_entries(s.drop_last()), s.last());
        assert(s =~= s.drop_last().push(s.last()));
    }
}

/// Orders entries by name, stably.
pub fn sort_entries_by_name(v: Vec<RawEntry>) -> (r: Vec<RawEntry>)
    ensures
        r@ == sort_entries(v@),
{
    let mut rest = v;
    let mut out: Vec<RawEntry> = Vec::new();
    let ghost orig = v@;
    let ghost n = v@.len();
    while rest.len() > 0
        invariant
            orig == v@,
            n == v@.len(),
            rest@.len() <= n,
            rest@ == orig.skip(n - rest@.len()),
            out@ == sort_entries(orig.take(n - rest@.len())),
        decreases rest@.len(),
    {
        let ghost done = n - rest@.len();
        let ghost old_rest = rest@;
        let e = rest.remove(0);
        proof {
            assert(e == old_rest[0]);
            assert(old_rest[0] == orig.skip(done)[0]);
            assert(rest@ =~= orig.skip(done + 1));
            assert(orig.take(done + 1).drop_last() =~= orig.take(done));
            assert(orig.take(done + 1).last() == e);
        }
        let en = chars_of(e.name.as_str());
        let mut p: usize = out.len();
        let ghost ov = out@;
        assert(ov.take(p as int) =~= ov);
        assert(ov.skip(p as int) =~= Seq::<RawEntry>::empty());
        while p > 0
            invariant
                p <= out@.len(),
                ov == out@,
                en@ == e.name@,
                insert_entry(ov, e) == insert_entry(ov.take(p as int), e) + ov.skip(p as int),
            ensures
                p <= out@.len(),
                insert_entry(ov, e) == insert_entry(ov.take(p as int), e) + ov.skip(p as int),
                p == 0 || !chars_lt(e.name@, ov[p - 1].name@),
            decreases p,
        {
            let qn = chars_of(out[p - 1].name.as_str());
            if !chars_less(en.as_slice(), qn.as_slice()) {
                break;
            }
            proof {
                let t = ov.take(p as int);
                assert(t.last() == ov[p - 1]);
                assert(t.drop_last() =~= ov.take(p - 1));
                assert(ov.skip(p - 1) =~= seq![ov[p - 1]] + ov.skip(p as int));
                assert(insert_entry(ov.take(p - 1), e).push(ov[p - 1]) + ov.skip(p as int)
                    =~= insert_entry(ov.take(p - 1), e) + ov.skip(p - 1));
            }
            p -= 1;
        }
        proof {
            if p == 0 {
                assert(ov.take(0) =~= Seq::<RawEntry>::empty());
                assert(insert_entry(ov, e) =~= ov.insert(0, e));
            } else {
                let t = ov.take(p as int);
                assert(t.last() == ov[p - 1]);
                assert(insert_entry(t, e) == t.push(e));
                assert(insert_entry(ov, e) =~= ov.insert(p as int, e));
            }
        }
        out.insert(p, e);
    }
    proof {
        assert(orig.take(n as int) =~= orig);
    }
    out
}

} // verus!
