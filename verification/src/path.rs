//! Forward-slash path helpers: lexical normalisation, directory name and
//! joining, without touching any filesystem.

use vstd::prelude::*;

use crate::text::{chars_of, string_from_chars};

verus! {

/// The path with every backslash read as a forward slash.
pub open spec fn slashes(p: Seq<char>) -> Seq<char> {
    p.map_values(|c: char| if c == '\\' { '/' } else { c })
}

/// Splitting state after reading `p`: the finished components and the one
/// being read.
pub open spec fn split_state(p: Seq<char>) -> (Seq<Seq<char>>, Seq<char>)
    decreases p.len(),
{
    if p.len() == 0 {
        (Seq::empty(), Seq::empty())
    } else {
        let (done, cur) = split_state(p.drop_last());
        if p.last() == '/' {
            (done.push(cur), Seq::empty())
        } else {
            (done, cur.push(p.last()))
        }
    }
}

/// The `/`-separated components of `p` (as `str::split('/')` gives them).
pub open spec fn components(p: Seq<char>) -> Seq<Seq<char>> {
    split_state(p).0.push(split_state(p).1)
}

pub open spec fn dot() -> Seq<char> {
    seq!['.']
}

pub open spec fn dot_dot() -> Seq<char> {
    seq!['.', '.']
}

/// Resolving `.`, `..` and empty components, left to right.
pub open spec fn resolve(comps: Seq<Seq<char>>) -> Seq<Seq<char>>
    decreases comps.len(),
{
    if comps.len() == 0 {
        Seq::empty()
    } else {
        let out = resolve(comps.drop_last());
        let c = comps.last();
        if c.len() == 0 || c == dot() {
            out
        } else if c == dot_dot() {
            if out.len() > 0 && out.last() != dot_dot() {
                out.drop_last()
            } else {
                out.push(dot_dot())
            }
        } else {
            out.push(c)
        }
    }
}

/// Components joined with `/`.
pub open spec fn join(parts: Seq<Seq<char>>) -> Seq<char>
    decreases parts.len(),
{
    if parts.len() == 0 {
        Seq::empty()
    } else if parts.len() == 1 {
        parts[0]
    } else {
        join(parts.drop_last()) + seq!['/'] + parts.last()
    }
}

/// The lexically normalised form of a path.
pub open spec fn spec_norm(p: Seq<char>) -> Seq<char> {
    let out = resolve(components(slashes(p)));
    if out.len() == 0 {
        dot()
    } else {
        join(out)
    }
}

fn is_dot_dot(c: &Vec<char>) -> (r: bool)
    ensures
        r == (c@ == dot_dot()),
{
    let r = c.len() == 2 && c[0] == '.' && c[1] == '.';
    assert(r ==> c@ =~= dot_dot());
    r
}

fn is_dot(c: &Vec<char>) -> (r: bool)
    ensures
        r == (c@ == dot()),
{
    let r = c.len() == 1 && c[0] == '.';
    assert(r ==> c@ =~= dot());
    r
}

fn slash_chars(path: &str) -> (r: Vec<char>)
    ensures
        r@ == slashes(path@),
{
    let cs = chars_of(path);
    let mut out: Vec<char> = Vec::new();
    let mut i: usize = 0;
    while i < cs.len()
        invariant
            i <= cs.len(),
            cs@ == path@,
            out@ == slashes(cs@.take(i as int)),
        decreases cs.len() - i,
    {
        let c = cs[i];
        out.push(if c == '\\' { '/' } else { c });
        i += 1;
        assert(out@ =~= slashes(cs@.take(i as int)));
    }
    assert(cs@.take(cs@.len() as int) == cs@);
    out
}

fn split_components(p: &Vec<char>) -> (r: Vec<Vec<char>>)
    ensures
        r@.len() == components(p@).len(),
        forall|k: int| 0 <= k < r@.len() ==> #[trigger] r@[k]@ == components(p@)[k],
{
    let mut done: Vec<Vec<char>> = Vec::new();
    let mut cur: Vec<char> = Vec::new();
    let mut i: usize = 0;
    assert(p@.take(0) == Seq::<char>::empty());
    while i < p.len()
        invariant
            i <= p.len(),
            done@.len() == split_state(p@.take(i as int)).0.len(),
            forall|k: int| 0 <= k < done@.len() ==> #[trigger] done@[k]@ == split_state(p@.take(i as int)).0[k],
            cur@ == split_state(p@.take(i as int)).1,
        decreases p.len() - i,
    {
        let c = p[i];
        assert(p@.take(i + 1).drop_last() == p@.take(i as int));
        if c == '/' {
            done.push(cur);
            cur = Vec::new();
        } else {
            cur.push(c);
        }
        i += 1;
    }
    assert(p@.take(p@.len() as int) == p@);
    done.push(cur);
    done
}

/// Lexically normalize a forward-slash path, resolving `.`/`..` without
/// touching the filesystem. Backslashes count as separators.
pub fn norm(path: &str) -> (r: String)
    ensures
        r@ == spec_norm(path@),
{
    let p = slash_chars(path);
    let comps = split_components(&p);
    let ghost cs = components(p@);
    let mut out: Vec<Vec<char>> = Vec::new();
    let mut i: usize = 0;
    assert(cs.take(0) == Seq::<Seq<char>>::empty());
    while i < comps.len()
        invariant
            i <= comps@.len(),
            comps@.len() == cs.len(),
            forall|k: int| 0 <= k < comps@.len() ==> #[trigger] comps@[k]@ == cs[k],
            out@.len() == resolve(cs.take(i as int)).len(),
            forall|k: int| 0 <= k < out@.len() ==> #[trigger] out@[k]@ == resolve(cs.take(i as int))[k],
        decreases comps@.len() - i,
    {
        let c = &comps[i];
        assert(cs.take(i + 1).drop_last() == cs.take(i as int));
        assert(cs.take(i + 1).last() == c@);
        if c.len() == 0 || is_dot(c) {
        } else if is_dot_dot(c) {
            let last_is_dot_dot = if out.len() > 0 {
                is_dot_dot(&out[out.len() - 1])
            } else {
                false
            };
            if out.len() > 0 && !last_is_dot_dot {
                out.pop();
            } else {
                out.push(vec!['.', '.']);
                assert(out@[out@.len() - 1]@ =~= dot_dot());
            }
        } else {
            out.push(c.clone());
        }
        i += 1;
    }
    assert(cs.take(cs.len() as int) == cs);
    let ghost parts = resolve(cs);
    if out.len() == 0 {
        assert(dot() =~= seq!['.']);
        return string_from_chars(&['.']);
    }
    let mut joined: Vec<char> = Vec::new();
    let mut k: usize = 0;
    while k < out.len()
        invariant
            k <= out@.len(),
            out@.len() == parts.len(),
            out@.len() > 0,
            forall|j: int| 0 <= j < out@.len() ==> #[trigger] out@[j]@ == parts[j],
            k > 0 ==> joined@ == join(parts.take(k as int)),
            k == 0 ==> joined@ == Seq::<char>::empty(),
        decreases out@.len() - k,
    {
        assert(parts.take(k + 1).drop_last() == parts.take(k as int));
        assert(parts.take(k + 1).last() == out@[k as int]@);
        if k > 0 {
            joined.push('/');
        }
        let part = &out[k];
        let mut m: usize = 0;
        let ghost before = joined@;
        while m < part.len()
            invariant
                m <= part@.len(),
                joined@ == before + part@.take(m as int),
            decreases part@.len() - m,
        {
            joined.push(part[m]);
            m += 1;
            assert(joined@ =~= before + part@.take(m as int));
        }
        assert(part@.take(part@.len() as int) == part@);
        if k == 0 {
            assert(parts.take(1).len() == 1);
            assert(joined@ =~= join(parts.take(1)));
        }
        k += 1;
    }
    assert(parts.take(parts.len() as int) == parts);
    string_from_chars(joined.as_slice())
}

// --- the shape of a normalised path -----------------------------------------

/// No character of `c` is a separator (`/` or `\`).
pub open spec fn plain(c: Seq<char>) -> bool {
    forall|i: int| 0 <= i < c.len() ==> #[trigger] c[i] != '/' && c[i] != '\\'
}

/// Components of a normalised path: each one non-empty, free of separators
/// and not `.`; every `..` comes before every other component.
pub open spec fn normal_parts(cs: Seq<Seq<char>>) -> bool {
    &&& forall|i: int| 0 <= i < cs.len() ==> (#[trigger] cs[i]).len() > 0 && cs[i] != dot() && plain(cs[i])
    &&& forall|i: int, j: int| 0 <= i < j < cs.len() && #[trigger] cs[j] == dot_dot() ==> #[trigger] cs[i] == dot_dot()
}

proof fn lemma_split_plain(p: Seq<char>)
    requires
        forall|i: int| 0 <= i < p.len() ==> #[trigger] p[i] != '\\',
    ensures
        forall|i: int| 0 <= i < split_state(p).0.len() ==> plain(#[trigger] split_state(p).0[i]),
        plain(split_state(p).1),
    decreases p.len(),
{
    if p.len() > 0 {
        let d = p.drop_last();
        assert forall|i: int| 0 <= i < d.len() implies #[trigger] d[i] != '\\' by {
            assert(d[i] == p[i]);
        }
        lemma_split_plain(d);
        let (done, cur) = split_state(d);
        if p.last() == '/' {
            assert forall|i: int| 0 <= i < done.push(cur).len() implies plain(#[trigger] done.push(cur)[i]) by {
                if i < done.len() {
                    assert(done.push(cur)[i] == done[i]);
                }
            }
            assert(plain(Seq::<char>::empty()));
        } else {
            assert(p[p.len() - 1] != '\\');
            assert forall|i: int| 0 <= i < cur.push(p.last()).len() implies #[trigger] cur.push(p.last())[i] != '/'
                && cur.push(p.last())[i] != '\\' by {
                if i < cur.len() {
                    assert(cur.push(p.last())[i] == cur[i]);
                }
            }
        }
    }
}

proof fn lemma_resolve_normal(cs: Seq<Seq<char>>)
    requires
        forall|i: int| 0 <= i < cs.len() ==> plain(#[trigger] cs[i]),
    ensures
        normal_parts(resolve(cs)),
    decreases cs.len(),
{
    if cs.len() > 0 {
        let d = cs.drop_last();
        assert forall|i: int| 0 <= i < d.len() implies plain(#[trigger] d[i]) by {
            assert(d[i] == cs[i]);
        }
        lemma_resolve_normal(d);
        let out = resolve(d);
        let c = cs.last();
        assert(plain(cs[cs.len() - 1]));
        if c.len() == 0 || c == dot() {
        } else if c == dot_dot() {
            if out.len() > 0 && out.last() != dot_dot() {
                let r = out.drop_last();
                assert forall|i: int| 0 <= i < r.len() implies (#[trigger] r[i]).len() > 0 && r[i] != dot() && plain(r[i]) by {
                    assert(r[i] == out[i]);
                }
                assert forall|i: int, j: int| 0 <= i < j < r.len() && #[trigger] r[j] == dot_dot() implies #[trigger] r[i] == dot_dot() by {
                    assert(r[i] == out[i] && r[j] == out[j]);
                }
            } else {
                let r = out.push(dot_dot());
                assert(dot_dot().len() == 2);
                assert(dot_dot() != dot()) by {
                    assert(dot_dot().len() != dot().len());
                }
                assert(plain(dot_dot())) by {
                    assert forall|i: int| 0 <= i < dot_dot().len() implies #[trigger] dot_dot()[i] != '/' && dot_dot()[i] != '\\' by {
                        assert(dot_dot()[i] == '.');
                    }
                }
                assert forall|i: int| 0 <= i < r.len() implies (#[trigger] r[i]).len() > 0 && r[i] != dot() && plain(r[i]) by {
                    if i < out.len() {
                        assert(r[i] == out[i]);
                    }
                }
                assert forall|i: int, j: int| 0 <= i < j < r.len() && #[trigger] r[j] == dot_dot() implies #[trigger] r[i] == dot_dot() by {
                    assert(r[i] == out[i]);
                    if j < out.len() {
                        assert(r[j] == out[j]);
                    } else if i < out.len() - 1 {
                        assert(out[out.len() - 1] == dot_dot());
                    }
                }
            }
        } else {
            let r = out.push(c);
            assert forall|i: int| 0 <= i < r.len() implies (#[trigger] r[i]).len() > 0 && r[i] != dot() && plain(r[i]) by {
                if i < out.len() {
                    assert(r[i] == out[i]);
                }
            }
            assert forall|i: int, j: int| 0 <= i < j < r.len() && #[trigger] r[j] == dot_dot() implies #[trigger] r[i] == dot_dot() by {
                assert(r[i] == out[i]);
                if j < out.len() {
                    assert(r[j] == out[j]);
                }
            }
        }
    }
}

proof fn lemma_resolve_fixed(cs: Seq<Seq<char>>)
    requires
        normal_parts(cs),
    ensures
        resolve(cs) == cs,
    decreases cs.len(),
{
    if cs.len() > 0 {
        let d = cs.drop_last();
        assert(normal_parts(d)) by {
            assert forall|i: int| 0 <= i < d.len() implies (#[trigger] d[i]).len() > 0 && d[i] != dot() && plain(d[i]) by {
                assert(d[i] == cs[i]);
            }
            assert forall|i: int, j: int| 0 <= i < j < d.len() && #[trigger] d[j] == dot_dot() implies #[trigger] d[i] == dot_dot() by {
                assert(d[i] == cs[i] && d[j] == cs[j]);
            }
        }
        lemma_resolve_fixed(d);
        let c = cs.last();
        assert(c.len() > 0 && c != dot()) by {
            assert(cs[cs.len() - 1] == c);
        }
        if c == dot_dot() && d.len() > 0 {
            assert(cs[d.len() - 1] == dot_dot());
            assert(d.last() == dot_dot());
        }
        assert(cs =~= d.push(c));
    }
}

/// Splitting at `/` is not disturbed by a tail free of `/`: it only extends
/// the component being read.
proof fn lemma_split_append(s: Seq<char>, t: Seq<char>)
    requires
        forall|i: int| 0 <= i < t.len() ==> #[trigger] t[i] != '/',
    ensures
        split_state(s + t) == (split_state(s).0, split_state(s).1 + t),
    decreases t.len(),
{
    if t.len() == 0 {
        assert(s + t =~= s);
        assert(split_state(s).1 + t =~= split_state(s).1);
    } else {
        let u = t.drop_last();
        assert forall|i: int| 0 <= i < u.len() implies #[trigger] u[i] != '/' by {
            assert(u[i] == t[i]);
        }
        lemma_split_append(s, u);
        assert((s + t).drop_last() =~= s + u);
        assert((s + t).last() == t.last());
        assert(t[t.len() - 1] != '/');
        assert(split_state(s).1 + u + seq![t.last()] =~= split_state(s).1 + t);
        assert((split_state(s).1 + u).push(t.last()) =~= split_state(s).1 + t);
    }
}

proof fn lemma_join_parts(out: Seq<Seq<char>>)
    requires
        out.len() > 0,
        forall|i: int| 0 <= i < out.len() ==> (#[trigger] out[i]).len() > 0 && plain(out[i]),
    ensures
        components(join(out)) == out,
        join(out).len() > 0,
        forall|k: int| 0 <= k < join(out).len() ==> #[trigger] join(out)[k] != '\\',
    decreases out.len(),
{
    let b = out.last();
    assert(out[out.len() - 1] == b);
    if out.len() == 1 {
        lemma_split_append(Seq::empty(), b);
        assert(Seq::<char>::empty() + b =~= b);
        assert(split_state(Seq::<char>::empty()) == (Seq::<Seq<char>>::empty(), Seq::<char>::empty()));
        assert(Seq::<char>::empty() + b =~= b);
        assert(components(b) =~= out);
    } else {
        let a = out.drop_last();
        assert forall|i: int| 0 <= i < a.len() implies (#[trigger] a[i]).len() > 0 && plain(a[i]) by {
            assert(a[i] == out[i]);
        }
        lemma_join_parts(a);
        let ja = join(a);
        let j = join(out);
        assert(j == ja + seq!['/'] + b);
        assert(ja + seq!['/'] =~= ja.push('/'));
        lemma_split_append(ja.push('/'), b);
        assert(ja.push('/').drop_last() =~= ja);
        assert(ja.push('/').last() == '/');
        assert(split_state(ja.push('/')) == (split_state(ja).0.push(split_state(ja).1), Seq::<char>::empty()));
        assert(Seq::<char>::empty() + b =~= b);
        assert(components(ja) == a);
        assert(components(j) =~= out);
        assert forall|k: int| 0 <= k < j.len() implies #[trigger] j[k] != '\\' by {
            if k < ja.len() {
                assert(j[k] == ja[k]);
            } else if k == ja.len() {
                assert(j[k] == '/');
            } else {
                assert(j[k] == b[k - ja.len() - 1]);
            }
        }
    }
}

/// A path without backslashes reads the same with them replaced.
proof fn lemma_slashes_plain(p: Seq<char>)
    requires
        forall|k: int| 0 <= k < p.len() ==> #[trigger] p[k] != '\\',
    ensures
        slashes(p) == p,
{
    assert(slashes(p) =~= p);
}

/// Normalising is idempotent, and a normalised path is never empty: it is
/// `.` or non-empty components, none `.`, with every `..` leading.
pub proof fn law_norm_normal_form(p: Seq<char>)
    ensures
        spec_norm(spec_norm(p)) == spec_norm(p),
        spec_norm(p).len() > 0,
        spec_norm(p) == dot() || normal_parts(components(spec_norm(p))),
{
    let sp = slashes(p);
    assert forall|i: int| 0 <= i < sp.len() implies #[trigger] sp[i] != '\\' by {}
    lemma_split_plain(sp);
    let cs = components(sp);
    assert forall|i: int| 0 <= i < cs.len() implies plain(#[trigger] cs[i]) by {
        if i < split_state(sp).0.len() {
            assert(cs[i] == split_state(sp).0[i]);
        }
    }
    lemma_resolve_normal(cs);
    let out = resolve(cs);
    if out.len() == 0 {
        let d = dot();
        lemma_slashes_plain(d);
        lemma_split_append(Seq::empty(), d);
        assert(Seq::<char>::empty() + d =~= d);
        assert(components(d) =~= seq![d]);
        assert(seq![d].drop_last() =~= Seq::<Seq<char>>::empty());
        assert(seq![d].last() == d);
        assert(resolve(Seq::<Seq<char>>::empty()) == Seq::<Seq<char>>::empty());
        assert(resolve(seq![d]) == resolve(seq![d].drop_last()));
        assert(resolve(seq![d]) =~= Seq::<Seq<char>>::empty());
    } else {
        lemma_join_parts(out);
        let n = join(out);
        lemma_slashes_plain(n);
        lemma_resolve_fixed(out);
    }
}

/// Index of the last `/` in `p`, if any.
pub open spec fn last_slash(p: Seq<char>) -> Option<int>
    decreases p.len(),
{
    if p.len() == 0 {
        None
    } else if p.last() == '/' {
        Some(p.len() - 1)
    } else {
        last_slash(p.drop_last())
    }
}

/// Everything before the last separator; empty when there is none.
pub open spec fn spec_dirname(p: Seq<char>) -> Seq<char> {
    match last_slash(slashes(p)) {
        Some(i) => slashes(p).take(i),
        None => Seq::empty(),
    }
}

/// The directory part of a forward-slash path (backslashes count as
/// separators); empty when the path has no separator.
pub fn posix_dirname(path: &str) -> (r: String)
    ensures
        r@ == spec_dirname(path@),
{
    let p = slash_chars(path);
    let mut i = p.len();
    assert(p@.take(p@.len() as int) == p@);
    while i > 0
        invariant
            i <= p@.len(),
            last_slash(p@) == last_slash(p@.take(i as int)),
            p@ == slashes(path@),
        decreases i,
    {
        assert(p@.take(i as int).drop_last() == p@.take(i - 1));
        if p[i - 1] == '/' {
            assert(last_slash(p@.take(i as int)) == Some(i - 1));
            assert(p@ == slashes(path@));
            assert(last_slash(slashes(path@)) == Some(i - 1));
            assert(spec_dirname(path@) == p@.take(i - 1));
            let r = crate::text::string_from_prefix(p.as_slice(), i - 1);
            return r;
        }
        i -= 1;
    }
    assert(p@.take(0) == Seq::<char>::empty());
    string_from_chars(&[])
}

/// `base/rel`, or `rel` alone when `base` is empty.
pub open spec fn spec_join_path(base: Seq<char>, rel: Seq<char>) -> Seq<char> {
    if base.len() == 0 {
        rel
    } else {
        base + seq!['/'] + rel
    }
}

/// Join a relative path onto a base directory with `/`.
pub fn posix_join(base: &str, rel: &str) -> (r: String)
    ensures
        r@ == spec_join_path(base@, rel@),
{
    if base.is_empty() {
        crate::text::owned(rel)
    } else {
        let mut s = crate::text::owned(base);
        s.push('/');
        crate::text::push_chars(&mut s, chars_of(rel).as_slice());
        s
    }
}

} // verus!
