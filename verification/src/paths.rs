//! Unix paths held as strings: joining and trailing slashes.
use vstd::prelude::*;
use crate::text::{push_char, to_chars};

verus! {

/// `Path::join` on Unix: an absolute `comp` replaces `base`; otherwise `comp` is
/// appended, after a `/` unless `base` is empty or already ends with one.
pub open spec fn spec_join(base: Seq<char>, comp: Seq<char>) -> Seq<char> {
    if comp.len() > 0 && comp[0] == '/' {
        comp
    } else if base.len() == 0 || base.last() == '/' {
        base + comp
    } else {
        base.push('/') + comp
    }
}

/// `s` with a `/` added unless it already ends with one.
pub open spec fn spec_with_trailing_slash(s: Seq<char>) -> Seq<char> {
    if s.len() > 0 && s.last() == '/' {
        s
    } else {
        s.push('/')
    }
}

/// `base` joined with `comp`, as `Path::join` does it.
pub fn join_path(base: &str, comp: &str) -> (r: String)
    ensures
        r@ == spec_join(base@, comp@),
{
    let b: Vec<char> = to_chars(base);
    let c: Vec<char> = to_chars(comp);
    if c.len() > 0 && c[0] == '/' {
        return String::from_str(comp);
    }
    let mut r: String = String::from_str(base);
    if b.len() > 0 && b[b.len() - 1] != '/' {
        push_char(&mut r, '/');
    }
    r.append(comp);
    r
}

/// The path as a string that ends with `/`, as `rsync` wants a directory.
pub fn path_with_trailing_slash(path: String) -> (r: String)
    ensures
        r@ == spec_with_trailing_slash(path@),
{
    let v: Vec<char> = to_chars(path.as_str());
    let mut s: String = path;
    if !(v.len() > 0 && v[v.len() - 1] == '/') {
        push_char(&mut s, '/');
    }
    s
}

/// Law: the result always ends with `/`, and adding a trailing slash twice adds it once.
pub proof fn lemma_trailing_slash(s: Seq<char>)
    ensures
        spec_with_trailing_slash(s).len() > 0,
        spec_with_trailing_slash(s).last() == '/',
        spec_with_trailing_slash(spec_with_trailing_slash(s)) == spec_with_trailing_slash(s),
{
}

/// The pieces of `p` between its `/` separators, in order, empty pieces included.
pub open spec fn spec_split(p: Seq<char>) -> Seq<Seq<char>>
    decreases p.len(),
{
    if p.len() == 0 {
        seq![Seq::<char>::empty()]
    } else {
        let parts: Seq<Seq<char>> = spec_split(p.drop_last());
        if p.last() == '/' {
            parts.push(Seq::empty())
        } else {
            parts.update(parts.len() - 1, parts.last().push(p.last()))
        }
    }
}

/// The pieces that name a component: neither empty nor `.`.
pub open spec fn spec_named(pieces: Seq<Seq<char>>) -> Seq<Seq<char>>
    decreases pieces.len(),
{
    if pieces.len() == 0 {
        Seq::empty()
    } else {
        let rest: Seq<Seq<char>> = spec_named(pieces.drop_last());
        let g: Seq<char> = pieces.last();
        if g.len() == 0 || g == seq!['.'] {
            rest
        } else {
            rest.push(g)
        }
    }
}

/// `Path::components` on Unix: whether the path starts at the root, and its
/// components. Repeated separators, a trailing separator and `.` pieces are not
/// components, except that a relative path starting with `.` keeps that `.` first.
pub open spec fn spec_components(p: Seq<char>) -> (bool, Seq<Seq<char>>) {
    let root: bool = p.len() > 0 && p[0] == '/';
    let pieces: Seq<Seq<char>> = spec_split(p);
    let cur: Seq<Seq<char>> = if !root && pieces[0] == seq!['.'] {
        seq![seq!['.']]
    } else {
        Seq::empty()
    };
    (root, cur + spec_named(pieces))
}

/// `Path`'s `==`: the same components.
pub open spec fn spec_same_path(a: Seq<char>, b: Seq<char>) -> bool {
    spec_components(a) == spec_components(b)
}

proof fn lemma_split_nonempty(p: Seq<char>)
    ensures
        spec_split(p).len() > 0,
    decreases p.len(),
{
    if p.len() > 0 {
        lemma_split_nonempty(p.drop_last());
    }
}

/// The characters of `p` split at its separators.
fn split_path(p: &[char]) -> (r: Vec<Vec<char>>)
    ensures
        r@.map_values(|g: Vec<char>| g@) == spec_split(p@),
{
    let mut parts: Vec<Vec<char>> = Vec::new();
    parts.push(Vec::new());
    assert(parts@.map_values(|g: Vec<char>| g@) =~= spec_split(p@.subrange(0, 0)));
    let mut i: usize = 0;
    while i < p.len()
        invariant
            i <= p@.len(),
            parts@.len() > 0,
            parts@.map_values(|g: Vec<char>| g@) == spec_split(p@.subrange(0, i as int)),
        decreases p.len() - i,
    {
        let ghost before: Seq<Seq<char>> = parts@.map_values(|g: Vec<char>| g@);
        proof {
            let q: Seq<char> = p@.subrange(0, i + 1);
            assert(q.drop_last() == p@.subrange(0, i as int));
            assert(q.last() == p@[i as int]);
        }
        if p[i] == '/' {
            parts.push(Vec::new());
            assert(parts@.map_values(|g: Vec<char>| g@) =~= before.push(Seq::empty()));
        } else {
            let mut last: Vec<char> = parts.pop().unwrap();
            last.push(p[i]);
            parts.push(last);
            assert(parts@.map_values(|g: Vec<char>| g@) =~= before.update(
                before.len() - 1,
                before.last().push(p@[i as int]),
            ));
        }
        i = i + 1;
    }
    assert(p@.subrange(0, p@.len() as int) == p@);
    parts
}

fn is_dot(g: &Vec<char>) -> (r: bool)
    ensures
        r == (g@ == seq!['.']),
{
    if g.len() == 1 && g[0] == '.' {
        assert(g@ =~= seq!['.']);
        true
    } else {
        false
    }
}

/// `Path::components` on Unix, each component as its characters: see `spec_components`.
pub fn path_components(path: &str) -> (r: (bool, Vec<Vec<char>>))
    ensures
        (r.0, r.1@.map_values(|g: Vec<char>| g@)) == spec_components(path@),
{
    let p: Vec<char> = to_chars(path);
    let root: bool = p.len() > 0 && p[0] == '/';
    let pieces: Vec<Vec<char>> = split_path(p.as_slice());
    let ghost ps: Seq<Seq<char>> = pieces@.map_values(|g: Vec<char>| g@);
    proof {
        lemma_split_nonempty(p@);
    }
    let mut comps: Vec<Vec<char>> = Vec::new();
    if !root && is_dot(&pieces[0]) {
        let mut dot: Vec<char> = Vec::new();
        dot.push('.');
        comps.push(dot);
    }
    let ghost cur: Seq<Seq<char>> = comps@.map_values(|g: Vec<char>| g@);
    assert(cur =~= (if !root && ps[0] == seq!['.'] {
        seq![seq!['.']]
    } else {
        Seq::<Seq<char>>::empty()
    }));
    let mut i: usize = 0;
    while i < pieces.len()
        invariant
            i <= pieces@.len(),
            ps == pieces@.map_values(|g: Vec<char>| g@),
            comps@.map_values(|g: Vec<char>| g@) == cur + spec_named(ps.subrange(0, i as int)),
        decreases pieces.len() - i,
    {
        let ghost before: Seq<Seq<char>> = comps@.map_values(|g: Vec<char>| g@);
        proof {
            let q: Seq<Seq<char>> = ps.subrange(0, i + 1);
            assert(q.drop_last() == ps.subrange(0, i as int));
            assert(q.last() == pieces@[i as int]@);
        }
        if pieces[i].len() > 0 && !is_dot(&pieces[i]) {
            let g: Vec<char> = pieces[i].clone();
            comps.push(g);
            assert(comps@.map_values(|g: Vec<char>| g@) =~= before.push(pieces@[i as int]@));
        }
        i = i + 1;
    }
    assert(ps.subrange(0, ps.len() as int) == ps);
    (root, comps)
}

/// Whether two paths are equal as `Path`s are: component by component.
pub fn same_path(a: &str, b: &str) -> (r: bool)
    ensures
        r == spec_same_path(a@, b@),
{
    let (ra, ca) = path_components(a);
    let (rb, cb) = path_components(b);
    let ghost va: Seq<Seq<char>> = ca@.map_values(|g: Vec<char>| g@);
    let ghost vb: Seq<Seq<char>> = cb@.map_values(|g: Vec<char>| g@);
    assert(spec_components(a@) == (ra, va));
    assert(spec_components(b@) == (rb, vb));
    if ra != rb || ca.len() != cb.len() {
        assert(va.len() == ca@.len() && vb.len() == cb@.len());
        return false;
    }
    let mut i: usize = 0;
    while i < ca.len()
        invariant
            i <= ca@.len(),
            ca@.len() == cb@.len(),
            va == ca@.map_values(|g: Vec<char>| g@),
            vb == cb@.map_values(|g: Vec<char>| g@),
            spec_components(a@) == (ra, va),
            spec_components(b@) == (rb, vb),
            ra == rb,
            forall|k: int| 0 <= k < i ==> va[k] == vb[k],
        decreases ca.len() - i,
    {
        if !same_chars(&ca[i], &cb[i]) {
            assert(va[i as int] != vb[i as int]);
            assert(va != vb);
            return false;
        }
        i = i + 1;
    }
    assert(va =~= vb);
    true
}

fn same_chars(a: &Vec<char>, b: &Vec<char>) -> (r: bool)
    ensures
        r == (a@ == b@),
{
    if a.len() != b.len() {
        return false;
    }
    let mut i: usize = 0;
    while i < a.len()
        invariant
            i <= a@.len(),
            a@.len() == b@.len(),
            forall|k: int| 0 <= k < i ==> a@[k] == b@[k],
        decreases a.len() - i,
    {
        if a[i] != b[i] {
            return false;
        }
        i = i + 1;
    }
    assert(a@ =~= b@);
    true
}

/// Whether some path of `paths` is equal to `p` as `Path`s are.
pub open spec fn spec_path_in(paths: Seq<Seq<char>>, p: Seq<char>) -> bool {
    exists|k: int| 0 <= k < paths.len() && spec_same_path(#[trigger] paths[k], p)
}

/// Whether `paths` holds a path equal to `p`, as `Vec<PathBuf>::contains` tells.
pub fn contains_path(paths: &Vec<String>, p: &String) -> (r: bool)
    ensures
        r == spec_path_in(paths@.map_values(|s: String| s@), p@),
{
    let ghost ps: Seq<Seq<char>> = paths@.map_values(|s: String| s@);
    let mut i: usize = 0;
    while i < paths.len()
        invariant
            i <= paths@.len(),
            ps == paths@.map_values(|s: String| s@),
            forall|k: int| 0 <= k < i ==> !spec_same_path(#[trigger] ps[k], p@),
        decreases paths.len() - i,
    {
        if same_path(paths[i].as_str(), p.as_str()) {
            assert(spec_same_path(ps[i as int], p@));
            return true;
        }
        i = i + 1;
    }
    false
}

/// Two splits that agree on the finished pieces' components and on the open last
/// piece keep agreeing whatever is appended to both paths.
proof fn lemma_split_same_suffix(x: Seq<char>, y: Seq<char>, q: Seq<char>)
    requires
        spec_split(x).len() > 0,
        spec_split(y).len() > 0,
        spec_named(spec_split(x).drop_last()) == spec_named(spec_split(y).drop_last()),
        spec_split(x).last() == spec_split(y).last(),
    ensures
        spec_split(x + q).len() > 0,
        spec_split(y + q).len() > 0,
        spec_named(spec_split(x + q).drop_last()) == spec_named(spec_split(y + q).drop_last()),
        spec_split(x + q).last() == spec_split(y + q).last(),
    decreases q.len(),
{
    if q.len() == 0 {
        assert(x + q == x);
        assert(y + q == y);
    } else {
        let q1: Seq<char> = q.drop_last();
        lemma_split_same_suffix(x, y, q1);
        let c: char = q.last();
        assert((x + q).drop_last() == x + q1);
        assert((x + q).last() == c);
        assert((y + q).drop_last() == y + q1);
        assert((y + q).last() == c);
        let a: Seq<Seq<char>> = spec_split(x + q1);
        let b: Seq<Seq<char>> = spec_split(y + q1);
        assert(a == a.drop_last().push(a.last()));
        assert(b == b.drop_last().push(b.last()));
        assert(spec_named(a) == spec_named(b));
        if c == '/' {
            assert(spec_split(x + q).drop_last() == a);
            assert(spec_split(y + q).drop_last() == b);
        } else {
            assert(spec_split(x + q).drop_last() == a.drop_last());
            assert(spec_split(y + q).drop_last() == b.drop_last());
        }
    }
}

proof fn lemma_split_first_kept(z: Seq<char>, q: Seq<char>)
    requires
        spec_split(z).len() >= 2,
    ensures
        spec_split(z + q).len() >= 2,
        spec_split(z + q)[0] == spec_split(z)[0],
    decreases q.len(),
{
    if q.len() == 0 {
        assert(z + q == z);
    } else {
        lemma_split_first_kept(z, q.drop_last());
        assert((z + q).drop_last() == z + q.drop_last());
    }
}

/// Law: a doubled separator, or a `/./`, inside a path that has something before it
/// changes nothing: such paths are the same `Path`.
pub proof fn lemma_same_path_ignores_empty_and_dot(p: Seq<char>, q: Seq<char>)
    requires
        p.len() > 0,
    ensures
        spec_same_path(p + seq!['/', '/'] + q, p + seq!['/'] + q),
        spec_same_path(p + seq!['/', '.', '/'] + q, p + seq!['/'] + q),
{
    lemma_split_nonempty(p);
    let sp: Seq<Seq<char>> = spec_split(p);
    let e: Seq<char> = Seq::empty();
    let y: Seq<char> = p + seq!['/'];
    let x1: Seq<char> = p + seq!['/', '/'];
    let x2: Seq<char> = p + seq!['/', '.', '/'];
    assert(y.drop_last() == p && y.last() == '/');
    assert(spec_split(y) == sp.push(e));
    assert(x1.drop_last() == y && x1.last() == '/');
    assert(spec_split(x1) == sp.push(e).push(e));
    let z: Seq<char> = p + seq!['/', '.'];
    assert(z.drop_last() == y && z.last() == '.');
    assert(spec_split(z) == sp.push(e).update(sp.len() as int, e.push('.')));
    assert(e.push('.') =~= seq!['.']);
    assert(spec_split(z) =~= sp.push(seq!['.']));
    assert(x2.drop_last() == z && x2.last() == '/');
    assert(spec_split(x2) == sp.push(seq!['.']).push(e));
    assert(spec_split(x1).drop_last() == sp.push(e));
    assert(spec_split(x2).drop_last() == sp.push(seq!['.']));
    assert(spec_split(y).drop_last() == sp);
    assert(sp.push(e).drop_last() == sp);
    assert(sp.push(seq!['.']).drop_last() == sp);
    lemma_split_same_suffix(x1, y, q);
    lemma_split_same_suffix(x2, y, q);
    let a1 = spec_split(x1 + q);
    let a2 = spec_split(x2 + q);
    let b = spec_split(y + q);
    assert(a1 == a1.drop_last().push(a1.last()));
    assert(a2 == a2.drop_last().push(a2.last()));
    assert(b == b.drop_last().push(b.last()));
    assert(spec_named(a1) == spec_named(b));
    assert(spec_named(a2) == spec_named(b));
    lemma_split_first_kept(y, q);
    lemma_split_first_kept(x1, q);
    lemma_split_first_kept(x2, q);
    assert(spec_split(x1)[0] == sp[0]);
    assert(spec_split(x2)[0] == sp[0]);
    assert(spec_split(y)[0] == sp[0]);
    assert((x1 + q)[0] == p[0]);
    assert((x2 + q)[0] == p[0]);
    assert((y + q)[0] == p[0]);
}

/// Law: a trailing separator changes nothing: `p/` is the same `Path` as `p`.
pub proof fn lemma_same_path_ignores_trailing_slash(p: Seq<char>)
    requires
        p.len() > 0,
    ensures
        spec_same_path(p.push('/'), p),
{
    lemma_split_nonempty(p);
    let sp = spec_split(p);
    assert(p.push('/').drop_last() == p);
    assert(spec_split(p.push('/')) == sp.push(Seq::<char>::empty()));
    assert(sp.push(Seq::<char>::empty()).drop_last() == sp);
    assert(p.push('/')[0] == p[0]);
}

} // verus!
