//! Byte-level path arithmetic.
//!
//! Paths are byte strings in the usual Unix shape: components joined by a
//! separator byte, absolute paths starting with one. Everything here is
//! executable and verified; no filesystem is consulted.

use vstd::prelude::*;
use vstd::std_specs::cmp::PartialEqSpec;

verus! {

/// The path separator byte (`/`).
pub open spec fn sep() -> u8 {
    47u8
}

/// An absolute path: non-empty and starting with the separator.
pub open spec fn is_abs(p: Seq<u8>) -> bool {
    p.len() > 0 && p[0] == sep()
}

/// The filesystem root: the one-byte path holding just the separator.
pub open spec fn is_root(p: Seq<u8>) -> bool {
    p.len() == 1 && p[0] == sep()
}

/// `k` names something strictly inside the directory `d`: `d` is a proper
/// prefix of `k` ending on a component boundary.
pub open spec fn strictly_under(k: Seq<u8>, d: Seq<u8>) -> bool {
    &&& 0 < d.len() < k.len()
    &&& k.take(d.len() as int) == d
    &&& (k[d.len() as int] == sep() || is_root(d))
}

/// `k` is `d` itself or lies inside it.
pub open spec fn in_subtree(k: Seq<u8>, d: Seq<u8>) -> bool {
    k == d || strictly_under(k, d)
}

/// Joining a directory and a relative path: insert a separator unless the
/// directory is the root, which already ends with one.
pub open spec fn join_spec(d: Seq<u8>, r: Seq<u8>) -> Seq<u8> {
    if is_root(d) {
        d + r
    } else {
        d + seq![sep()] + r
    }
}

/// The relative remainder of `p` below `root` (meaningful when
/// `strictly_under(p, root)` holds).
pub open spec fn rel_spec(root: Seq<u8>, p: Seq<u8>) -> Seq<u8> {
    if is_root(root) {
        p.skip(root.len() as int)
    } else {
        p.skip(root.len() as int + 1)
    }
}

/// Compare two byte paths.
pub fn eq_bytes(a: &Vec<u8>, b: &Vec<u8>) -> (r: bool)
    ensures
        r <==> a@ == b@,
{
    let r = a == b;
    proof {
        if r {
            assert(a@ =~= b@);
        } else {
            if a@ == b@ {
                assert(a.eq_spec(b));
            }
        }
    }
    r
}

/// Copy the byte range `[start, end)` out of `p`.
pub fn sub_bytes(p: &Vec<u8>, start: usize, end: usize) -> (r: Vec<u8>)
    requires
        start <= end <= p@.len(),
    ensures
        r@ == p@.subrange(start as int, end as int),
{
    let mut r: Vec<u8> = Vec::new();
    let mut i: usize = start;
    while i < end
        invariant
            start <= i <= end <= p@.len(),
            r@ == p@.subrange(start as int, i as int),
        decreases end - i,
    {
        r.push(p[i]);
        i = i + 1;
        proof {
            assert(r@ =~= p@.subrange(start as int, i as int));
        }
    }
    r
}

/// Append all of `b` onto `a`.
pub fn extend_bytes(a: &mut Vec<u8>, b: &Vec<u8>)
    ensures
        final(a)@ == old(a)@ + b@,
{
    let mut i: usize = 0;
    while i < b.len()
        invariant
            i <= b@.len(),
            a@ == old(a)@ + b@.take(i as int),
        decreases b@.len() - i,
    {
        a.push(b[i]);
        i = i + 1;
        proof {
            assert(a@ =~= old(a)@ + b@.take(i as int));
        }
    }
    proof {
        assert(a@ =~= old(a)@ + b@);
    }
}

/// Whether `p` is absolute.
pub fn is_absolute(p: &Vec<u8>) -> (r: bool)
    ensures
        r == is_abs(p@),
{
    p.len() > 0 && p[0] == 47u8
}

/// Whether `p` is the root path.
pub fn is_root_path(p: &Vec<u8>) -> (r: bool)
    ensures
        r == is_root(p@),
{
    p.len() == 1 && p[0] == 47u8
}

/// Whether `k` lies strictly inside the directory `d`.
pub fn strictly_under_path(k: &Vec<u8>, d: &Vec<u8>) -> (r: bool)
    ensures
        r == strictly_under(k@, d@),
{
    if d.len() == 0 || k.len() <= d.len() {
        return false;
    }
    let mut i: usize = 0;
    while i < d.len()
        invariant
            i <= d@.len() < k@.len(),
            forall|j: int| 0 <= j < i ==> k@[j] == d@[j],
        decreases d@.len() - i,
    {
        if k[i] != d[i] {
            assert(k@.take(d@.len() as int)[i as int] != d@[i as int]);
            return false;
        }
        i = i + 1;
    }
    proof {
        assert(k@.take(d@.len() as int) =~= d@);
    }
    k[d.len()] == 47u8 || is_root_path(d)
}

/// Whether `k` is `d` or lies inside it.
pub fn in_subtree_path(k: &Vec<u8>, d: &Vec<u8>) -> (r: bool)
    ensures
        r == in_subtree(k@, d@),
{
    if eq_bytes(k, d) {
        true
    } else {
        strictly_under_path(k, d)
    }
}

/// Join a directory path and a relative path.
pub fn join(d: &Vec<u8>, r: &Vec<u8>) -> (p: Vec<u8>)
    ensures
        p@ == join_spec(d@, r@),
{
    let mut p = d.clone();
    proof {
        assert(p@ =~= d@);
    }
    if !is_root_path(d) {
        p.push(47u8);
        proof {
            assert(p@ =~= d@ + seq![sep()]);
        }
    }
    extend_bytes(&mut p, r);
    proof {
        if is_root(d@) {
            assert(p@ =~= d@ + r@);
        } else {
            assert(p@ =~= d@ + seq![sep()] + r@);
        }
    }
    p
}

/// Errors of path resolution.
#[derive(Clone, Copy, Debug, PartialEq, Eq, Structural)]
pub enum PathError {
    /// The path is not a descendant of the root it was held against.
    NotUnderRoot,
    /// The path equals the root, leaving an empty relative remainder.
    EmptyRelative,
    /// No existing ancestor could anchor resolution.
    ResolutionError,
    /// The repository path has no parent directory.
    NoParent,
}

/// The remainder of `path` below `root`.
///
/// Returns `EmptyRelative` when `path == root` and `NotUnderRoot` when `path`
/// does not lie strictly inside `root`; otherwise the non-empty relative path.
pub fn relative_from_root(root: &Vec<u8>, path: &Vec<u8>) -> (r: Result<Vec<u8>, PathError>)
    ensures
        (path@ == root@ || (strictly_under(path@, root@) && rel_spec(root@, path@).len() == 0))
            ==> r == Result::<Vec<u8>, PathError>::Err(PathError::EmptyRelative),
        path@ != root@ && !strictly_under(path@, root@) ==> r == Result::<
            Vec<u8>,
            PathError,
        >::Err(PathError::NotUnderRoot),
        (strictly_under(path@, root@) && rel_spec(root@, path@).len() > 0) ==> (r matches Ok(rel)
            && rel@ == rel_spec(root@, path@) && rel@.len() > 0),
{
    if eq_bytes(path, root) {
        return Err(PathError::EmptyRelative);
    }
    if !strictly_under_path(path, root) {
        return Err(PathError::NotUnderRoot);
    }
    let plen = path.len();
    assert(root@.len() < path@.len());
    let start: usize = if is_root_path(root) {
        root.len()
    } else {
        root.len() + 1
    };
    if start >= plen {
        proof {
            assert(rel_spec(root@, path@) =~= path@.subrange(start as int, plen as int));
        }
        return Err(PathError::EmptyRelative);
    }
    let r = sub_bytes(path, start, plen);
    proof {
        assert(r@ =~= rel_spec(root@, path@));
    }
    Ok(r)
}

/// Joining the relative remainder back onto the root restores the path.
///
/// Law: for every `path` strictly inside `root`,
/// `join_spec(root, rel_spec(root, path)) == path`.
pub proof fn lemma_join_rel(root: Seq<u8>, path: Seq<u8>)
    requires
        strictly_under(path, root),
    ensures
        join_spec(root, rel_spec(root, path)) == path,
{
    if is_root(root) {
        assert(join_spec(root, rel_spec(root, path)) =~= path);
    } else {
        assert(join_spec(root, rel_spec(root, path)) =~= path);
    }
}

/// The join of a directory and a non-empty relative path lies strictly
/// inside the directory, provided the relative part does not start with a
/// separator.
pub proof fn lemma_join_under(d: Seq<u8>, r: Seq<u8>)
    requires
        d.len() > 0,
        r.len() > 0,
    ensures
        strictly_under(join_spec(d, r), d),
        rel_spec(d, join_spec(d, r)) == r,
{
    let p = join_spec(d, r);
    if is_root(d) {
        assert(p.take(d.len() as int) =~= d);
    } else {
        assert(p.take(d.len() as int) =~= d);
        assert(p[d.len() as int] == sep());
    }
    assert(rel_spec(d, p) =~= r);
}

/// The root of managed originals: an explicit choice when one is given, else
/// the parent directory of the repository path.
pub fn get_root(root: Option<&Vec<u8>>, repo: &Vec<u8>) -> (r: Result<Vec<u8>, PathError>)
    ensures
        root matches Some(p) ==> (r matches Ok(q) && q@ == p@),
        (root is None && parent_spec(repo@) is Some) ==> (r matches Ok(q) && q@ == parent_spec(
            repo@,
        ).unwrap()),
        root is None && parent_spec(repo@) is None ==> r == Result::<Vec<u8>, PathError>::Err(
            PathError::NoParent,
        ),
{
    match root {
        Some(p) => {
            let q = p.clone();
            proof {
                assert(q@ =~= p@);
            }
            Ok(q)
        },
        None => {
            match parent_path(repo) {
                Some(d) => Ok(d),
                None => Err(PathError::NoParent),
            }
        },
    }
}

/// The index of the last separator in `p`, or `-1` when it has none.
pub open spec fn last_sep(p: Seq<u8>) -> int
    decreases p.len(),
{
    if p.len() == 0 {
        -1
    } else if p[p.len() - 1] == sep() {
        p.len() - 1
    } else {
        last_sep(p.drop_last())
    }
}

/// The parent directory of `p`: the bytes before the last separator, the
/// root when that separator is the leading one, and nothing for the root
/// itself or a separator-free path.
pub open spec fn parent_spec(p: Seq<u8>) -> Option<Seq<u8>> {
    if p.len() <= 1 || last_sep(p) < 0 {
        None
    } else if last_sep(p) == 0 {
        Some(seq![sep()])
    } else {
        Some(p.take(last_sep(p)))
    }
}

proof fn lemma_last_sep(p: Seq<u8>)
    ensures
        -1 <= last_sep(p) < p.len(),
        last_sep(p) >= 0 ==> p[last_sep(p)] == sep(),
        forall|j: int| last_sep(p) < j < p.len() ==> p[j] != sep(),
    decreases p.len(),
{
    if p.len() == 0 {
    } else if p[p.len() - 1] == sep() {
    } else {
        lemma_last_sep(p.drop_last());
        assert forall|j: int| last_sep(p) < j < p.len() implies p[j] != sep() by {
            if j < p.len() - 1 {
                assert(p.drop_last()[j] == p[j]);
            }
        }
    }
}

proof fn lemma_last_sep_at(p: Seq<u8>, i: int)
    requires
        0 <= i < p.len(),
        p[i] == sep(),
        forall|j: int| i < j < p.len() ==> p[j] != sep(),
    ensures
        last_sep(p) == i,
    decreases p.len(),
{
    if p[p.len() - 1] == sep() {
        assert(i == p.len() - 1);
    } else {
        assert(i < p.len() - 1);
        assert(p.drop_last()[i] == p[i]);
        assert forall|j: int| i < j < p.drop_last().len() implies p.drop_last()[j] != sep() by {
            assert(p.drop_last()[j] == p[j]);
        }
        lemma_last_sep_at(p.drop_last(), i);
    }
}

/// The parent directory of `p`, as `parent_spec` describes it.
pub fn parent_path(p: &Vec<u8>) -> (r: Option<Vec<u8>>)
    ensures
        match r {
            Some(d) => parent_spec(p@) == Some(d@),
            None => parent_spec(p@) is None,
        },
{
    proof {
        lemma_last_sep(p@);
    }
    if p.len() <= 1 {
        proof {
            if p@.len() == 1 && p@[0] == sep() {
                assert(last_sep(p@) == 0);
            }
        }
        return None;
    }
    let mut i: usize = p.len();
    while i > 0
        invariant
            1 < p@.len(),
            i <= p@.len(),
            forall|j: int| i <= j < p@.len() ==> p@[j] != sep(),
        decreases i,
    {
        i = i - 1;
        if p[i] == 47u8 {
            proof {
                lemma_last_sep_at(p@, i as int);
            }
            if i == 0 {
                let mut d: Vec<u8> = Vec::new();
                d.push(47u8);
                proof {
                    assert(d@ =~= seq![sep()]);
                }
                return Some(d);
            }
            let d = sub_bytes(p, 0, i);
            proof {
                assert(d@ =~= p@.take(i as int));
            }
            return Some(d);
        }
    }
    proof {
        if last_sep(p@) >= 0 {
            assert(p@[last_sep(p@)] == sep());
        }
    }
    None
}


/// A strict prefix-directory of a path is either the path's parent itself
/// or a strict prefix-directory of that parent.
pub proof fn lemma_under_parent(c: Seq<u8>, p: Seq<u8>, d: Seq<u8>)
    requires
        parent_spec(c) == Some(p),
        strictly_under(c, d),
        d != p,
    ensures
        strictly_under(p, d),
{
    lemma_last_sep(c);
    let ls = last_sep(c);
    assert(ls >= 0);
    if is_root(d) {
        assert(c[0] == sep());
        if ls == 0 {
            assert(p =~= seq![sep()]);
            assert(d =~= p);
            assert(false);
        } else {
            assert(p == c.take(ls));
            assert(p[0] == c[0]);
            assert(p.take(1) =~= d);
        }
    } else {
        assert(c[d.len() as int] == sep());
        assert(d.len() <= ls);
        if ls == 0 {
            assert(d.len() == 0);
            assert(false);
        } else {
            assert(p == c.take(ls));
            if d.len() == ls {
                assert(d =~= p);
                assert(false);
            } else {
                assert(p.take(d.len() as int) =~= d);
                assert(p[d.len() as int] == sep());
            }
        }
    }
}


/// The views of a run of byte paths.
pub open spec fn views_of(ps: Seq<Vec<u8>>) -> Seq<Seq<u8>> {
    ps.map_values(|p: Vec<u8>| p@)
}

/// The length of the longest common byte prefix of `a` and `b`.
pub open spec fn lcp_len(a: Seq<u8>, b: Seq<u8>) -> int
    decreases a.len(),
{
    if a.len() == 0 || b.len() == 0 || a[0] != b[0] {
        0
    } else {
        1 + lcp_len(a.drop_first(), b.drop_first())
    }
}

proof fn lemma_lcp_at(a: Seq<u8>, b: Seq<u8>, l: int)
    requires
        0 <= l <= a.len(),
        l <= b.len(),
        forall|j: int| 0 <= j < l ==> a[j] == b[j],
        l == a.len() || l == b.len() || a[l] != b[l],
    ensures
        lcp_len(a, b) == l,
    decreases l,
{
    if l == 0 {
    } else {
        assert(a[0] == b[0]);
        let a1 = a.drop_first();
        let b1 = b.drop_first();
        assert forall|j: int| 0 <= j < l - 1 implies a1[j] == b1[j] by {
            assert(a1[j] == a[j + 1]);
        }
        if l - 1 < a1.len() && l - 1 < b1.len() {
            assert(a1[l - 1] == a[l]);
            assert(b1[l - 1] == b[l]);
        }
        lemma_lcp_at(a1, b1, l - 1);
    }
}

/// The component-wise common prefix of two byte paths: the longest common
/// byte prefix, cut back to the last complete component.
pub open spec fn common2_spec(a: Seq<u8>, b: Seq<u8>) -> Seq<u8> {
    let l = lcp_len(a, b);
    if l == a.len() && l == b.len() {
        a
    } else if l == a.len() && b[l] == sep() {
        a
    } else if l == b.len() && a[l] == sep() {
        b
    } else {
        let c = last_sep(a.take(l));
        if c > 0 {
            a.take(c)
        } else if c == 0 {
            seq![sep()]
        } else {
            Seq::empty()
        }
    }
}

/// The common base of a run of paths: the component-wise common prefix of
/// them all, empty for an empty run.
pub open spec fn common_base_spec(ps: Seq<Seq<u8>>) -> Seq<u8>
    decreases ps.len(),
{
    if ps.len() == 0 {
        Seq::empty()
    } else if ps.len() == 1 {
        ps[0]
    } else {
        common2_spec(common_base_spec(ps.drop_last()), ps.last())
    }
}

fn common2(a: &Vec<u8>, b: &Vec<u8>) -> (r: Vec<u8>)
    ensures
        r@ == common2_spec(a@, b@),
{
    let mut l: usize = 0;
    while l < a.len() && l < b.len() && a[l] == b[l]
        invariant
            l <= a@.len(),
            l <= b@.len(),
            forall|j: int| 0 <= j < l ==> a@[j] == b@[j],
        decreases a@.len() - l,
    {
        l = l + 1;
    }
    proof {
        lemma_lcp_at(a@, b@, l as int);
    }
    if l == a.len() && l == b.len() {
        let r = a.clone();
        proof {
            assert(r@ =~= a@);
        }
        return r;
    }
    if l == a.len() && b[l] == 47u8 {
        let r = a.clone();
        proof {
            assert(r@ =~= a@);
        }
        return r;
    }
    if l == b.len() && a[l] == 47u8 {
        let r = b.clone();
        proof {
            assert(r@ =~= b@);
        }
        return r;
    }
    let ghost prefix = a@.take(l as int);
    let mut c: usize = l;
    while c > 0
        invariant
            c <= l <= a@.len(),
            l <= b@.len(),
            l as int == lcp_len(a@, b@),
            !(l == a@.len() && l == b@.len()),
            l == a@.len() ==> b@[l as int] != sep(),
            l == b@.len() ==> a@[l as int] != sep(),
            prefix == a@.take(l as int),
            forall|j: int| c <= j < l ==> a@[j] != sep(),
        decreases c,
    {
        c = c - 1;
        if a[c] == 47u8 {
            proof {
                assert forall|j: int| c < j < prefix.len() implies prefix[j] != sep() by {
                    assert(prefix[j] == a@[j]);
                }
                assert(prefix[c as int] == sep());
                lemma_last_sep_at(prefix, c as int);
            }
            if c > 0 {
                let r = sub_bytes(a, 0, c);
                proof {
                    assert(r@ =~= a@.take(c as int));
                }
                return r;
            }
            let mut r: Vec<u8> = Vec::new();
            r.push(47u8);
            proof {
                assert(r@ =~= seq![sep()]);
            }
            return r;
        }
    }
    proof {
        lemma_last_sep(prefix);
        if last_sep(prefix) >= 0 {
            assert(prefix[last_sep(prefix)] == a@[last_sep(prefix)]);
        }
    }
    Vec::new()
}

/// The longest shared component-wise prefix of the given paths, folded
/// left-to-right; empty input yields the empty path.
pub fn common_base_path(paths: &Vec<Vec<u8>>) -> (r: Vec<u8>)
    ensures
        r@ == common_base_spec(views_of(paths@)),
{
    let n = paths.len();
    if n == 0 {
        return Vec::new();
    }
    let mut r = paths[0].clone();
    proof {
        assert(r@ =~= paths@[0]@);
        assert(views_of(paths@).take(1) =~= seq![paths@[0]@]);
    }
    let mut i: usize = 1;
    while i < n
        invariant
            n == paths@.len(),
            1 <= i <= n,
            r@ == common_base_spec(views_of(paths@).take(i as int)),
        decreases n - i,
    {
        proof {
            assert(views_of(paths@).take(i as int + 1).drop_last() =~= views_of(paths@).take(
                i as int,
            ));
            assert(views_of(paths@).take(i as int + 1).last() == paths@[i as int]@);
        }
        r = common2(&r, &paths[i]);
        i = i + 1;
    }
    proof {
        assert(views_of(paths@).take(n as int) =~= views_of(paths@));
    }
    r
}

/// `c` is a component-wise prefix of `p`: empty, the whole of `p`, or a
/// directory `p` lies strictly under.
pub open spec fn comp_prefix(c: Seq<u8>, p: Seq<u8>) -> bool {
    c.len() == 0 || c == p || strictly_under(p, c)
}

/// Component-wise prefixes chain.
pub proof fn lemma_comp_prefix_trans(c: Seq<u8>, m: Seq<u8>, p: Seq<u8>)
    requires
        comp_prefix(c, m),
        comp_prefix(m, p),
    ensures
        comp_prefix(c, p),
{
    if c.len() > 0 && c != m && m != p {
        assert(strictly_under(m, c));
        assert(strictly_under(p, m));
        assert(p.take(c.len() as int) =~= m.take(c.len() as int));
        if !is_root(c) {
            assert(p[c.len() as int] == m[c.len() as int]);
        }
    } else {
        if c.len() > 0 && c != p {
            if c == m {
                assert(strictly_under(p, c));
            } else if m == p {
                assert(strictly_under(p, c));
            }
        }
    }
}

/// The two-path common base is a component-wise prefix of both paths.
pub proof fn lemma_common2_prefix(a: Seq<u8>, b: Seq<u8>)
    ensures
        comp_prefix(common2_spec(a, b), a),
        comp_prefix(common2_spec(a, b), b),
{
    let l = lcp_len(a, b);
    lemma_lcp_props(a, b);
    let r = common2_spec(a, b);
    if l == a.len() && l == b.len() {
        assert(a =~= b);
    } else if l == a.len() && b[l] == sep() {
        if a.len() == 0 {
        } else {
            assert(b.take(a.len() as int) =~= a);
            assert(strictly_under(b, a));
        }
    } else if l == b.len() && a[l] == sep() {
        if b.len() == 0 {
        } else {
            assert(a.take(b.len() as int) =~= b);
            assert(strictly_under(a, b));
        }
    } else {
        let pre = a.take(l);
        lemma_last_sep(pre);
        let c = last_sep(pre);
        if c > 0 {
            assert(pre[c] == sep());
            assert(a[c] == sep());
            assert(b[c] == a[c]);
            assert(c < a.len());
            assert(c < b.len());
            assert(a.take(c).len() == c);
            assert(a.take(c) =~= a.take(c));
            assert(strictly_under(a, a.take(c)));
            assert(b.take(c) =~= a.take(c));
            assert(strictly_under(b, a.take(c)));
        } else if c == 0 {
            assert(pre[0] == sep());
            assert(a[0] == sep());
            assert(b[0] == a[0]);
            if a.len() == 1 {
                assert(l == 1);
                assert(r =~= a);
            } else {
                assert(a.take(1) =~= seq![sep()]);
                assert(strictly_under(a, seq![sep()]));
            }
            if b.len() == 1 {
                assert(l == 1);
                assert(r =~= b);
            } else {
                assert(b.take(1) =~= seq![sep()]);
                assert(strictly_under(b, seq![sep()]));
            }
        } else {
        }
    }
}

proof fn lemma_lcp_props(a: Seq<u8>, b: Seq<u8>)
    ensures
        0 <= lcp_len(a, b) <= a.len(),
        lcp_len(a, b) <= b.len(),
        forall|j: int| 0 <= j < lcp_len(a, b) ==> a[j] == b[j],
        lcp_len(a, b) < a.len() && lcp_len(a, b) < b.len() ==> a[lcp_len(a, b)] != b[lcp_len(
            a,
            b,
        )],
    decreases a.len(),
{
    if a.len() == 0 || b.len() == 0 || a[0] != b[0] {
    } else {
        lemma_lcp_props(a.drop_first(), b.drop_first());
        let l1 = lcp_len(a.drop_first(), b.drop_first());
        assert forall|j: int| 0 <= j < lcp_len(a, b) implies a[j] == b[j] by {
            if j > 0 {
                assert(a.drop_first()[j - 1] == b.drop_first()[j - 1]);
            }
        }
        if l1 < a.drop_first().len() && l1 < b.drop_first().len() {
            assert(a.drop_first()[l1] == a[l1 + 1]);
            assert(b.drop_first()[l1] == b[l1 + 1]);
        }
    }
}

/// Law: the common base of a run of paths is a component-wise prefix of
/// every path in the run.
pub proof fn lemma_common_base_prefix(ps: Seq<Seq<u8>>, i: int)
    requires
        0 <= i < ps.len(),
    ensures
        comp_prefix(common_base_spec(ps), ps[i]),
    decreases ps.len(),
{
    if ps.len() == 1 {
    } else {
        lemma_common2_prefix(common_base_spec(ps.drop_last()), ps.last());
        if i == ps.len() - 1 {
        } else {
            lemma_common_base_prefix(ps.drop_last(), i);
            lemma_comp_prefix_trans(
                common_base_spec(ps),
                common_base_spec(ps.drop_last()),
                ps[i],
            );
        }
    }
}


/// Law: the two-path common base is the longest such prefix — every common
/// component-wise prefix of `a` and `b` is a component-wise prefix of it.
pub proof fn lemma_common2_longest(a: Seq<u8>, b: Seq<u8>, c: Seq<u8>)
    requires
        comp_prefix(c, a),
        comp_prefix(c, b),
    ensures
        comp_prefix(c, common2_spec(a, b)),
{
    if c.len() == 0 {
        return ;
    }
    let l = lcp_len(a, b);
    lemma_lcp_props(a, b);
    assert(c == a.take(c.len() as int)) by {
        if c == a {
            assert(a.take(c.len() as int) =~= a);
        }
    }
    assert(c == b.take(c.len() as int)) by {
        if c == b {
            assert(b.take(c.len() as int) =~= b);
        }
    }
    assert(forall|j: int| 0 <= j < c.len() ==> a[j] == c[j] && b[j] == c[j]);
    assert(c.len() <= l) by {
        if l < c.len() {
            assert(a[l] == c[l] && b[l] == c[l]);
        }
    }
    if l == a.len() && l == b.len() {
    } else if l == a.len() && b[l] == sep() {
    } else if l == b.len() && a[l] == sep() {
    } else {
        let pre = a.take(l);
        lemma_last_sep(pre);
        let cut = last_sep(pre);
        if c == a {
            assert(l == a.len());
            assert(c != b);
            assert(strictly_under(b, c));
            if is_root(c) {
                assert(a =~= seq![sep()]);
                assert(l == 1);
                assert(pre =~= seq![sep()]);
                assert(cut == 0);
                assert(common2_spec(a, b) =~= c);
            } else {
                assert(b[c.len() as int] == sep());
                assert(false);
            }
        } else if c == b {
            assert(l == b.len());
            assert(strictly_under(a, c));
            if is_root(c) {
                assert(b =~= seq![sep()]);
                assert(l == 1);
                assert(a[0] == b[0]);
                assert(pre =~= seq![sep()]);
                assert(cut == 0);
                assert(common2_spec(a, b) =~= c);
            } else {
                assert(a[c.len() as int] == sep());
                assert(false);
            }
        } else if is_root(c) {
            assert(a[0] == sep());
            assert(pre[0] == sep());
            assert(cut >= 0) by {
                lemma_last_sep_at_exists(pre);
            }
            if cut == 0 {
                assert(common2_spec(a, b) =~= c);
            } else {
                let r = a.take(cut);
                assert(r[0] == a[0]);
                if cut == 1 {
                    assert(r =~= c);
                } else {
                    assert(r.take(1) =~= c);
                    assert(strictly_under(r, c));
                }
            }
        } else {
            assert(strictly_under(a, c));
            assert(a[c.len() as int] == sep());
            assert(strictly_under(b, c));
            assert(b[c.len() as int] == sep());
            assert(c.len() < l) by {
                if c.len() == l {
                    assert(l < a.len() && l < b.len());
                    assert(a[l] == b[l]);
                }
            }
            assert(pre[c.len() as int] == sep());
            assert(cut >= c.len()) by {
                if cut < c.len() {
                    assert(pre[c.len() as int] != sep());
                }
            }
            let r = common2_spec(a, b);
            if cut == c.len() {
                assert(r =~= c);
            } else {
                assert(r == a.take(cut));
                assert(r.take(c.len() as int) =~= c);
                assert(r[c.len() as int] == a[c.len() as int]);
                assert(strictly_under(r, c));
            }
        }
    }
}

proof fn lemma_last_sep_at_exists(p: Seq<u8>)
    requires
        p.len() > 0,
        p[0] == sep(),
    ensures
        last_sep(p) >= 0,
    decreases p.len(),
{
    if p[p.len() - 1] == sep() {
    } else {
        lemma_last_sep_at_exists(p.drop_last());
    }
}

/// Law: the common base of a run of paths is the longest shared prefix —
/// every path that is a component-wise prefix of all of them is a
/// component-wise prefix of it.
pub proof fn lemma_common_base_longest(ps: Seq<Seq<u8>>, c: Seq<u8>)
    requires
        ps.len() > 0,
        forall|i: int| 0 <= i < ps.len() ==> comp_prefix(c, #[trigger] ps[i]),
    ensures
        comp_prefix(c, common_base_spec(ps)),
    decreases ps.len(),
{
    if ps.len() == 1 {
        assert(comp_prefix(c, ps[0]));
    } else {
        assert forall|i: int| 0 <= i < ps.drop_last().len() implies comp_prefix(
            c,
            #[trigger] ps.drop_last()[i],
        ) by {
            assert(ps.drop_last()[i] == ps[i]);
        }
        lemma_common_base_longest(ps.drop_last(), c);
        assert(comp_prefix(c, ps[ps.len() - 1]));
        lemma_common2_longest(common_base_spec(ps.drop_last()), ps.last(), c);
    }
}

} // verus!
