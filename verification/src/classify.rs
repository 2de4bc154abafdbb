//! The classifier: expanding requested paths into the flat list of leaf
//! entries the engine processes.
//!
//! Directories are walked with an explicit worklist (no recursion), a
//! directory carrying embedded version-control metadata is emitted as one
//! atomic unit and never descended into, and no path is visited twice in a
//! single call.

use crate::fs_model::{lemma_visited_bound, read_dir, FsModel};
use crate::paths::{
    eq_bytes, join, join_spec, lemma_under_parent, parent_spec, strictly_under, views_of,
};
use crate::resolver::{lemma_resolve_exists, resolve, resolve_spec, LINK_CHASE_LIMIT};
use vstd::prelude::*;

verus! {

/// The kind of a leaf entry.
#[derive(Clone, Copy, Debug, PartialEq, Eq, Structural)]
pub enum PathType {
    /// An ordinary file or link, managed on its own.
    File,
    /// A directory that is itself version-controlled: one atomic unit.
    GitRepo,
}

/// One leaf the classifier emits.
#[derive(Debug, PartialEq, Eq, Clone)]
pub struct LeafEntry {
    pub absolute_path: Vec<u8>,
    pub kind: PathType,
}

/// Why classification failed.
#[derive(Clone, Copy, Debug, PartialEq, Eq, Structural)]
pub enum ClassifyError {
    /// A requested path does not exist.
    PathNotFound,
}

/// The child name whose presence marks a directory as version-controlled.
pub open spec fn repo_marker() -> Seq<u8> {
    seq![46u8, 103u8, 105u8, 116u8]
}

/// A directory holding embedded version-control metadata: an atomic unit
/// the classifier must not descend into.
pub open spec fn is_repo_dir(m: FsModel, p: Seq<u8>) -> bool {
    m.dir_at(p) && m.has(join_spec(p, repo_marker()))
}

/// What the classifier does with one observed path: the walk decision as
/// pure data, for a shell walking a real directory tree with its own
/// probes.
#[derive(Clone, Copy, Debug, PartialEq, Eq, Structural)]
pub enum ClassifyAction {
    /// A version-controlled directory: emit one atomic unit, do not descend.
    EmitRepoUnit,
    /// A plain directory: descend into its children.
    Descend,
    /// Anything else: emit an ordinary file leaf.
    EmitFile,
}

/// The classifier's decision for one path, given what was observed of it.
pub fn classify_step(is_dir: bool, is_repo_unit: bool) -> (r: ClassifyAction)
    ensures
        is_dir && is_repo_unit ==> r == ClassifyAction::EmitRepoUnit,
        is_dir && !is_repo_unit ==> r == ClassifyAction::Descend,
        !is_dir ==> r == ClassifyAction::EmitFile,
{
    if is_dir {
        if is_repo_unit {
            ClassifyAction::EmitRepoUnit
        } else {
            ClassifyAction::Descend
        }
    } else {
        ClassifyAction::EmitFile
    }
}

/// Probe `p` for embedded version-control metadata.
pub fn is_repo_unit(fs: &FsModel, p: &Vec<u8>) -> (r: bool)
    ensures
        r == is_repo_dir(*fs, p@),
{
    if !fs.is_dir(p) {
        return false;
    }
    let mut marker: Vec<u8> = Vec::new();
    marker.push(46u8);
    marker.push(103u8);
    marker.push(105u8);
    marker.push(116u8);
    proof {
        assert(marker@ =~= repo_marker());
    }
    let probe = join(p, &marker);
    fs.contains(&probe)
}

/// Whether some element of `vs` views as `x`.
pub open spec fn in_views(vs: Seq<Vec<u8>>, x: Seq<u8>) -> bool {
    exists|v: int| 0 <= v < vs.len() && #[trigger] vs[v]@ == x
}

/// The (path, kind) pairs of a run of leaves.
pub open spec fn leaf_views(out: Seq<LeafEntry>) -> Seq<(Seq<u8>, PathType)> {
    out.map_values(|l: LeafEntry| (l.absolute_path@, l.kind))
}

/// Some pair of `lv` emits `p` with kind `kind`.
pub open spec fn emitted(lv: Seq<(Seq<u8>, PathType)>, p: Seq<u8>, kind: PathType) -> bool {
    exists|a: int| 0 <= a < lv.len() && #[trigger] lv[a] == (p, kind)
}

/// `p` is accounted for by the walk: emitted as the unit or file it is, or,
/// being a plain directory, a member of the descended set `ds`.
pub open spec fn leaf_covered(
    m: FsModel,
    lv: Seq<(Seq<u8>, PathType)>,
    ds: Set<Seq<u8>>,
    p: Seq<u8>,
) -> bool {
    if is_repo_dir(m, p) {
        emitted(lv, p, PathType::GitRepo)
    } else if m.dir_at(p) {
        ds.contains(p)
    } else {
        emitted(lv, p, PathType::File)
    }
}

/// `ds` holds only plain directories, and every child of each of them is
/// accounted for in turn: the closure that makes a walk complete.
pub open spec fn descent_closed(
    m: FsModel,
    lv: Seq<(Seq<u8>, PathType)>,
    ds: Set<Seq<u8>>,
) -> bool {
    forall|p: Seq<u8>| #[trigger]
        ds.contains(p) ==> m.dir_at(p) && !is_repo_dir(m, p) && (forall|c: Seq<u8>|
            m.has(c) && #[trigger] parent_spec(c) == Some(p) ==> leaf_covered(m, lv, ds, c))
}

spec fn covered_or_pending(
    m: FsModel,
    lv: Seq<(Seq<u8>, PathType)>,
    ds: Set<Seq<u8>>,
    stack: Seq<Vec<u8>>,
    p: Seq<u8>,
) -> bool {
    leaf_covered(m, lv, ds, p) || in_views(stack, p)
}

proof fn lemma_in_views_extend(vs1: Seq<Vec<u8>>, vs2: Seq<Vec<u8>>, x: Seq<u8>)
    requires
        in_views(vs1, x),
        vs1.len() <= vs2.len(),
        forall|a: int| 0 <= a < vs1.len() ==> vs2[a] == vs1[a],
    ensures
        in_views(vs2, x),
{
    let v = choose|v: int| 0 <= v < vs1.len() && #[trigger] vs1[v]@ == x;
    assert(vs2[v]@ == x);
}

proof fn lemma_covered_grow(
    m: FsModel,
    lv1: Seq<(Seq<u8>, PathType)>,
    lv2: Seq<(Seq<u8>, PathType)>,
    ds1: Set<Seq<u8>>,
    ds2: Set<Seq<u8>>,
    p: Seq<u8>,
)
    requires
        leaf_covered(m, lv1, ds1, p),
        lv1.len() <= lv2.len(),
        forall|a: int| 0 <= a < lv1.len() ==> lv2[a] == lv1[a],
        forall|x: Seq<u8>| ds1.contains(x) ==> ds2.contains(x),
    ensures
        leaf_covered(m, lv2, ds2, p),
{
    if is_repo_dir(m, p) {
        let a = choose|a: int| 0 <= a < lv1.len() && #[trigger] lv1[a] == (p, PathType::GitRepo);
        assert(lv2[a] == (p, PathType::GitRepo));
    } else if m.dir_at(p) {
    } else {
        let a = choose|a: int| 0 <= a < lv1.len() && #[trigger] lv1[a] == (p, PathType::File);
        assert(lv2[a] == (p, PathType::File));
    }
}

/// No requested path resolves into the interior of a version-control unit.
pub open spec fn requests_avoid_repo_interiors(m: FsModel, ps: Seq<Seq<u8>>) -> bool {
    forall|i: int, d: Seq<u8>|
        0 <= i < ps.len() && is_repo_dir(m, d) && resolve_spec(
            m,
            ps[i],
            LINK_CHASE_LIMIT as nat,
        ) is Some ==> !#[trigger] strictly_under(
            resolve_spec(m, ps[i], LINK_CHASE_LIMIT as nat).unwrap(),
            d,
        )
}

fn contains_path(vs: &Vec<Vec<u8>>, p: &Vec<u8>) -> (r: bool)
    ensures
        r == in_views(vs@, p@),
{
    let n = vs.len();
    let mut i: usize = 0;
    while i < n
        invariant
            n == vs@.len(),
            i <= n,
            forall|a: int| 0 <= a < i ==> #[trigger] vs@[a]@ != p@,
        decreases n - i,
    {
        if eq_bytes(&vs[i], p) {
            return true;
        }
        i = i + 1;
    }
    false
}

/// Expand the requested paths into leaf entries.
///
/// Each requested path is resolved and the resulting trees are walked with a
/// worklist: a version-controlled directory becomes a single `GitRepo` leaf
/// (never descended into), any other directory is expanded into its
/// children, anything else becomes a `File` leaf. A path missing altogether
/// fails the whole call with `PathNotFound`. No path is emitted twice; and
/// as long as no request reaches inside a version-control unit, no emitted
/// leaf lies strictly under an emitted `GitRepo` leaf.
///
/// The walk is also complete: some descended set of plain directories is
/// closed under children, and every resolved request is accounted for by it
/// — so every reachable unit or file appears in the output (with the
/// distinctness clause, a unit appears exactly once).
pub fn flatten_paths_to_add(fs: &FsModel, paths: &Vec<Vec<u8>>) -> (r: Result<
    Vec<LeafEntry>,
    ClassifyError,
>)
    ensures
        (exists|i: int|
            0 <= i < paths@.len() && resolve_spec(
                *fs,
                #[trigger] paths@[i]@,
                LINK_CHASE_LIMIT as nat,
            ) is None) <==> r == Result::<Vec<LeafEntry>, ClassifyError>::Err(
            ClassifyError::PathNotFound,
        ),
        r matches Ok(out) ==> {
            &&& forall|a: int|
                0 <= a < out@.len() && out@[a].kind == PathType::GitRepo ==> is_repo_dir(
                    *fs,
                    #[trigger] out@[a].absolute_path@,
                )
            &&& forall|a: int|
                0 <= a < out@.len() && out@[a].kind == PathType::File ==> fs.has(
                    #[trigger] out@[a].absolute_path@,
                ) && !fs.dir_at(out@[a].absolute_path@)
            &&& forall|a: int, b: int|
                0 <= a < b < out@.len() ==> out@[a].absolute_path@ != out@[b].absolute_path@
            &&& requests_avoid_repo_interiors(*fs, views_of(paths@)) ==> forall|a: int, b: int|
                0 <= a < out@.len() && 0 <= b < out@.len() && out@[a].kind == PathType::GitRepo
                    && a != b ==> !strictly_under(
                    #[trigger] out@[b].absolute_path@,
                    #[trigger] out@[a].absolute_path@,
                )
            &&& exists|ds: Set<Seq<u8>>|
                descent_closed(*fs, leaf_views(out@), ds) && (forall|i: int|
                    0 <= i < paths@.len() ==> leaf_covered(
                        *fs,
                        leaf_views(out@),
                        ds,
                        resolve_spec(*fs, #[trigger] paths@[i]@, LINK_CHASE_LIMIT as nat).unwrap(),
                    ))
        },
{
    let ghost avoid = requests_avoid_repo_interiors(*fs, views_of(paths@));
    let n = paths.len();
    let mut stack: Vec<Vec<u8>> = Vec::new();
    let mut i: usize = 0;
    while i < n
        invariant
            n == paths@.len(),
            i <= n,
            avoid == requests_avoid_repo_interiors(*fs, views_of(paths@)),
            forall|j: int|
                0 <= j < i ==> resolve_spec(
                    *fs,
                    #[trigger] paths@[j]@,
                    LINK_CHASE_LIMIT as nat,
                ) is Some,
            forall|a: int| 0 <= a < stack@.len() ==> fs.has(#[trigger] stack@[a]@),
            forall|j: int|
                0 <= j < i ==> in_views(
                    stack@,
                    resolve_spec(*fs, #[trigger] paths@[j]@, LINK_CHASE_LIMIT as nat).unwrap(),
                ),
            avoid ==> forall|a: int, d: Seq<u8>|
                0 <= a < stack@.len() && is_repo_dir(*fs, d) ==> !#[trigger] strictly_under(
                    stack@[a]@,
                    d,
                ),
        decreases n - i,
    {
        match resolve(fs, &paths[i]) {
            Some(c) => {
                proof {
                    lemma_resolve_exists(*fs, paths@[i as int]@, LINK_CHASE_LIMIT as nat);
                    assert(views_of(paths@)[i as int] == paths@[i as int]@);
                }
                let ghost st0 = stack@;
                stack.push(c);
                proof {
                    assert(stack@[st0.len() as int]@ == c@);
                    assert forall|j: int| 0 <= j < i + 1 implies in_views(
                        stack@,
                        resolve_spec(*fs, #[trigger] paths@[j]@, LINK_CHASE_LIMIT as nat).unwrap(),
                    ) by {
                        if j < i {
                            lemma_in_views_extend(
                                st0,
                                stack@,
                                resolve_spec(
                                    *fs,
                                    paths@[j]@,
                                    LINK_CHASE_LIMIT as nat,
                                ).unwrap(),
                            );
                        }
                    }
                }
            },
            None => {
                return Err(ClassifyError::PathNotFound);
            },
        }
        i = i + 1;
    }
    let mut visited: Vec<Vec<u8>> = Vec::new();
    let mut out: Vec<LeafEntry> = Vec::new();
    let ghost mut ds: Set<Seq<u8>> = Set::empty();
    while stack.len() > 0
        invariant
            avoid == requests_avoid_repo_interiors(*fs, views_of(paths@)),
            forall|p: Seq<u8>| #[trigger]
                ds.contains(p) ==> fs.dir_at(p) && !is_repo_dir(*fs, p) && (forall|c: Seq<u8>|
                    fs.has(c) && #[trigger] parent_spec(c) == Some(p) ==> covered_or_pending(
                        *fs,
                        leaf_views(out@),
                        ds,
                        stack@,
                        c,
                    )),
            forall|a: int|
                0 <= a < visited@.len() ==> leaf_covered(
                    *fs,
                    leaf_views(out@),
                    ds,
                    #[trigger] visited@[a]@,
                ),
            forall|i: int|
                0 <= i < paths@.len() ==> covered_or_pending(
                    *fs,
                    leaf_views(out@),
                    ds,
                    stack@,
                    resolve_spec(*fs, #[trigger] paths@[i]@, LINK_CHASE_LIMIT as nat).unwrap(),
                ),
            forall|a: int| 0 <= a < stack@.len() ==> fs.has(#[trigger] stack@[a]@),
            forall|a: int| 0 <= a < visited@.len() ==> fs.has(#[trigger] visited@[a]@),
            forall|a: int, b: int|
                0 <= a < b < visited@.len() ==> visited@[a]@ != visited@[b]@,
            visited@.len() <= fs.entries@.len(),
            forall|a: int|
                0 <= a < out@.len() && out@[a].kind == PathType::GitRepo ==> is_repo_dir(
                    *fs,
                    #[trigger] out@[a].absolute_path@,
                ),
            forall|a: int|
                0 <= a < out@.len() && out@[a].kind == PathType::File ==> fs.has(
                    #[trigger] out@[a].absolute_path@,
                ) && !fs.dir_at(out@[a].absolute_path@),
            forall|a: int|
                0 <= a < out@.len() ==> in_views(visited@, #[trigger] out@[a].absolute_path@),
            forall|a: int, b: int|
                0 <= a < b < out@.len() ==> out@[a].absolute_path@ != out@[b].absolute_path@,
            avoid ==> forall|a: int, d: Seq<u8>|
                0 <= a < stack@.len() && is_repo_dir(*fs, d) ==> !#[trigger] strictly_under(
                    stack@[a]@,
                    d,
                ),
            avoid ==> forall|a: int, d: Seq<u8>|
                0 <= a < out@.len() && is_repo_dir(*fs, d) ==> !#[trigger] strictly_under(
                    out@[a].absolute_path@,
                    d,
                ),
        decreases fs.entries@.len() - visited@.len(), stack@.len(),
    {
        let ghost stack0 = stack@;
        let p = match stack.pop() {
            Some(p) => p,
            None => {
                proof {
                    assert(false);
                }
                return Err(ClassifyError::PathNotFound);
            },
        };
        let ghost lv0 = leaf_views(out@);
        let ghost ds0 = ds;
        let ghost vis0 = visited@;
        proof {
            assert(p@ == stack0[stack0.len() - 1]@);
            assert(fs.has(p@));
        }
        let skipped = contains_path(&visited, &p);
        if !skipped {
            let ghost v0 = visited@;
            let copy = p.clone();
            proof {
                assert(copy@ =~= p@);
            }
            visited.push(copy);
            proof {
                lemma_visited_bound(fs.entries@, visited@.map_values(|v: Vec<u8>| v@));
                assert forall|a: int|
                    0 <= a < out@.len() implies in_views(
                    visited@,
                    #[trigger] out@[a].absolute_path@,
                ) by {
                    let v = choose|v: int|
                        0 <= v < v0.len() && #[trigger] v0[v]@ == out@[a].absolute_path@;
                    assert(visited@[v]@ == out@[a].absolute_path@);
                }
            }
            if fs.is_dir(&p) {
                if is_repo_unit(fs, &p) {
                    let ghost o0 = out@;
                    out.push(LeafEntry { absolute_path: p, kind: PathType::GitRepo });
                    proof {
                        assert(leaf_views(out@)[out@.len() - 1] == (
                            out@.last().absolute_path@,
                            PathType::GitRepo,
                        ));
                        assert(emitted(leaf_views(out@), out@.last().absolute_path@, PathType::GitRepo));
                        assert(leaf_covered(*fs, leaf_views(out@), ds, out@.last().absolute_path@));
                        assert forall|a: int| 0 <= a < out@.len() - 1 implies out@[a].absolute_path@
                            != out@.last().absolute_path@ by {
                            let v = choose|v: int|
                                0 <= v < v0.len() && #[trigger] v0[v]@ == o0[a].absolute_path@;
                            assert(visited@[v]@ == o0[a].absolute_path@);
                        }
                        assert forall|a: int|
                            0 <= a < out@.len() implies in_views(
                            visited@,
                            #[trigger] out@[a].absolute_path@,
                        ) by {
                            if a < out@.len() - 1 {
                                let v = choose|v: int|
                                    0 <= v < v0.len() && #[trigger] v0[v]@ == o0[a].absolute_path@;
                                assert(visited@[v]@ == out@[a].absolute_path@);
                            } else {
                                assert(visited@[visited@.len() - 1]@ == out@[a].absolute_path@);
                            }
                        }
                    }
                } else {
                    match read_dir(fs, &p) {
                        Some(mut children) => {
                            let ghost ch = children@;
                            let ghost mid = stack@;
                            proof {
                                ds = ds.insert(p@);
                            }
                            stack.append(&mut children);
                            proof {
                                assert(stack@ == mid + ch);
                                assert(leaf_covered(*fs, leaf_views(out@), ds, p@));
                                assert forall|c: Seq<u8>|
                                    fs.has(c) && #[trigger] parent_spec(c) == Some(p@)
                                    implies in_views(stack@, c) by {
                                    let a = choose|a: int|
                                        0 <= a < ch.len() && #[trigger] ch[a]@ == c;
                                    assert(stack@[mid.len() + a]@ == c);
                                }
                                if avoid {
                                    assert forall|a: int, d: Seq<u8>|
                                        0 <= a < stack@.len() && is_repo_dir(*fs, d)
                                            implies !#[trigger] strictly_under(
                                            stack@[a]@,
                                            d,
                                        ) by {
                                        if a >= stack@.len() - ch.len() {
                                            let c = stack@[a]@;
                                            assert(c == ch[a - (stack@.len() - ch.len())]@);
                                            assert(parent_spec(c) == Some(p@));
                                            if strictly_under(c, d) {
                                                if d == p@ {
                                                    assert(!is_repo_dir(*fs, p@));
                                                } else {
                                                    lemma_under_parent(c, p@, d);
                                                    assert(strictly_under(p@, d));
                                                    assert(!strictly_under(stack0[stack0.len() - 1]@, d));
                                                }
                                            }
                                        } else {
                                            assert(stack@[a]@ == stack0[a]@);
                                        }
                                    }
                                }
                            }
                        },
                        None => {
                            proof {
                                assert(false);
                            }
                            return Err(ClassifyError::PathNotFound);
                        },
                    }
                }
            } else {
                let ghost o0 = out@;
                out.push(LeafEntry { absolute_path: p, kind: PathType::File });
                proof {
                    assert(leaf_views(out@)[out@.len() - 1] == (
                        out@.last().absolute_path@,
                        PathType::File,
                    ));
                    assert(emitted(leaf_views(out@), out@.last().absolute_path@, PathType::File));
                    assert(!is_repo_dir(*fs, out@.last().absolute_path@));
                    assert(leaf_covered(*fs, leaf_views(out@), ds, out@.last().absolute_path@));
                    assert forall|a: int| 0 <= a < out@.len() - 1 implies out@[a].absolute_path@
                        != out@.last().absolute_path@ by {
                        let v = choose|v: int|
                            0 <= v < v0.len() && #[trigger] v0[v]@ == o0[a].absolute_path@;
                        assert(visited@[v]@ == o0[a].absolute_path@);
                    }
                    assert forall|a: int|
                        0 <= a < out@.len() implies in_views(
                        visited@,
                        #[trigger] out@[a].absolute_path@,
                    ) by {
                        if a < out@.len() - 1 {
                            let v = choose|v: int|
                                0 <= v < v0.len() && #[trigger] v0[v]@ == o0[a].absolute_path@;
                            assert(visited@[v]@ == out@[a].absolute_path@);
                        } else {
                            assert(visited@[visited@.len() - 1]@ == out@[a].absolute_path@);
                        }
                    }
                }
            }
        }
        proof {
            assert(leaf_covered(*fs, leaf_views(out@), ds, p@)) by {
                if skipped {
                    let v = choose|v: int| 0 <= v < vis0.len() && #[trigger] vis0[v]@ == p@;
                    assert(leaf_covered(*fs, lv0, ds0, vis0[v]@));
                }
            }
            assert forall|q: Seq<u8>| covered_or_pending(*fs, lv0, ds0, stack0, q)
                implies covered_or_pending(*fs, leaf_views(out@), ds, stack@, q) by {
                if leaf_covered(*fs, lv0, ds0, q) {
                    lemma_covered_grow(*fs, lv0, leaf_views(out@), ds0, ds, q);
                } else {
                    let v = choose|v: int| 0 <= v < stack0.len() && #[trigger] stack0[v]@ == q;
                    if v < stack0.len() - 1 {
                        assert(stack@[v]@ == q);
                    } else {
                        assert(q == p@);
                    }
                }
            }
            assert forall|pd: Seq<u8>| #[trigger]
                ds.contains(pd) implies fs.dir_at(pd) && !is_repo_dir(*fs, pd) && (forall|
                c: Seq<u8>,
            |
                fs.has(c) && #[trigger] parent_spec(c) == Some(pd) ==> covered_or_pending(
                    *fs,
                    leaf_views(out@),
                    ds,
                    stack@,
                    c,
                )) by {
                if ds0.contains(pd) {
                    assert forall|c: Seq<u8>|
                        fs.has(c) && #[trigger] parent_spec(c) == Some(pd)
                        implies covered_or_pending(*fs, leaf_views(out@), ds, stack@, c) by {
                        assert(covered_or_pending(*fs, lv0, ds0, stack0, c));
                    }
                } else {
                    assert(pd == p@);
                }
            }
            assert forall|a: int|
                0 <= a < visited@.len() implies leaf_covered(
                *fs,
                leaf_views(out@),
                ds,
                #[trigger] visited@[a]@,
            ) by {
                if a < vis0.len() {
                    assert(visited@[a] == vis0[a]);
                    lemma_covered_grow(*fs, lv0, leaf_views(out@), ds0, ds, vis0[a]@);
                } else {
                    assert(visited@[a]@ == p@);
                }
            }
            assert forall|i: int|
                0 <= i < paths@.len() implies covered_or_pending(
                *fs,
                leaf_views(out@),
                ds,
                stack@,
                resolve_spec(*fs, #[trigger] paths@[i]@, LINK_CHASE_LIMIT as nat).unwrap(),
            ) by {
                assert(covered_or_pending(
                    *fs,
                    lv0,
                    ds0,
                    stack0,
                    resolve_spec(*fs, paths@[i]@, LINK_CHASE_LIMIT as nat).unwrap(),
                ));
            }
        }
    }
    proof {
        assert(descent_closed(*fs, leaf_views(out@), ds)) by {
            assert forall|pd: Seq<u8>| #[trigger]
                ds.contains(pd) implies fs.dir_at(pd) && !is_repo_dir(*fs, pd) && (forall|
                c: Seq<u8>,
            |
                fs.has(c) && #[trigger] parent_spec(c) == Some(pd) ==> leaf_covered(
                    *fs,
                    leaf_views(out@),
                    ds,
                    c,
                )) by {
                assert forall|c: Seq<u8>|
                    fs.has(c) && #[trigger] parent_spec(c) == Some(pd) implies leaf_covered(
                    *fs,
                    leaf_views(out@),
                    ds,
                    c,
                ) by {
                    assert(covered_or_pending(*fs, leaf_views(out@), ds, stack@, c));
                    assert(!in_views(stack@, c));
                }
            }
        }
        assert forall|i: int|
            0 <= i < paths@.len() implies leaf_covered(
            *fs,
            leaf_views(out@),
            ds,
            resolve_spec(*fs, #[trigger] paths@[i]@, LINK_CHASE_LIMIT as nat).unwrap(),
        ) by {
            assert(covered_or_pending(
                *fs,
                leaf_views(out@),
                ds,
                stack@,
                resolve_spec(*fs, paths@[i]@, LINK_CHASE_LIMIT as nat).unwrap(),
            ));
            assert(!in_views(
                stack@,
                resolve_spec(*fs, paths@[i]@, LINK_CHASE_LIMIT as nat).unwrap(),
            ));
        }
        if avoid {
            assert forall|a: int, b: int|
                0 <= a < out@.len() && 0 <= b < out@.len() && out@[a].kind == PathType::GitRepo
                    && a != b implies !strictly_under(
                #[trigger] out@[b].absolute_path@,
                #[trigger] out@[a].absolute_path@,
            ) by {
                assert(is_repo_dir(*fs, out@[a].absolute_path@));
            }
        }
    }
    Ok(out)
}

} // verus!
