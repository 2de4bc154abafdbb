//! Batch operations: adding a set of paths to the store and restoring the
//! store back to the root.
//!
//! Both run their leaf entries sequentially and best-effort: a failing leaf
//! is recorded and skipped, the batch continues, and the caller receives the
//! per-leaf outcomes rather than one aggregate failure. Version-control work
//! (staging, committing, syncing) belongs to the surrounding program and
//! happens only after these filesystem steps are done.

use crate::classify::{
    descent_closed, flatten_paths_to_add, in_views, is_repo_dir, leaf_covered, leaf_views,
    repo_marker, requests_avoid_repo_interiors, ClassifyError, PathType,
};
use crate::engine::{
    already_linked, committed, move_to_dotty_repo, opt_path_view, restore as restore_entry,
    restore_model, MoveToRepoError, RestoreError,
};
use crate::fs_model::{parents_ok, read_dir, FsModel, NodeView};
use crate::paths::{
    eq_bytes, is_root, join, join_spec, parent_spec, rel_spec, relative_from_root, strictly_under,
    views_of, PathError,
};
use crate::resolver::{resolve_spec, LINK_CHASE_LIMIT};
use crate::scratch::{
    create_overwrite_temp_dir, is_alnum_byte, release_overwrite_temp_dir, OverwriteTempDir,
    ScratchError, SCRATCH_SUFFIX_LEN,
};
use vstd::prelude::*;

verus! {

/// What happened to one leaf during a batch add.
#[derive(Debug, PartialEq, Eq)]
pub struct AddOutcome {
    /// The leaf's absolute path.
    pub path: Vec<u8>,
    /// The leaf's kind, as the classifier tagged it.
    pub kind: PathType,
    /// `Ok(Some(rel))` after a fresh move, `Ok(None)` for an idempotent
    /// re-add, or why the leaf was skipped.
    pub result: Result<Option<Vec<u8>>, MoveToRepoError>,
}

/// What a batch add hands back for the version-control step.
#[derive(Debug, PartialEq, Eq)]
pub struct AddReport {
    /// The relative paths freshly moved into the store, in leaf order:
    /// exactly what is to be staged.
    pub to_commit: Vec<Vec<u8>>,
    /// The freshly moved leaves that are version-control units of their
    /// own, to be registered as sub-units.
    pub submodules: Vec<Vec<u8>>,
    /// One outcome per leaf, in processing order.
    pub outcomes: Vec<AddOutcome>,
}

/// The (path, kind) pairs of a run of add outcomes.
pub open spec fn outcome_views(ocs: Seq<AddOutcome>) -> Seq<(Seq<u8>, PathType)> {
    ocs.map_values(|oc: AddOutcome| (oc.path@, oc.kind))
}

/// The relative paths of the freshly moved leaves, in outcome order.
pub open spec fn moved_rels(ocs: Seq<AddOutcome>) -> Seq<Seq<u8>>
    decreases ocs.len(),
{
    if ocs.len() == 0 {
        Seq::empty()
    } else {
        let rest = moved_rels(ocs.drop_last());
        match ocs.last().result {
            Ok(Some(q)) => rest.push(q@),
            _ => rest,
        }
    }
}

/// The relative paths of the freshly moved version-control units, in
/// outcome order.
pub open spec fn moved_repo_rels(ocs: Seq<AddOutcome>) -> Seq<Seq<u8>>
    decreases ocs.len(),
{
    if ocs.len() == 0 {
        Seq::empty()
    } else {
        let rest = moved_repo_rels(ocs.drop_last());
        match ocs.last().result {
            Ok(Some(q)) => {
                if ocs.last().kind == PathType::GitRepo {
                    rest.push(q@)
                } else {
                    rest
                }
            },
            _ => rest,
        }
    }
}

/// One leaf's step of a batch add: the outcome and the state after relate
/// to the state before exactly as `move_to_dotty_repo` promises.
pub open spec fn add_step(
    m0: FsModel,
    m1: FsModel,
    repo: Seq<u8>,
    root: Seq<u8>,
    oc: AddOutcome,
) -> bool {
    let path = oc.path@;
    let rel = rel_spec(root, path);
    let to = join_spec(repo, rel);
    &&& m1.inv()
    &&& ((path == root || (strictly_under(path, root) && rel.len() == 0)) ==> oc.result
        == Result::<Option<Vec<u8>>, MoveToRepoError>::Err(MoveToRepoError::Path(
        PathError::EmptyRelative,
    )))
    &&& (path != root && !strictly_under(path, root) ==> oc.result == Result::<
        Option<Vec<u8>>,
        MoveToRepoError,
    >::Err(MoveToRepoError::Path(PathError::NotUnderRoot)))
    &&& (strictly_under(path, root) && rel.len() > 0 ==> {
        &&& (oc.result == Ok::<Option<Vec<u8>>, MoveToRepoError>(None) <==> m0.has(to)
            && already_linked(m0, path, to))
        &&& (oc.result == Err::<Option<Vec<u8>>, MoveToRepoError>(MoveToRepoError::Engine(
            crate::engine::EngineError::Conflict,
        )) <==> m0.has(to) && !already_linked(m0, path, to))
        &&& (oc.result == Err::<Option<Vec<u8>>, MoveToRepoError>(MoveToRepoError::Engine(
            crate::engine::EngineError::MoveError,
        )) <==> !m0.has(to) && (!m0.has(path) || !parents_ok(m0, to)))
        &&& ((oc.result matches Ok(o) && o is Some) <==> !m0.has(to) && m0.has(path)
            && parents_ok(m0, to))
        &&& (oc.result matches Ok(Some(q)) ==> q@ == rel)
        &&& (oc.result matches Ok(Some(q)) ==> forall|k: Seq<u8>|
            #[trigger] m1.node_at(k) == committed(m0, path, to)(k))
    })
    &&& (!(oc.result matches Ok(o) && o is Some) ==> m1.entries@ == m0.entries@)
}

/// Move every leaf under the requested `paths` into the store at `repo`,
/// keyed relative to `root`, replacing each original with a link.
///
/// Fails as a whole only when a requested path cannot be resolved; a leaf
/// that cannot be moved is recorded and skipped. The outcomes are one per
/// classifier leaf, in order — they carry the classifier's guarantees
/// (sound kinds, completeness, no duplicates) — and the filesystem evolves
/// through them as a chain of `move_to_dotty_repo` steps; `to_commit` and
/// `submodules` hold exactly the freshly moved relative paths and the
/// freshly moved version-control units, in that order.
pub fn add(fs: &mut FsModel, repo: &Vec<u8>, root: &Vec<u8>, paths: &Vec<Vec<u8>>) -> (r: Result<
    AddReport,
    ClassifyError,
>)
    requires
        old(fs).inv(),
        repo@.len() > 0,
    ensures
        final(fs).inv(),
        r matches Err(_) ==> final(fs).entries@ == old(fs).entries@,
        (exists|i: int|
            0 <= i < paths@.len() && resolve_spec(
                *old(fs),
                #[trigger] paths@[i]@,
                LINK_CHASE_LIMIT as nat,
            ) is None) <==> r == Result::<AddReport, ClassifyError>::Err(
            ClassifyError::PathNotFound,
        ),
        r matches Ok(rep) ==> {
            &&& views_of(rep.to_commit@) == moved_rels(rep.outcomes@)
            &&& views_of(rep.submodules@) == moved_repo_rels(rep.outcomes@)
            &&& (exists|ms: Seq<FsModel>|
                ms.len() == rep.outcomes@.len() + 1 && ms[0] == *old(fs) && ms[ms.len() - 1]
                    == *final(fs) && (forall|j: int|
                    0 <= j < rep.outcomes@.len() ==> add_step(
                        ms[j],
                        ms[j + 1],
                        repo@,
                        root@,
                        #[trigger] rep.outcomes@[j],
                    )))
            &&& forall|a: int|
                0 <= a < rep.outcomes@.len() && rep.outcomes@[a].kind == PathType::GitRepo
                    ==> is_repo_dir(*old(fs), #[trigger] rep.outcomes@[a].path@)
            &&& forall|a: int|
                0 <= a < rep.outcomes@.len() && rep.outcomes@[a].kind == PathType::File ==> old(
                    fs,
                ).has(#[trigger] rep.outcomes@[a].path@) && !old(fs).dir_at(
                    rep.outcomes@[a].path@,
                )
            &&& forall|a: int, b: int|
                0 <= a < b < rep.outcomes@.len() ==> rep.outcomes@[a].path@
                    != rep.outcomes@[b].path@
            &&& (exists|ds: Set<Seq<u8>>|
                descent_closed(*old(fs), outcome_views(rep.outcomes@), ds) && (forall|i: int|
                    0 <= i < paths@.len() ==> leaf_covered(
                        *old(fs),
                        outcome_views(rep.outcomes@),
                        ds,
                        resolve_spec(
                            *old(fs),
                            #[trigger] paths@[i]@,
                            LINK_CHASE_LIMIT as nat,
                        ).unwrap(),
                    )))
            &&& (requests_avoid_repo_interiors(*old(fs), views_of(paths@)) ==> forall|
                a: int,
                b: int,
            |
                0 <= a < rep.outcomes@.len() && 0 <= b < rep.outcomes@.len()
                    && rep.outcomes@[a].kind == PathType::GitRepo && a != b ==> !strictly_under(
                    #[trigger] rep.outcomes@[b].path@,
                    #[trigger] rep.outcomes@[a].path@,
                ))
        },
{
    let leaves = match flatten_paths_to_add(fs, paths) {
        Ok(leaves) => leaves,
        Err(e) => {
            return Err(e);
        },
    };
    let n = leaves.len();
    let mut to_commit: Vec<Vec<u8>> = Vec::new();
    let mut submodules: Vec<Vec<u8>> = Vec::new();
    let mut outcomes: Vec<AddOutcome> = Vec::new();
    let ghost mut ms: Seq<FsModel> = seq![*fs];
    let mut i: usize = 0;
    while i < n
        invariant
            fs.inv(),
            repo@.len() > 0,
            n == leaves@.len(),
            i <= n,
            outcomes@.len() == i,
            ms.len() == i + 1,
            ms[0] == *old(fs),
            ms[ms.len() - 1] == *fs,
            forall|j: int|
                0 <= j < outcomes@.len() ==> add_step(
                    ms[j],
                    ms[j + 1],
                    repo@,
                    root@,
                    #[trigger] outcomes@[j],
                ),
            views_of(to_commit@) == moved_rels(outcomes@),
            views_of(submodules@) == moved_repo_rels(outcomes@),
            forall|a: int|
                0 <= a < i ==> #[trigger] outcomes@[a].path@ == leaves@[a].absolute_path@
                    && outcomes@[a].kind == leaves@[a].kind,
        decreases n - i,
    {
        let leaf = &leaves[i];
        let path = leaf.absolute_path.clone();
        let kind = leaf.kind;
        proof {
            assert(path@ =~= leaves@[i as int].absolute_path@);
        }
        let ghost m_pre = *fs;
        let ghost oc0 = outcomes@;
        let ghost tc0 = to_commit@;
        let ghost sm0 = submodules@;
        let result = move_to_dotty_repo(fs, repo, root, &path);
        let moved_now = matches!(&result, Ok(Some(_)));
        let repo_unit_now = moved_now && matches!(leaf.kind, PathType::GitRepo);
        match &result {
            Ok(Some(rel)) => {
                let stored = rel.clone();
                proof {
                    assert(stored@ =~= rel@);
                    assert(result matches Ok(Some(q)) && q@ == stored@);
                }
                if repo_unit_now {
                    let sub = rel.clone();
                    proof {
                        assert(sub@ =~= rel@);
                    }
                    submodules.push(sub);
                }
                to_commit.push(stored);
            },
            _ => {
            },
        }
        outcomes.push(AddOutcome { path, kind, result });
        proof {
            ms = ms.push(*fs);
            let oc = outcomes@.last();
            assert(outcomes@.drop_last() =~= oc0);
            assert(add_step(m_pre, *fs, repo@, root@, oc));
            assert forall|j: int| 0 <= j < outcomes@.len() implies add_step(
                ms[j],
                ms[j + 1],
                repo@,
                root@,
                #[trigger] outcomes@[j],
            ) by {
                if j < outcomes@.len() - 1 {
                    assert(outcomes@[j] == oc0[j]);
                }
            }
            if moved_now {
                assert(to_commit@.drop_last() =~= tc0);
                assert(views_of(to_commit@) =~= views_of(tc0).push(to_commit@.last()@));
                assert(moved_rels(outcomes@) == moved_rels(oc0).push(
                    to_commit@.last()@,
                ));
                if repo_unit_now {
                    assert(submodules@.drop_last() =~= sm0);
                    assert(views_of(submodules@) =~= views_of(sm0).push(submodules@.last()@));
                    assert(moved_repo_rels(outcomes@) == moved_repo_rels(oc0).push(
                        submodules@.last()@,
                    ));
                } else {
                    assert(moved_repo_rels(outcomes@) == moved_repo_rels(oc0));
                }
            } else {
                assert(moved_rels(outcomes@) == moved_rels(oc0));
                assert(moved_repo_rels(outcomes@) == moved_repo_rels(oc0));
            }
            assert(views_of(to_commit@) == moved_rels(outcomes@));
            assert(views_of(submodules@) == moved_repo_rels(outcomes@));
        }
        i = i + 1;
    }
    proof {
        assert(leaf_views(leaves@) =~= outcome_views(outcomes@));
        let dsw = choose|ds: Set<Seq<u8>>|
            descent_closed(*old(fs), leaf_views(leaves@), ds) && (forall|i: int|
                0 <= i < paths@.len() ==> leaf_covered(
                    *old(fs),
                    leaf_views(leaves@),
                    ds,
                    resolve_spec(*old(fs), #[trigger] paths@[i]@, LINK_CHASE_LIMIT as nat).unwrap(),
                ));
        assert(descent_closed(*old(fs), outcome_views(outcomes@), dsw));
        assert(forall|i: int|
            0 <= i < paths@.len() ==> leaf_covered(
                *old(fs),
                outcome_views(outcomes@),
                dsw,
                resolve_spec(*old(fs), #[trigger] paths@[i]@, LINK_CHASE_LIMIT as nat).unwrap(),
            ));
        assert forall|a: int|
            0 <= a < outcomes@.len() && outcomes@[a].kind == PathType::GitRepo
            implies is_repo_dir(*old(fs), #[trigger] outcomes@[a].path@) by {
            assert(leaves@[a].kind == PathType::GitRepo);
            assert(is_repo_dir(*old(fs), leaves@[a].absolute_path@));
        }
        assert forall|a: int|
            0 <= a < outcomes@.len() && outcomes@[a].kind == PathType::File implies old(fs).has(
            #[trigger] outcomes@[a].path@,
        ) && !old(fs).dir_at(outcomes@[a].path@) by {
            assert(leaves@[a].kind == PathType::File);
            assert(old(fs).has(leaves@[a].absolute_path@));
        }
        if requests_avoid_repo_interiors(*old(fs), views_of(paths@)) {
            assert forall|a: int, b: int|
                0 <= a < outcomes@.len() && 0 <= b < outcomes@.len() && outcomes@[a].kind
                    == PathType::GitRepo && a != b implies !strictly_under(
                #[trigger] outcomes@[b].path@,
                #[trigger] outcomes@[a].path@,
            ) by {
                assert(leaves@[a].kind == PathType::GitRepo);
                assert(!strictly_under(
                    leaves@[b].absolute_path@,
                    leaves@[a].absolute_path@,
                ));
            }
        }
        assert(ms.len() == outcomes@.len() + 1 && ms[0] == *old(fs) && ms[ms.len() - 1] == *fs
            && (forall|j: int|
            0 <= j < outcomes@.len() ==> add_step(
                ms[j],
                ms[j + 1],
                repo@,
                root@,
                #[trigger] outcomes@[j],
            )));
    }
    Ok(AddReport { to_commit, submodules, outcomes })
}

/// Why a batch restore could not start.
#[derive(Clone, Copy, Debug, PartialEq, Eq, Structural)]
pub enum RestoreCmdError {
    /// The store root could not be listed.
    StoreUnreadable,
    /// A store entry vanished while being enumerated.
    Classify(ClassifyError),
    /// The scratch area could not be created.
    Scratch(ScratchError),
}

/// Why one entry of a batch restore failed.
#[derive(Clone, Copy, Debug, PartialEq, Eq, Structural)]
pub enum RestoreEntryError {
    /// The store entry could not be keyed against the store root.
    Path(PathError),
    /// The engine refused or failed the restore.
    Restore(RestoreError),
}

/// What happened to one store entry during a batch restore.
#[derive(Debug, PartialEq, Eq)]
pub struct RestoreOutcome {
    /// The entry's path inside the store.
    pub store_path: Vec<u8>,
    /// The entry's kind, as the classifier tagged it.
    pub kind: PathType,
    pub result: Result<(), RestoreEntryError>,
}

/// What a batch restore reports back.
#[derive(Debug, PartialEq, Eq)]
pub struct RestoreReport {
    /// One outcome per store leaf, in processing order.
    pub outcomes: Vec<RestoreOutcome>,
    /// The scratch directory's path when displaced content was left in it.
    pub scratch_kept: Option<Vec<u8>>,
}

/// The (path, kind) pairs of a run of restore outcomes.
pub open spec fn restore_outcome_views(ocs: Seq<RestoreOutcome>) -> Seq<(Seq<u8>, PathType)> {
    ocs.map_values(|oc: RestoreOutcome| (oc.store_path@, oc.kind))
}

/// The manifest name of nested version-control units (`.gitmodules`).
pub open spec fn gitmodules_name() -> Seq<u8> {
    seq![46u8, 103u8, 105u8, 116u8, 109u8, 111u8, 100u8, 117u8, 108u8, 101u8, 115u8]
}

/// The scratch directory's name prefix (`dotty-`).
pub open spec fn scratch_prefix() -> Seq<u8> {
    seq![100u8, 111u8, 116u8, 116u8, 121u8, 45u8]
}

/// `m1` is `m0` with a fresh scratch directory `d` created under `tmp_root`,
/// named with the scratch prefix and a random alphanumeric suffix.
pub open spec fn scratch_created(m0: FsModel, m1: FsModel, tmp_root: Seq<u8>, d: Seq<u8>) -> bool {
    &&& m1.inv()
    &&& !m0.has(d)
    &&& (exists|sfx: Seq<u8>|
        sfx.len() == SCRATCH_SUFFIX_LEN && (forall|i: int|
            0 <= i < sfx.len() ==> is_alnum_byte(#[trigger] sfx[i])) && d == #[trigger] join_spec(
            tmp_root,
            scratch_prefix() + sfx,
        ))
    &&& (parent_spec(d) matches Some(q) && m0.dir_at(q))
    &&& forall|k: Seq<u8>| #[trigger] m1.node_at(k) == (if k == d {
        Some(NodeView::Dir)
    } else {
        m0.node_at(k)
    })
}

/// `m1` is `m0` after the scratch directory `d` was released: removed when
/// nothing was displaced into it, else left behind and reported in `kept`.
pub open spec fn scratch_released(
    m0: FsModel,
    m1: FsModel,
    d: Seq<u8>,
    kept: Option<Vec<u8>>,
) -> bool {
    let empty = m0.dir_at(d) && (forall|k: Seq<u8>|
        !(#[trigger] m0.has(k) && parent_spec(k) == Some(d)));
    if empty {
        kept is None && (forall|k: Seq<u8>| #[trigger] m1.node_at(k) == (if k == d {
            None
        } else {
            m0.node_at(k)
        }))
    } else {
        (kept matches Some(p) && p@ == d) && m1.entries@ == m0.entries@
    }
}

/// One store leaf's step of a batch restore: the outcome and the state
/// after relate to the state before exactly as the per-entry `restore`
/// promises, against the root-joined target and the matching scratch entry.
pub open spec fn restore_step(
    m0: FsModel,
    m1: FsModel,
    repo: Seq<u8>,
    root: Seq<u8>,
    sd: Option<Seq<u8>>,
    symlinks: bool,
    oc: RestoreOutcome,
) -> bool {
    let from = oc.store_path@;
    let rel = rel_spec(repo, from);
    &&& m1.inv()
    &&& ((from == repo || (strictly_under(from, repo) && rel.len() == 0)) ==> oc.result
        == Result::<(), RestoreEntryError>::Err(RestoreEntryError::Path(PathError::EmptyRelative))
        && m1.entries@ == m0.entries@)
    &&& (from != repo && !strictly_under(from, repo) ==> oc.result == Result::<
        (),
        RestoreEntryError,
    >::Err(RestoreEntryError::Path(PathError::NotUnderRoot)) && m1.entries@ == m0.entries@)
    &&& (strictly_under(from, repo) && rel.len() > 0 ==> {
        let to = join_spec(root, rel);
        let ow = match sd {
            Some(d) => Some(join_spec(d, rel)),
            None => None,
        };
        let step = restore_model(m0, from, to, ow, symlinks);
        &&& oc.result == (match step.0 {
            Ok(u) => Ok::<(), RestoreEntryError>(u),
            Err(e) => Err::<(), RestoreEntryError>(RestoreEntryError::Restore(e)),
        })
        &&& forall|k: Seq<u8>| #[trigger] m1.node_at(k) == step.1(k)
    })
}

/// A whole batch restore, witnessed by the state `pre` after scratch
/// creation, the scratch directory `sd`, and the chain `ms` of states the
/// per-leaf steps pass through.
pub open spec fn restore_run(
    m_begin: FsModel,
    m_end: FsModel,
    repo: Seq<u8>,
    root: Seq<u8>,
    tmp_root: Seq<u8>,
    symlinks: bool,
    overwrite: bool,
    ocs: Seq<RestoreOutcome>,
    kept: Option<Vec<u8>>,
    pre: FsModel,
    sd: Option<Seq<u8>>,
    ms: Seq<FsModel>,
) -> bool {
    &&& (match sd {
        Some(d) => overwrite && scratch_created(m_begin, pre, tmp_root, d),
        None => !overwrite && pre == m_begin,
    })
    &&& pre.dir_at(repo)
    &&& ms.len() == ocs.len() + 1
    &&& ms[0] == pre
    &&& (forall|j: int|
        0 <= j < ocs.len() ==> restore_step(
            ms[j],
            ms[j + 1],
            repo,
            root,
            sd,
            symlinks,
            #[trigger] ocs[j],
        ))
    &&& (match sd {
        Some(d) => scratch_released(ms[ms.len() - 1], m_end, d, kept),
        None => kept is None && m_end.entries@ == ms[ms.len() - 1].entries@,
    })
    &&& (forall|a: int|
        0 <= a < ocs.len() && ocs[a].kind == PathType::GitRepo ==> is_repo_dir(
            pre,
            #[trigger] ocs[a].store_path@,
        ))
    &&& (forall|a: int|
        0 <= a < ocs.len() && ocs[a].kind == PathType::File ==> pre.has(
            #[trigger] ocs[a].store_path@,
        ) && !pre.dir_at(ocs[a].store_path@))
    &&& (exists|ds: Set<Seq<u8>>|
        descent_closed(pre, restore_outcome_views(ocs), ds) && (forall|c: Seq<u8>|
            pre.has(c) && #[trigger] parent_spec(c) == Some(repo) && c != join_spec(
                repo,
                repo_marker(),
            ) && c != join_spec(repo, gitmodules_name()) ==> resolve_spec(
                pre,
                c,
                LINK_CHASE_LIMIT as nat,
            ) is Some && leaf_covered(
                pre,
                restore_outcome_views(ocs),
                ds,
                resolve_spec(pre, c, LINK_CHASE_LIMIT as nat).unwrap(),
            )))
}

fn skip_list(repo: &Vec<u8>) -> (r: Vec<Vec<u8>>)
    ensures
        r@.len() == 2,
        r@[0]@ == join_spec(repo@, repo_marker()),
        r@[1]@ == join_spec(repo@, gitmodules_name()),
{
    // `.git` and `.gitmodules`: the store's own version-control files.
    let mut git: Vec<u8> = Vec::new();
    git.push(46u8);
    git.push(103u8);
    git.push(105u8);
    git.push(116u8);
    proof {
        assert(git@ =~= repo_marker());
    }
    let mut gitmodules: Vec<u8> = Vec::new();
    gitmodules.push(46u8);
    gitmodules.push(103u8);
    gitmodules.push(105u8);
    gitmodules.push(116u8);
    gitmodules.push(109u8);
    gitmodules.push(111u8);
    gitmodules.push(100u8);
    gitmodules.push(117u8);
    gitmodules.push(108u8);
    gitmodules.push(101u8);
    gitmodules.push(115u8);
    proof {
        assert(gitmodules@ =~= gitmodules_name());
    }
    let mut r: Vec<Vec<u8>> = Vec::new();
    r.push(join(repo, &git));
    r.push(join(repo, &gitmodules));
    r
}

/// Restore every entry of the store at `repo` to its original location
/// under `root`: as links when `symlinks` holds, as copies otherwise. With
/// `overwrite`, pre-existing content is displaced into a scratch directory
/// under `tmp_root`, which survives the call only if something was
/// displaced into it. A failing entry is recorded and the batch continues.
///
/// On success the report holds one outcome per store leaf, in order; the
/// leaves are the complete classification of the store's top-level entries
/// (minus its own version-control files); and the filesystem evolves
/// through scratch creation, one per-entry `restore` step per leaf against
/// the root-joined target and matching scratch entry, and the scratch
/// release.
pub fn restore(
    fs: &mut FsModel,
    repo: &Vec<u8>,
    root: &Vec<u8>,
    symlinks: bool,
    overwrite: bool,
    tmp_root: &Vec<u8>,
) -> (r: Result<RestoreReport, RestoreCmdError>)
    requires
        old(fs).inv(),
        repo@.len() > 0,
        root@.len() > 0,
        tmp_root@.len() > 0,
    ensures
        final(fs).inv(),
        r matches Ok(rep) ==> (!overwrite ==> rep.scratch_kept is None),
        r matches Ok(rep) ==> forall|a: int, c: int|
            0 <= a < c < rep.outcomes@.len() ==> rep.outcomes@[a].store_path@
                != rep.outcomes@[c].store_path@,
        !overwrite ==> (r == Result::<RestoreReport, RestoreCmdError>::Err(
            RestoreCmdError::StoreUnreadable,
        ) <==> !old(fs).dir_at(repo@)),
        r == Result::<RestoreReport, RestoreCmdError>::Err(RestoreCmdError::StoreUnreadable)
            ==> !old(fs).dir_at(repo@),
        r matches Err(e) ==> ((e matches RestoreCmdError::Scratch(_)) ==> overwrite
            && final(fs).entries@ == old(fs).entries@ && (exists|sfx: Seq<u8>|
            sfx.len() == SCRATCH_SUFFIX_LEN && (forall|i: int|
                0 <= i < sfx.len() ==> is_alnum_byte(#[trigger] sfx[i])) && (old(fs).has(
                #[trigger] join_spec(tmp_root@, scratch_prefix() + sfx),
            ) || !(parent_spec(join_spec(tmp_root@, scratch_prefix() + sfx)) matches Some(q)
                && old(fs).dir_at(q))))),
        r matches Ok(rep) ==> (exists|pre: FsModel, sd: Option<Seq<u8>>, ms: Seq<FsModel>|
            #[trigger] restore_run(
                *old(fs),
                *final(fs),
                repo@,
                root@,
                tmp_root@,
                symlinks,
                overwrite,
                rep.outcomes@,
                rep.scratch_kept,
                pre,
                sd,
                ms,
            )),
{
    let scratch: Option<OverwriteTempDir> = if overwrite {
        let mut prefix: Vec<u8> = Vec::new();
        prefix.push(100u8);
        prefix.push(111u8);
        prefix.push(116u8);
        prefix.push(116u8);
        prefix.push(121u8);
        prefix.push(45u8);
        proof {
            assert(prefix@ =~= scratch_prefix());
        }
        match create_overwrite_temp_dir(fs, tmp_root, &prefix) {
            Ok(s) => Some(s),
            Err(e) => {
                return Err(RestoreCmdError::Scratch(e));
            },
        }
    } else {
        None
    };
    let ghost pre = *fs;
    let ghost sdv: Option<Seq<u8>> = match &scratch {
        Some(o) => Some(o.temp_dir@),
        None => None,
    };
    proof {
        if scratch is Some {
            let d = scratch.unwrap().temp_dir@;
            assert(scratch_created(*old(fs), pre, tmp_root@, d));
            assert(d.len() > 1) by {
                let sfx = choose|sfx: Seq<u8>|
                    sfx.len() == SCRATCH_SUFFIX_LEN && (forall|i: int|
                        0 <= i < sfx.len() ==> is_alnum_byte(#[trigger] sfx[i])) && d
                        == #[trigger] join_spec(tmp_root@, scratch_prefix() + sfx);
            }
        }
    }
    let top = match read_dir(fs, repo) {
        Some(v) => v,
        None => {
            proof {
                if sdv is Some {
                    let d = sdv.unwrap();
                    assert(pre.node_at(repo@) == (if repo@ == d {
                        Some(NodeView::Dir)
                    } else {
                        old(fs).node_at(repo@)
                    }));
                    assert(!old(fs).dir_at(repo@));
                }
            }
            return Err(RestoreCmdError::StoreUnreadable);
        },
    };
    let skips = skip_list(repo);
    let mut requested: Vec<Vec<u8>> = Vec::new();
    let m = top.len();
    let mut i: usize = 0;
    while i < m
        invariant
            m == top@.len(),
            i <= m,
            skips@.len() == 2,
            skips@[0]@ == join_spec(repo@, repo_marker()),
            skips@[1]@ == join_spec(repo@, gitmodules_name()),
            forall|b: int|
                0 <= b < i && #[trigger] top@[b]@ != join_spec(repo@, repo_marker()) && top@[b]@
                    != join_spec(repo@, gitmodules_name()) ==> in_views(requested@, top@[b]@),
        decreases m - i,
    {
        let c = &top[i];
        let ghost req0 = requested@;
        if !eq_bytes(c, &skips[0]) && !eq_bytes(c, &skips[1]) {
            let keep = c.clone();
            proof {
                assert(keep@ =~= top@[i as int]@);
            }
            requested.push(keep);
        }
        proof {
            assert forall|b: int|
                0 <= b < i + 1 && #[trigger] top@[b]@ != join_spec(repo@, repo_marker())
                    && top@[b]@ != join_spec(repo@, gitmodules_name()) implies in_views(
                requested@,
                top@[b]@,
            ) by {
                if b < i {
                    let v = choose|v: int| 0 <= v < req0.len() && #[trigger] req0[v]@ == top@[b]@;
                    assert(requested@[v]@ == top@[b]@);
                } else {
                    assert(requested@[requested@.len() - 1]@ == top@[b]@);
                }
            }
        }
        i = i + 1;
    }
    let leaves = match flatten_paths_to_add(fs, &requested) {
        Ok(leaves) => leaves,
        Err(e) => {
            return Err(RestoreCmdError::Classify(e));
        },
    };
    let n = leaves.len();
    let mut outcomes: Vec<RestoreOutcome> = Vec::new();
    let ghost mut ms: Seq<FsModel> = seq![*fs];
    let mut j: usize = 0;
    while j < n
        invariant
            fs.inv(),
            repo@.len() > 0,
            root@.len() > 0,
            n == leaves@.len(),
            j <= n,
            match scratch {
                Some(o) => sdv == Some(o.temp_dir@) && o.temp_dir@.len() > 1,
                None => sdv is None,
            },
            outcomes@.len() == j,
            ms.len() == j + 1,
            ms[0] == pre,
            ms[ms.len() - 1] == *fs,
            forall|a: int|
                0 <= a < outcomes@.len() ==> restore_step(
                    ms[a],
                    ms[a + 1],
                    repo@,
                    root@,
                    sdv,
                    symlinks,
                    #[trigger] outcomes@[a],
                ),
            forall|a: int|
                0 <= a < j ==> #[trigger] outcomes@[a].store_path@ == leaves@[a].absolute_path@
                    && outcomes@[a].kind == leaves@[a].kind,
            forall|a: int, c: int|
                0 <= a < c < leaves@.len() ==> leaves@[a].absolute_path@
                    != leaves@[c].absolute_path@,
        decreases n - j,
    {
        let leaf = &leaves[j];
        let from = leaf.absolute_path.clone();
        let kind = leaf.kind;
        proof {
            assert(from@ =~= leaves@[j as int].absolute_path@);
        }
        let ghost m_pre = *fs;
        let ghost oc0 = outcomes@;
        let result: Result<(), RestoreEntryError> = match relative_from_root(repo, &from) {
            Err(e) => Err(RestoreEntryError::Path(e)),
            Ok(rel) => {
                let to = join(root, &rel);
                proof {
                    assert(strictly_under(from@, repo@));
                    assert(to@.len() > root@.len());
                    assert(!is_root(from@));
                    assert(!is_root(to@));
                }
                let scratch_entry: Option<Vec<u8>> = match &scratch {
                    Some(o) => {
                        let e = o.entry(&rel);
                        proof {
                            assert(e@.len() > o.temp_dir@.len());
                            assert(!is_root(e@));
                        }
                        Some(e)
                    },
                    None => None,
                };
                let overwrite_ref: Option<&Vec<u8>> = match &scratch_entry {
                    Some(v) => Some(v),
                    None => None,
                };
                proof {
                    assert(opt_path_view(overwrite_ref) == (match sdv {
                        Some(d) => Some(join_spec(d, rel_spec(repo@, from@))),
                        None => None::<Seq<u8>>,
                    }));
                }
                match restore_entry(fs, &from, &to, overwrite_ref, symlinks) {
                    Ok(_) => Ok(()),
                    Err(e) => Err(RestoreEntryError::Restore(e)),
                }
            },
        };
        outcomes.push(RestoreOutcome { store_path: from, kind, result });
        proof {
            ms = ms.push(*fs);
            let oc = outcomes@.last();
            assert(outcomes@.drop_last() =~= oc0);
            assert(restore_step(m_pre, *fs, repo@, root@, sdv, symlinks, oc));
            assert forall|a: int| 0 <= a < outcomes@.len() implies restore_step(
                ms[a],
                ms[a + 1],
                repo@,
                root@,
                sdv,
                symlinks,
                #[trigger] outcomes@[a],
            ) by {
                if a < outcomes@.len() - 1 {
                    assert(outcomes@[a] == oc0[a]);
                }
            }
        }
        j = j + 1;
    }
    let ghost m_last = *fs;
    let scratch_kept: Option<Vec<u8>> = match scratch {
        Some(o) => release_overwrite_temp_dir(fs, o),
        None => None,
    };
    proof {
        assert(leaf_views(leaves@) =~= restore_outcome_views(outcomes@));
        let dsw = choose|ds: Set<Seq<u8>>|
            descent_closed(pre, leaf_views(leaves@), ds) && (forall|i: int|
                0 <= i < requested@.len() ==> leaf_covered(
                    pre,
                    leaf_views(leaves@),
                    ds,
                    resolve_spec(
                        pre,
                        #[trigger] requested@[i]@,
                        LINK_CHASE_LIMIT as nat,
                    ).unwrap(),
                ));
        assert(descent_closed(pre, restore_outcome_views(outcomes@), dsw));
        assert forall|c: Seq<u8>|
            pre.has(c) && #[trigger] parent_spec(c) == Some(repo@) && c != join_spec(
                repo@,
                repo_marker(),
            ) && c != join_spec(repo@, gitmodules_name()) implies resolve_spec(
            pre,
            c,
            LINK_CHASE_LIMIT as nat,
        ) is Some && leaf_covered(
            pre,
            restore_outcome_views(outcomes@),
            dsw,
            resolve_spec(pre, c, LINK_CHASE_LIMIT as nat).unwrap(),
        ) by {
            let b = choose|b: int| 0 <= b < top@.len() && #[trigger] top@[b]@ == c;
            assert(in_views(requested@, c));
            let v = choose|v: int| 0 <= v < requested@.len() && #[trigger] requested@[v]@ == c;
            assert(resolve_spec(pre, requested@[v]@, LINK_CHASE_LIMIT as nat) is Some);
            assert(leaf_covered(
                pre,
                leaf_views(leaves@),
                dsw,
                resolve_spec(pre, requested@[v]@, LINK_CHASE_LIMIT as nat).unwrap(),
            ));
        }
        assert forall|a: int|
            0 <= a < outcomes@.len() && outcomes@[a].kind == PathType::GitRepo
            implies is_repo_dir(pre, #[trigger] outcomes@[a].store_path@) by {
            assert(leaves@[a].kind == PathType::GitRepo);
            assert(is_repo_dir(pre, leaves@[a].absolute_path@));
        }
        assert forall|a: int|
            0 <= a < outcomes@.len() && outcomes@[a].kind == PathType::File implies pre.has(
            #[trigger] outcomes@[a].store_path@,
        ) && !pre.dir_at(outcomes@[a].store_path@) by {
            assert(leaves@[a].kind == PathType::File);
            assert(pre.has(leaves@[a].absolute_path@));
        }
        assert(match sdv {
            Some(d) => overwrite && scratch_created(*old(fs), pre, tmp_root@, d),
            None => !overwrite && pre == *old(fs),
        });
        assert(match sdv {
            Some(d) => scratch_released(m_last, *fs, d, scratch_kept),
            None => scratch_kept is None && fs.entries@ == m_last.entries@,
        });
        assert(ms.len() == outcomes@.len() + 1 && ms[0] == pre && ms[ms.len() - 1] == m_last);
        assert(restore_run(
            *old(fs),
            *fs,
            repo@,
            root@,
            tmp_root@,
            symlinks,
            overwrite,
            outcomes@,
            scratch_kept,
            pre,
            sdv,
            ms,
        ));
    }
    Ok(RestoreReport { outcomes, scratch_kept })
}

} // verus!
