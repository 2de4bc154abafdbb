//! The link engine: moving an entry into the store and replacing it with a
//! link, and restoring store entries back to their original locations.
//!
//! Every operation states the exact final state, so the safety arguments —
//! nothing is overwritten silently, displaced content stays recoverable —
//! are checked rather than trusted. The order of the destructive steps
//! matters: the store target is populated by the same rename that vacates
//! the original, and the link is only written afterwards.

use crate::fs_model::{
    copied, erased, fs_fn, parents_added, parents_ok, renamed, written, FsModel, Node, NodeView,
};
use crate::paths::{
    eq_bytes, is_root, join, join_spec, lemma_join_under, relative_from_root, rel_spec,
    strictly_under, PathError,
};
use crate::resolver::{resolve, resolve_spec, LINK_CHASE_LIMIT};
use vstd::prelude::*;

verus! {

/// The state found at an original location, as the engine reads it.
#[derive(Debug, PartialEq, Eq, Clone)]
pub enum LinkState {
    /// Nothing lives there.
    Absent,
    /// A regular file or directory lives there.
    RegularContent,
    /// A symbolic link lives there, recorded with its stored target.
    SymlinkTo(Vec<u8>),
}

/// What a completed add reports.
#[derive(Clone, Copy, Debug, PartialEq, Eq, Structural)]
pub enum Outcome {
    /// The entry was moved into the store and replaced by a link.
    Moved,
    /// The original already is a link resolving to the store target.
    AlreadyLinked,
}

/// Why an add failed.
#[derive(Clone, Copy, Debug, PartialEq, Eq, Structural)]
pub enum EngineError {
    /// The store target exists and is not what the original points to.
    Conflict,
    /// The move could not be performed; the data stays at the original.
    MoveError,
    /// The move happened but the link could not be written: the content is
    /// safe in the store and a human must finish or reverse the step.
    PartiallyApplied,
}

/// The state the engine reads at `p`.
pub fn link_state_of(fs: &FsModel, p: &Vec<u8>) -> (r: LinkState)
    ensures
        match r {
            LinkState::Absent => fs.node_at(p@) is None,
            LinkState::RegularContent => fs.node_at(p@) matches Some(n) && !(n matches
                NodeView::Symlink(_)),
            LinkState::SymlinkTo(t) => fs.node_at(p@) == Some(NodeView::Symlink(t@)),
        },
{
    match fs.node_of(p) {
        None => LinkState::Absent,
        Some(Node::Symlink(t)) => {
            let u = t.clone();
            proof {
                assert(u@ =~= t@);
            }
            LinkState::SymlinkTo(u)
        },
        Some(_) => LinkState::RegularContent,
    }
}

/// The original at `from` already is a link that resolves to `to`.
pub open spec fn already_linked(m: FsModel, from: Seq<u8>, to: Seq<u8>) -> bool {
    &&& m.node_at(from) matches Some(NodeView::Symlink(_))
    &&& resolve_spec(m, from, LINK_CHASE_LIMIT as nat) == Some(to)
}

/// The state after a completed move-then-link of `from` onto `to`: missing
/// parents of `to` made directories, the subtree of `from` renamed onto
/// `to`, and a link to `to` written at `from`.
pub open spec fn committed(m: FsModel, from: Seq<u8>, to: Seq<u8>) -> spec_fn(Seq<u8>) -> Option<
    NodeView,
> {
    written(renamed(parents_added(fs_fn(m), to), from, to), from, NodeView::Symlink(to))
}

/// Move the entry at `from` into the store at `to` and leave a link behind.
///
/// Returns `Ok(true)` when the move happened, `Ok(false)` when `from`
/// already resolves to the existing `to` (an idempotent re-add), and an
/// error — changing nothing — when `to` is occupied by anything else or the
/// move cannot be made.
pub fn move_then_symlink(fs: &mut FsModel, from: &Vec<u8>, to: &Vec<u8>) -> (r: Result<
    bool,
    EngineError,
>)
    requires
        old(fs).inv(),
        from@.len() > 0,
        to@.len() > 0,
        !is_root(from@),
        !is_root(to@),
    ensures
        final(fs).inv(),
        r == Ok::<bool, EngineError>(false) <==> old(fs).has(to@) && already_linked(
            *old(fs),
            from@,
            to@,
        ),
        r == Err::<bool, EngineError>(EngineError::Conflict) <==> old(fs).has(to@)
            && !already_linked(*old(fs), from@, to@),
        r == Err::<bool, EngineError>(EngineError::MoveError) <==> !old(fs).has(to@) && (!old(
            fs,
        ).has(from@) || !parents_ok(*old(fs), to@)),
        r == Ok::<bool, EngineError>(true) <==> !old(fs).has(to@) && old(fs).has(from@)
            && parents_ok(*old(fs), to@),
        !(r == Ok::<bool, EngineError>(true)) ==> final(fs).entries@ == old(fs).entries@,
        r == Ok::<bool, EngineError>(true) ==> forall|k: Seq<u8>|
            #[trigger] final(fs).node_at(k) == committed(*old(fs), from@, to@)(k),
{
    if fs.contains(to) {
        let linked = if fs.is_symlink(from) {
            match resolve(fs, from) {
                Some(rt) => eq_bytes(&rt, to),
                None => false,
            }
        } else {
            false
        };
        if linked {
            Ok(false)
        } else {
            Err(EngineError::Conflict)
        }
    } else {
        if !fs.contains(from) {
            return Err(EngineError::MoveError);
        }
        let ghost f0 = fs_fn(*fs);
        if !fs.create_parent_dir(to) {
            return Err(EngineError::MoveError);
        }
        let ghost f1 = fs_fn(*fs);
        proof {
            assert forall|k: Seq<u8>| #[trigger] f1(k) == parents_added(f0, to@)(k) by {
            }
        }
        fs.rename(from, to);
        let ghost f2 = fs_fn(*fs);
        proof {
            assert forall|k: Seq<u8>| #[trigger] f2(k) == renamed(parents_added(f0, to@), from@, to@)(
                k,
            ) by {
            }
        }
        let target = to.clone();
        proof {
            assert(target@ =~= to@);
        }
        fs.set_node(from, Node::Symlink(target));
        proof {
            assert forall|k: Seq<u8>|
                #[trigger] fs.node_at(k) == committed(*old(fs), from@, to@)(k) by {
            }
        }
        Ok(true)
    }
}

/// Move `original_abs_path` into the store at `store_root` under
/// `relative_path`, leaving a link behind, per `move_then_symlink`; the
/// outcome distinguishes a fresh move from an idempotent re-add.
pub fn commit_into_store(
    fs: &mut FsModel,
    original_abs_path: &Vec<u8>,
    relative_path: &Vec<u8>,
    store_root: &Vec<u8>,
) -> (r: Result<Outcome, EngineError>)
    requires
        old(fs).inv(),
        original_abs_path@.len() > 0,
        !is_root(original_abs_path@),
        store_root@.len() > 0,
        relative_path@.len() > 0,
    ensures
        final(fs).inv(),
        ({
            let to = join_spec(store_root@, relative_path@);
            let from = original_abs_path@;
            &&& (r == Ok::<Outcome, EngineError>(Outcome::AlreadyLinked) <==> old(fs).has(to)
                && already_linked(*old(fs), from, to))
            &&& (r == Err::<Outcome, EngineError>(EngineError::Conflict) <==> old(fs).has(to)
                && !already_linked(*old(fs), from, to))
            &&& (r == Err::<Outcome, EngineError>(EngineError::MoveError) <==> !old(fs).has(to) && (
            !old(fs).has(from) || !parents_ok(*old(fs), to)))
            &&& (r == Ok::<Outcome, EngineError>(Outcome::Moved) <==> !old(fs).has(to) && old(
                fs,
            ).has(from) && parents_ok(*old(fs), to))
            &&& (!(r == Ok::<Outcome, EngineError>(Outcome::Moved)) ==> final(fs).entries@ == old(
                fs,
            ).entries@)
            &&& (r == Ok::<Outcome, EngineError>(Outcome::Moved) ==> forall|k: Seq<u8>|
                #[trigger] final(fs).node_at(k) == committed(*old(fs), from, to)(k))
        }),
{
    let to = join(store_root, relative_path);
    proof {
        lemma_join_under(store_root@, relative_path@);
        assert(to@.len() > 1);
    }
    match move_then_symlink(fs, original_abs_path, &to) {
        Ok(true) => Ok(Outcome::Moved),
        Ok(false) => Ok(Outcome::AlreadyLinked),
        Err(e) => Err(e),
    }
}

/// Move the entry at `path` into the store, keyed by its path relative to
/// `root`: `Ok(Some(rel))` after a fresh move, `Ok(None)` when it was
/// already linked, the engine's error otherwise.
pub fn move_to_dotty_repo(
    fs: &mut FsModel,
    repo: &Vec<u8>,
    root: &Vec<u8>,
    path: &Vec<u8>,
) -> (r: Result<Option<Vec<u8>>, MoveToRepoError>)
    requires
        old(fs).inv(),
        repo@.len() > 0,
    ensures
        final(fs).inv(),
        !strictly_under(path@, root@) || rel_spec(root@, path@).len() == 0 ==> (r is Err
            && final(fs).entries@ == old(fs).entries@),
        (path@ == root@ || (strictly_under(path@, root@) && rel_spec(root@, path@).len() == 0))
            ==> r == Result::<Option<Vec<u8>>, MoveToRepoError>::Err(MoveToRepoError::Path(
            PathError::EmptyRelative,
        )),
        path@ != root@ && !strictly_under(path@, root@) ==> r == Result::<
            Option<Vec<u8>>,
            MoveToRepoError,
        >::Err(MoveToRepoError::Path(PathError::NotUnderRoot)),
        ({
            let rel = rel_spec(root@, path@);
            let to = join_spec(repo@, rel);
            strictly_under(path@, root@) && rel.len() > 0 ==> {
                &&& (r == Ok::<Option<Vec<u8>>, MoveToRepoError>(None) <==> old(fs).has(to)
                    && already_linked(*old(fs), path@, to))
                &&& (r == Err::<Option<Vec<u8>>, MoveToRepoError>(MoveToRepoError::Engine(
                    EngineError::Conflict,
                )) <==> old(fs).has(to) && !already_linked(*old(fs), path@, to))
                &&& (r == Err::<Option<Vec<u8>>, MoveToRepoError>(MoveToRepoError::Engine(
                    EngineError::MoveError,
                )) <==> !old(fs).has(to) && (!old(fs).has(path@) || !parents_ok(*old(fs), to)))
                &&& ((r matches Ok(o) && o is Some) <==> !old(fs).has(to) && old(fs).has(path@)
                    && parents_ok(*old(fs), to))
                &&& (r matches Ok(Some(q)) ==> q@ == rel)
                &&& (r matches Ok(Some(q)) ==> forall|k: Seq<u8>|
                    #[trigger] final(fs).node_at(k) == committed(*old(fs), path@, to)(k))
                &&& (!(r matches Ok(o) && o is Some) ==> final(fs).entries@ == old(fs).entries@)
            }
        }),
{
    let rel = match relative_from_root(root, path) {
        Ok(rel) => rel,
        Err(e) => {
            return Err(MoveToRepoError::Path(e));
        },
    };
    proof {
        assert(strictly_under(path@, root@));
        assert(path@.len() > root@.len() >= 1);
    }
    match commit_into_store(fs, path, &rel, repo) {
        Ok(Outcome::Moved) => Ok(Some(rel)),
        Ok(Outcome::AlreadyLinked) => Ok(None),
        Err(e) => Err(MoveToRepoError::Engine(e)),
    }
}

/// Why an entry could not be moved into the store.
#[derive(Clone, Copy, Debug, PartialEq, Eq, Structural)]
pub enum MoveToRepoError {
    /// The entry's path could not be keyed against the root.
    Path(PathError),
    /// The engine refused or failed the move.
    Engine(EngineError),
}


/// Why a restore failed.
#[derive(Clone, Copy, Debug, PartialEq, Eq, Structural)]
pub enum RestoreError {
    /// The store entry to restore from does not exist.
    SourceMissing,
    /// A regular file or directory occupies the target and no overwrite
    /// scratch area was supplied.
    WouldOverwriteFile,
    /// A link resolving elsewhere occupies the target and no overwrite was
    /// asked for.
    WouldOverwriteLink,
    /// The pre-existing content could not be displaced into the scratch
    /// area; nothing was changed.
    MoveError,
    /// The link or copy could not be created.
    CreateError,
}

/// Every proper ancestor of `p` is free to become (or already is) a
/// directory, read off a state function.
pub open spec fn parents_ok_fn(g: spec_fn(Seq<u8>) -> Option<NodeView>, p: Seq<u8>) -> bool {
    forall|q: Seq<u8>| strictly_under(p, q) ==> g(q) is None || g(q) == Some(NodeView::Dir)
}

/// The restore's final create step on the state `g`: parents of `to` made,
/// then either a link to `from` written at `to` or the subtree of `from`
/// copied onto `to`.
pub open spec fn create_step(
    g: spec_fn(Seq<u8>) -> Option<NodeView>,
    from: Seq<u8>,
    to: Seq<u8>,
    symlinks: bool,
) -> (Result<(), RestoreError>, spec_fn(Seq<u8>) -> Option<NodeView>) {
    if !parents_ok_fn(g, to) {
        (Err(RestoreError::CreateError), g)
    } else if symlinks {
        (Ok(()), written(parents_added(g, to), to, NodeView::Symlink(from)))
    } else {
        (Ok(()), copied(parents_added(g, to), from, to))
    }
}

/// The restore decision table: given the state of the target, either leave
/// it (already correct), remove a link, displace content into the scratch
/// path, refuse, or create — and the state that results.
pub open spec fn restore_model(
    m: FsModel,
    from: Seq<u8>,
    to: Seq<u8>,
    overwrite: Option<Seq<u8>>,
    symlinks: bool,
) -> (Result<(), RestoreError>, spec_fn(Seq<u8>) -> Option<NodeView>) {
    let g0 = fs_fn(m);
    if m.node_at(from) is None {
        (Err(RestoreError::SourceMissing), g0)
    } else {
        match m.node_at(to) {
            Option::None => create_step(g0, from, to, symlinks),
            Option::Some(NodeView::Symlink(t)) => {
                if resolve_spec(m, to, LINK_CHASE_LIMIT as nat) == Some(from) {
                    if symlinks {
                        (Ok(()), g0)
                    } else {
                        create_step(erased(g0, to), from, to, symlinks)
                    }
                } else {
                    match overwrite {
                        Option::Some(_) => create_step(erased(g0, to), from, to, symlinks),
                        Option::None => (Err(RestoreError::WouldOverwriteLink), g0),
                    }
                }
            },
            Option::Some(_) => {
                match overwrite {
                    Option::Some(scr) => {
                        if !parents_ok_fn(g0, scr) {
                            (Err(RestoreError::MoveError), g0)
                        } else {
                            create_step(
                                renamed(parents_added(g0, scr), to, scr),
                                from,
                                to,
                                symlinks,
                            )
                        }
                    },
                    Option::None => (Err(RestoreError::WouldOverwriteFile), g0),
                }
            },
        }
    }
}

/// The view of an optional borrowed path.
pub open spec fn opt_path_view(o: Option<&Vec<u8>>) -> Option<Seq<u8>> {
    match o {
        Option::Some(v) => Some(v@),
        Option::None => None,
    }
}

fn create_entry(
    fs: &mut FsModel,
    from: &Vec<u8>,
    to: &Vec<u8>,
    symlinks: bool,
    base: Ghost<spec_fn(Seq<u8>) -> Option<NodeView>>,
) -> (r: Result<(), RestoreError>)
    requires
        old(fs).inv(),
        from@.len() > 0,
        !is_root(from@),
        to@.len() > 0,
        !is_root(to@),
        forall|k: Seq<u8>| #[trigger] old(fs).node_at(k) == base@(k),
    ensures
        final(fs).inv(),
        r == create_step(base@, from@, to@, symlinks).0,
        forall|k: Seq<u8>|
            #[trigger] final(fs).node_at(k) == create_step(base@, from@, to@, symlinks).1(k),
{
    let ghost m0 = *fs;
    let ok = fs.create_parent_dir(to);
    proof {
        if ok {
            assert forall|q: Seq<u8>| strictly_under(to@, q) implies base@(q) is None || base@(q)
                == Some(NodeView::Dir) by {
                assert(m0.node_at(q) == base@(q));
            }
            assert(parents_ok_fn(base@, to@));
        } else {
            assert(!parents_ok(m0, to@));
            let q = choose|q: Seq<u8>|
                strictly_under(to@, q) && !(m0.node_at(q) is None || m0.node_at(q) == Some(
                    NodeView::Dir,
                ));
            assert(base@(q) == m0.node_at(q));
            assert(!parents_ok_fn(base@, to@));
        }
    }
    if !ok {
        proof {
            assert forall|k: Seq<u8>|
                #[trigger] fs.node_at(k) == create_step(base@, from@, to@, symlinks).1(k) by {
                assert(old(fs).node_at(k) == base@(k));
                assert(fs.entries@ == old(fs).entries@);
            }
        }
        return Err(RestoreError::CreateError);
    }
    proof {
        assert forall|k: Seq<u8>| #[trigger] fs.node_at(k) == parents_added(base@, to@)(k) by {
        }
    }
    let ghost f1 = fs_fn(*fs);
    if symlinks {
        let target = from.clone();
        proof {
            assert(target@ =~= from@);
        }
        fs.set_node(to, Node::Symlink(target));
        proof {
            assert forall|k: Seq<u8>|
                #[trigger] fs.node_at(k) == create_step(base@, from@, to@, symlinks).1(k) by {
                assert(f1(k) == parents_added(base@, to@)(k));
            }
        }
    } else {
        fs.copy_tree(from, to);
        proof {
            assert forall|k: Seq<u8>|
                #[trigger] fs.node_at(k) == create_step(base@, from@, to@, symlinks).1(k) by {
                assert(f1(k) == parents_added(base@, to@)(k));
                assert(f1(crate::fs_model::rekey(k, to@, from@)) == parents_added(base@, to@)(
                    crate::fs_model::rekey(k, to@, from@),
                ));
            }
        }
    }
    Ok(())
}

/// Restore the store entry at `from` to its original location `to`.
///
/// The decision table: an absent target is created outright; a link already
/// resolving to `from` is kept (or replaced by a copy when `symlinks` is
/// false); a link resolving elsewhere is removed only under `overwrite`; a
/// regular file or directory is first displaced to the `overwrite` scratch
/// path; without `overwrite`, both of those refuse and change nothing.
pub fn restore(
    fs: &mut FsModel,
    from: &Vec<u8>,
    to: &Vec<u8>,
    overwrite: Option<&Vec<u8>>,
    symlinks: bool,
) -> (r: Result<(), RestoreError>)
    requires
        old(fs).inv(),
        from@.len() > 0,
        !is_root(from@),
        to@.len() > 0,
        !is_root(to@),
        overwrite matches Some(o) ==> o@.len() > 0 && !is_root(o@),
    ensures
        final(fs).inv(),
        r == restore_model(*old(fs), from@, to@, opt_path_view(overwrite), symlinks).0,
        forall|k: Seq<u8>|
            #[trigger] final(fs).node_at(k) == restore_model(
                *old(fs),
                from@,
                to@,
                opt_path_view(overwrite),
                symlinks,
            ).1(k),
{
    let ghost m = *fs;
    let ghost g0 = fs_fn(m);
    if !fs.contains(from) {
        return Err(RestoreError::SourceMissing);
    }
    let state = link_state_of(fs, to);
    match state {
        LinkState::Absent => create_entry(fs, from, to, symlinks, Ghost(g0)),
        LinkState::SymlinkTo(_) => {
            let resolves = match resolve(fs, to) {
                Some(rt) => eq_bytes(&rt, from),
                None => false,
            };
            proof {
                assert(resolves == (resolve_spec(m, to@, LINK_CHASE_LIMIT as nat) == Some(
                    from@,
                )));
            }
            if resolves && symlinks {
                Ok(())
            } else if resolves || overwrite.is_some() {
                fs.remove_path(to);
                proof {
                    assert forall|k: Seq<u8>| #[trigger] fs.node_at(k) == erased(g0, to@)(k) by {
                    }
                }
                create_entry(fs, from, to, symlinks, Ghost(erased(g0, to@)))
            } else {
                Err(RestoreError::WouldOverwriteLink)
            }
        },
        LinkState::RegularContent => {
            match overwrite {
                Some(scr) => {
                    let ghost m0 = *fs;
                    let ok = fs.create_parent_dir(scr);
                    proof {
                        if ok {
                            assert forall|q: Seq<u8>| strictly_under(scr@, q) implies g0(q) is None
                                || g0(q) == Some(NodeView::Dir) by {
                                assert(m0.node_at(q) == g0(q));
                            }
                            assert(parents_ok_fn(g0, scr@));
                        } else {
                            let q = choose|q: Seq<u8>|
                                strictly_under(scr@, q) && !(m0.node_at(q) is None || m0.node_at(q)
                                    == Some(NodeView::Dir));
                            assert(g0(q) == m0.node_at(q));
                            assert(!parents_ok_fn(g0, scr@));
                        }
                    }
                    if !ok {
                        return Err(RestoreError::MoveError);
                    }
                    proof {
                        assert forall|k: Seq<u8>|
                            #[trigger] fs.node_at(k) == parents_added(g0, scr@)(k) by {
                        }
                    }
                    let ghost f1 = fs_fn(*fs);
                    fs.rename(to, scr);
                    proof {
                        assert forall|k: Seq<u8>|
                            #[trigger] fs.node_at(k) == renamed(parents_added(g0, scr@), to@, scr@)(
                                k,
                            ) by {
                            assert(f1(k) == parents_added(g0, scr@)(k));
                            assert(f1(crate::fs_model::rekey(k, scr@, to@)) == parents_added(
                                g0,
                                scr@,
                            )(crate::fs_model::rekey(k, scr@, to@)));
                        }
                    }
                    create_entry(
                        fs,
                        from,
                        to,
                        symlinks,
                        Ghost(renamed(parents_added(g0, scr@), to@, scr@)),
                    )
                },
                None => Err(RestoreError::WouldOverwriteFile),
            }
        },
    }
}


/// The mechanical steps a restore takes once decided.
#[derive(Clone, Copy, Debug, PartialEq, Eq, Structural)]
pub enum RestoreAction {
    /// The target already is a link resolving to the store entry: nothing
    /// to do.
    AlreadyCorrect,
    /// Create the link or copy at the free target.
    Create,
    /// Remove the link occupying the target, then create.
    RemoveThenCreate,
    /// Move the regular content occupying the target into the scratch
    /// area, then create.
    DisplaceThenCreate,
}

/// The restore decision table as pure data: given what was observed of the
/// store entry and the target, which action (or refusal) follows. A shell
/// driving a real filesystem feeds in its observations and performs exactly
/// the action returned.
pub fn restore_plan(
    source_exists: bool,
    target: &LinkState,
    resolves_to_source: bool,
    overwrite: bool,
    symlinks: bool,
) -> (r: Result<RestoreAction, RestoreError>)
    ensures
        !source_exists ==> r == Err::<RestoreAction, RestoreError>(RestoreError::SourceMissing),
        source_exists && target is Absent ==> r == Ok::<RestoreAction, RestoreError>(
            RestoreAction::Create,
        ),
        source_exists && target is SymlinkTo && resolves_to_source && symlinks ==> r == Ok::<
            RestoreAction,
            RestoreError,
        >(RestoreAction::AlreadyCorrect),
        source_exists && target is SymlinkTo && resolves_to_source && !symlinks ==> r == Ok::<
            RestoreAction,
            RestoreError,
        >(RestoreAction::RemoveThenCreate),
        source_exists && target is SymlinkTo && !resolves_to_source && overwrite ==> r == Ok::<
            RestoreAction,
            RestoreError,
        >(RestoreAction::RemoveThenCreate),
        source_exists && target is SymlinkTo && !resolves_to_source && !overwrite ==> r == Err::<
            RestoreAction,
            RestoreError,
        >(RestoreError::WouldOverwriteLink),
        source_exists && target is RegularContent && overwrite ==> r == Ok::<
            RestoreAction,
            RestoreError,
        >(RestoreAction::DisplaceThenCreate),
        source_exists && target is RegularContent && !overwrite ==> r == Err::<
            RestoreAction,
            RestoreError,
        >(RestoreError::WouldOverwriteFile),
{
    if !source_exists {
        return Err(RestoreError::SourceMissing);
    }
    match target {
        LinkState::Absent => Ok(RestoreAction::Create),
        LinkState::SymlinkTo(_) => {
            if resolves_to_source {
                if symlinks {
                    Ok(RestoreAction::AlreadyCorrect)
                } else {
                    Ok(RestoreAction::RemoveThenCreate)
                }
            } else {
                if overwrite {
                    Ok(RestoreAction::RemoveThenCreate)
                } else {
                    Err(RestoreError::WouldOverwriteLink)
                }
            }
        },
        LinkState::RegularContent => {
            if overwrite {
                Ok(RestoreAction::DisplaceThenCreate)
            } else {
                Err(RestoreError::WouldOverwriteFile)
            }
        },
    }
}

/// The add decision as pure data: whether to perform the move (parents,
/// rename, link — in that order), report an idempotent re-add, or refuse.
pub fn commit_plan(store_target_exists: bool, original_resolves_to_target: bool) -> (r: Result<
    Outcome,
    EngineError,
>)
    ensures
        store_target_exists && original_resolves_to_target ==> r == Ok::<Outcome, EngineError>(
            Outcome::AlreadyLinked,
        ),
        store_target_exists && !original_resolves_to_target ==> r == Err::<Outcome, EngineError>(
            EngineError::Conflict,
        ),
        !store_target_exists ==> r == Ok::<Outcome, EngineError>(Outcome::Moved),
{
    if store_target_exists {
        if original_resolves_to_target {
            Ok(Outcome::AlreadyLinked)
        } else {
            Err(EngineError::Conflict)
        }
    } else {
        Ok(Outcome::Moved)
    }
}

} // verus!
