//! The engine's safety laws, proved over the same state functions its
//! contracts use. Each law quantifies over every filesystem state its
//! hypotheses allow; the corresponding contracts of `move_then_symlink` and
//! `restore` then carry the law to the executable engine.

use crate::engine::{already_linked, committed, create_step, parents_ok_fn, restore_model, RestoreError};
use crate::fs_model::{fs_fn, parents_added, rekey, renamed, FsModel, NodeView};
use crate::paths::{in_subtree, is_root, strictly_under};
use crate::resolver::{resolve_spec, LINK_CHASE_LIMIT};
use vstd::prelude::*;

verus! {

/// Law (idempotence of add): after a completed move of a regular entry at
/// `from` into the store at `to`, the store target exists and the original
/// is a link resolving to it — exactly the state in which a second add of
/// the same path reports `AlreadyLinked` and, by `move_then_symlink`'s
/// contract, changes nothing.
///
/// The entry moved must not itself have been a symbolic link: a link
/// original is moved as a link, so the replacement link at `from` then
/// resolves through it to wherever it pointed, and a re-add refuses with a
/// conflict instead.
pub proof fn lemma_add_idempotent(m: FsModel, m1: FsModel, from: Seq<u8>, to: Seq<u8>)
    requires
        forall|k: Seq<u8>| #[trigger] m1.node_at(k) == committed(m, from, to)(k),
        !m.has(to),
        m.has(from),
        !(m.node_at(from) matches Some(NodeView::Symlink(_))),
        from.len() > 0,
        to.len() > 0,
        !is_root(from),
        !is_root(to),
    ensures
        m1.has(to),
        already_linked(m1, from, to),
{
    assert(from != to);
    assert(m1.node_at(from) == Some(NodeView::Symlink(to)));
    assert(in_subtree(to, to));
    assert(rekey(to, to, from) =~= from);
    assert(m1.node_at(to) == m.node_at(from));
    assert(resolve_spec(m1, from, LINK_CHASE_LIMIT as nat) == Some(to)) by {
        assert(resolve_spec(m1, to, (LINK_CHASE_LIMIT - 1) as nat) == Some(to));
    }
}

/// Law (restore round-trip, link mode): after a completed move of the file
/// at `from` (content `content`) into the store at `to`, restoring the
/// store entry back to `from` as a link succeeds as a no-op: `from` already
/// is a link resolving to the store target, which holds `content`.
pub proof fn lemma_round_trip_symlink(
    m: FsModel,
    m1: FsModel,
    from: Seq<u8>,
    to: Seq<u8>,
    content: Seq<u8>,
    ow: Option<Seq<u8>>,
)
    requires
        forall|k: Seq<u8>| #[trigger] m1.node_at(k) == committed(m, from, to)(k),
        m.node_at(from) == Some(NodeView::File(content)),
        !m.has(to),
        from.len() > 0,
        to.len() > 0,
        !is_root(from),
        !is_root(to),
    ensures
        restore_model(m1, to, from, ow, true).0 == Ok::<(), RestoreError>(()),
        forall|k: Seq<u8>| #[trigger] restore_model(m1, to, from, ow, true).1(k) == m1.node_at(k),
        m1.node_at(to) == Some(NodeView::File(content)),
        m1.node_at(from) == Some(NodeView::Symlink(to)),
{
    assert(from != to);
    assert(m1.node_at(from) == Some(NodeView::Symlink(to)));
    assert(in_subtree(to, to));
    assert(rekey(to, to, from) =~= from);
    assert(m1.node_at(to) == Some(NodeView::File(content)));
    assert(resolve_spec(m1, from, LINK_CHASE_LIMIT as nat) == Some(to)) by {
        assert(resolve_spec(m1, to, (LINK_CHASE_LIMIT - 1) as nat) == Some(to));
    }
}

/// Law (restore round-trip, copy mode): after the same completed move,
/// restoring the store entry back to `from` as a copy succeeds and leaves a
/// regular file with the original content at `from`, while the store still
/// holds it at `to`.
///
/// The original's ancestors must be free to be directories again and must
/// not reach into the store target's subtree, and original and store target
/// must not contain one another.
pub proof fn lemma_round_trip_copy(
    m: FsModel,
    m1: FsModel,
    from: Seq<u8>,
    to: Seq<u8>,
    content: Seq<u8>,
    ow: Option<Seq<u8>>,
)
    requires
        forall|k: Seq<u8>| #[trigger] m1.node_at(k) == committed(m, from, to)(k),
        m.node_at(from) == Some(NodeView::File(content)),
        !m.has(to),
        forall|q: Seq<u8>|
            strictly_under(from, q) ==> m.node_at(q) is None || m.node_at(q) == Some(
                NodeView::Dir,
            ),
        forall|q: Seq<u8>| strictly_under(from, q) ==> !in_subtree(q, to),
        !in_subtree(to, from),
        !in_subtree(from, to),
        from.len() > 0,
        to.len() > 0,
        !is_root(from),
        !is_root(to),
    ensures
        restore_model(m1, to, from, ow, false).0 == Ok::<(), RestoreError>(()),
        restore_model(m1, to, from, ow, false).1(from) == Some(NodeView::File(content)),
        restore_model(m1, to, from, ow, false).1(to) == Some(NodeView::File(content)),
{
    assert(from != to);
    assert(m1.node_at(from) == Some(NodeView::Symlink(to)));
    assert(in_subtree(to, to));
    assert(rekey(to, to, from) =~= from);
    assert(m1.node_at(to) == Some(NodeView::File(content)));
    assert(resolve_spec(m1, from, LINK_CHASE_LIMIT as nat) == Some(to)) by {
        assert(resolve_spec(m1, to, (LINK_CHASE_LIMIT - 1) as nat) == Some(to));
    }
    // The ancestors of `from` are still free in the moved state.
    assert forall|q: Seq<u8>| strictly_under(from, q) implies m1.node_at(q) is None
        || m1.node_at(q) == Some(NodeView::Dir) by {
        assert(q != from);
        assert(!in_subtree(q, to));
        assert(!in_subtree(q, from));
        assert(m1.node_at(q) == committed(m, from, to)(q));
    }
    let g = restore_model(m1, to, from, ow, false).1;
    assert(rekey(from, from, to) =~= to);
    assert(g(from) == Some(NodeView::File(content)));
    assert(!strictly_under(from, to));
    assert(g(to) == Some(NodeView::File(content)));
}

/// Law (overwrite displaces, never deletes): when a restore with a scratch
/// path finds pre-existing regular content at the target, that content ends
/// up, unchanged, at the scratch path — whatever else the restore then does.
///
/// The scratch path must not lie inside the restore target, and its own
/// ancestors must be free to become directories.
pub proof fn lemma_overwrite_displaces(
    m: FsModel,
    from: Seq<u8>,
    to: Seq<u8>,
    scr: Seq<u8>,
    old_node: NodeView,
    symlinks: bool,
)
    requires
        m.has(from),
        m.node_at(to) == Some(old_node),
        !(old_node matches NodeView::Symlink(_)),
        forall|q: Seq<u8>|
            strictly_under(scr, q) ==> m.node_at(q) is None || m.node_at(q) == Some(
                NodeView::Dir,
            ),
        !in_subtree(scr, to),
        from.len() > 0,
        to.len() > 0,
        scr.len() > 0,
        !is_root(from),
        !is_root(to),
        !is_root(scr),
    ensures
        restore_model(m, from, to, Some(scr), symlinks).1(scr) == Some(old_node),
{
    let g0 = fs_fn(m);
    assert(parents_ok_fn(g0, scr)) by {
        assert forall|q: Seq<u8>| strictly_under(scr, q) implies g0(q) is None || g0(q) == Some(
            NodeView::Dir,
        ) by {
            assert(g0(q) == m.node_at(q));
        }
    }
    let displaced = renamed(parents_added(g0, scr), to, scr);
    assert(in_subtree(scr, scr));
    assert(rekey(scr, scr, to) =~= to);
    assert(parents_added(g0, scr)(to) == Some(old_node));
    assert(displaced(scr) == Some(old_node));
    let stepped = create_step(displaced, from, to, symlinks);
    assert(scr != to);
    assert(parents_added(displaced, to)(scr) == Some(old_node));
    assert(stepped.1(scr) == Some(old_node));
}

} // verus!
