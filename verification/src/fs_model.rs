//! A model of the filesystem state the engine reasons about.
//!
//! The store, the managed originals and the scratch area are all plain
//! directory trees; the engine's safety arguments are about how its steps
//! transform them. The model keeps that state as a flat table from absolute
//! path to node, and every operation states exactly, path by path, what it
//! changes. The unverified shell mirrors each operation onto the real
//! filesystem one syscall at a time.

use crate::paths::{
    eq_bytes, extend_bytes, in_subtree, in_subtree_path, is_absolute, is_root, parent_path,
    parent_spec, sep, strictly_under, sub_bytes,
};
use vstd::prelude::*;

verus! {

/// What a path names: file contents, a directory, or a symbolic link
/// carrying its target path.
#[derive(Debug, PartialEq, Eq, Clone)]
pub enum Node {
    File(Vec<u8>),
    Dir,
    Symlink(Vec<u8>),
}

/// The spec-level picture of a node.
pub enum NodeView {
    File(Seq<u8>),
    Dir,
    Symlink(Seq<u8>),
}

impl View for Node {
    type V = NodeView;

    open spec fn view(&self) -> NodeView {
        match self {
            Node::File(c) => NodeView::File(c@),
            Node::Dir => NodeView::Dir,
            Node::Symlink(t) => NodeView::Symlink(t@),
        }
    }
}

/// Copy a node.
pub fn clone_node(n: &Node) -> (r: Node)
    ensures
        r@ == n@,
{
    match n {
        Node::File(c) => {
            let d = c.clone();
            proof {
                assert(d@ =~= c@);
            }
            Node::File(d)
        },
        Node::Dir => Node::Dir,
        Node::Symlink(t) => {
            let u = t.clone();
            proof {
                assert(u@ =~= t@);
            }
            Node::Symlink(u)
        },
    }
}

/// One row of the table: an absolute path and what it names.
#[derive(Debug, PartialEq, Eq, Clone)]
pub struct FsEntry {
    pub path: Vec<u8>,
    pub node: Node,
}

/// What the table says `k` names: the node of the last row keyed `k`.
pub open spec fn lookup(s: Seq<FsEntry>, k: Seq<u8>) -> Option<NodeView>
    decreases s.len(),
{
    if s.len() == 0 {
        None
    } else if s.last().path@ == k {
        Some(s.last().node@)
    } else {
        lookup(s.drop_last(), k)
    }
}

/// No row's key occurs twice.
pub open spec fn distinct_keys(s: Seq<FsEntry>) -> bool {
    forall|i: int, j: int|
        0 <= i < j < s.len() ==> s[i].path@ != s[j].path@
}

proof fn lemma_lookup_fresh(s: Seq<FsEntry>, k: Seq<u8>)
    requires
        forall|i: int| 0 <= i < s.len() ==> s[i].path@ != k,
    ensures
        lookup(s, k) is None,
    decreases s.len(),
{
    if s.len() > 0 {
        lemma_lookup_fresh(s.drop_last(), k);
    }
}

proof fn lemma_lookup_position(s: Seq<FsEntry>, i: int)
    requires
        0 <= i < s.len(),
    ensures
        lookup(s, s[i].path@) is Some,
    decreases s.len(),
{
    if i == s.len() - 1 {
    } else if s.last().path@ == s[i].path@ {
    } else {
        lemma_lookup_position(s.drop_last(), i);
    }
}

proof fn lemma_lookup_update(s: Seq<FsEntry>, i: int, e: FsEntry, k: Seq<u8>)
    requires
        0 <= i < s.len(),
        s[i].path@ == e.path@,
        forall|j: int| 0 <= j < s.len() && j != i ==> s[j].path@ != e.path@,
    ensures
        lookup(s.update(i, e), k) == if k == e.path@ {
            Some(e.node@)
        } else {
            lookup(s, k)
        },
    decreases s.len(),
{
    let t = s.update(i, e);
    if i == s.len() - 1 {
        assert(t.last() == e);
        assert(t.drop_last() =~= s.drop_last());
        if k != e.path@ {
            assert(s.last().path@ == e.path@);
        }
    } else {
        assert(t.last() == s.last());
        assert(t.drop_last() =~= s.drop_last().update(i, e));
        lemma_lookup_update(s.drop_last(), i, e, k);
    }
}

proof fn lemma_lookup_remove(s: Seq<FsEntry>, i: int, k: Seq<u8>)
    requires
        0 <= i < s.len(),
        forall|j: int| 0 <= j < s.len() && j != i ==> s[j].path@ != s[i].path@,
    ensures
        lookup(s.remove(i), k) == if k == s[i].path@ {
            None
        } else {
            lookup(s, k)
        },
    decreases s.len(),
{
    let t = s.remove(i);
    if i == s.len() - 1 {
        assert(t =~= s.drop_last());
        if k == s[i].path@ {
            assert(forall|j: int| 0 <= j < t.len() ==> t[j].path@ != k);
            lemma_lookup_fresh(t, k);
        }
    } else {
        assert(t.last() == s.last());
        assert(t.drop_last() =~= s.drop_last().remove(i));
        lemma_lookup_remove(s.drop_last(), i, k);
    }
}

/// The filesystem model: a table of absolute paths and their nodes.
pub struct FsModel {
    pub entries: Vec<FsEntry>,
}

impl FsModel {
    /// What `k` names, or nothing.
    pub open spec fn node_at(self, k: Seq<u8>) -> Option<NodeView> {
        lookup(self.entries@, k)
    }

    /// Whether anything lives at `k`.
    pub open spec fn has(self, k: Seq<u8>) -> bool {
        self.node_at(k) is Some
    }

    /// Whether a directory lives at `k`.
    pub open spec fn dir_at(self, k: Seq<u8>) -> bool {
        self.node_at(k) == Some(NodeView::Dir)
    }

    /// The table keys each path at most once.
    pub open spec fn inv(self) -> bool {
        distinct_keys(self.entries@)
    }

    /// An empty filesystem.
    pub fn new() -> (r: FsModel)
        ensures
            r.inv(),
            forall|k: Seq<u8>| r.node_at(k) is None,
    {
        FsModel { entries: Vec::new() }
    }

    /// The row index holding `p`, if any.
    fn find_index(&self, p: &Vec<u8>) -> (r: Option<usize>)
        ensures
            match r {
                Some(i) => i < self.entries@.len() && self.entries@[i as int].path@ == p@
                    && self.node_at(p@) == Some(self.entries@[i as int].node@),
                None => self.node_at(p@) is None && forall|j: int|
                    0 <= j < self.entries@.len() ==> self.entries@[j].path@ != p@,
            },
    {
        let s = Ghost(self.entries@);
        let mut i: usize = self.entries.len();
        proof {
            assert(s@.take(i as int) =~= s@);
        }
        while i > 0
            invariant
                s@ == self.entries@,
                i <= s@.len(),
                lookup(s@, p@) == lookup(s@.take(i as int), p@),
                forall|j: int| i <= j < s@.len() ==> s@[j].path@ != p@,
            decreases i,
        {
            i = i - 1;
            proof {
                assert(s@.take(i as int + 1).last() == s@[i as int]);
                assert(s@.take(i as int + 1).drop_last() =~= s@.take(i as int));
            }
            if eq_bytes(&self.entries[i].path, p) {
                return Some(i);
            }
        }
        proof {
            assert(s@.take(0).len() == 0);
        }
        None
    }

    /// A borrowed view of what lives at `p`.
    pub fn node_of(&self, p: &Vec<u8>) -> (r: Option<&Node>)
        ensures
            match r {
                Some(n) => self.node_at(p@) == Some(n@),
                None => self.node_at(p@) is None,
            },
    {
        match self.find_index(p) {
            Some(i) => Some(&self.entries[i].node),
            None => None,
        }
    }

    /// Whether anything lives at `p`.
    pub fn contains(&self, p: &Vec<u8>) -> (r: bool)
        ensures
            r == self.has(p@),
    {
        self.find_index(p).is_some()
    }

    /// Whether a directory lives at `p`.
    pub fn is_dir(&self, p: &Vec<u8>) -> (r: bool)
        ensures
            r == self.dir_at(p@),
    {
        match self.node_of(p) {
            Some(n) => matches!(n, Node::Dir),
            None => false,
        }
    }

    /// Whether a symbolic link lives at `p`.
    pub fn is_symlink(&self, p: &Vec<u8>) -> (r: bool)
        ensures
            r == (self.node_at(p@) matches Some(NodeView::Symlink(_))),
    {
        match self.node_of(p) {
            Some(n) => matches!(n, Node::Symlink(_)),
            None => false,
        }
    }

    /// The target recorded by the symbolic link at `p`, if one lives there.
    pub fn read_link(&self, p: &Vec<u8>) -> (r: Option<Vec<u8>>)
        ensures
            match r {
                Some(t) => self.node_at(p@) == Some(NodeView::Symlink(t@)),
                None => !(self.node_at(p@) matches Some(NodeView::Symlink(_))),
            },
    {
        match self.node_of(p) {
            Some(Node::Symlink(t)) => {
                let u = t.clone();
                proof {
                    assert(u@ =~= t@);
                }
                Some(u)
            },
            _ => None,
        }
    }

    /// The contents of the file at `p`, if one lives there.
    pub fn read_file(&self, p: &Vec<u8>) -> (r: Option<Vec<u8>>)
        ensures
            match r {
                Some(c) => self.node_at(p@) == Some(NodeView::File(c@)),
                None => !(self.node_at(p@) matches Some(NodeView::File(_))),
            },
    {
        match self.node_of(p) {
            Some(Node::File(c)) => {
                let d = c.clone();
                proof {
                    assert(d@ =~= c@);
                }
                Some(d)
            },
            _ => None,
        }
    }

    /// Put `n` at `p`, replacing whatever was there.
    pub fn set_node(&mut self, p: &Vec<u8>, n: Node)
        requires
            old(self).inv(),
        ensures
            final(self).inv(),
            forall|k: Seq<u8>| final(self).node_at(k) == if k == p@ {
                Some(n@)
            } else {
                old(self).node_at(k)
            },
    {
        let path = p.clone();
        proof {
            assert(path@ =~= p@);
        }
        let e = FsEntry { path, node: n };
        match self.find_index(p) {
            Some(i) => {
                let ghost s = self.entries@;
                self.entries[i] = e;
                proof {
                    assert forall|k: Seq<u8>|
                        lookup(self.entries@, k) == if k == p@ {
                            Some(n@)
                        } else {
                            lookup(s, k)
                        } by {
                        lemma_lookup_update(s, i as int, e, k);
                    }
                }
            },
            None => {
                let ghost s = self.entries@;
                self.entries.push(e);
                proof {
                    assert(self.entries@.last() == e);
                    assert(self.entries@.drop_last() =~= s);
                }
            },
        }
    }

    /// Drop whatever lives at `p` (exactly `p`: not its subtree).
    pub fn remove_path(&mut self, p: &Vec<u8>)
        requires
            old(self).inv(),
        ensures
            final(self).inv(),
            forall|k: Seq<u8>| final(self).node_at(k) == if k == p@ {
                None::<NodeView>
            } else {
                old(self).node_at(k)
            },
    {
        match self.find_index(p) {
            Some(i) => {
                let ghost s = self.entries@;
                let _ = self.entries.remove(i);
                proof {
                    assert forall|k: Seq<u8>|
                        lookup(self.entries@, k) == if k == p@ {
                            None::<NodeView>
                        } else {
                            lookup(s, k)
                        } by {
                        lemma_lookup_remove(s, i as int, k);
                    }
                }
            },
            None => {
            },
        }
    }
}

/// The path `k` carried over from under `from` to under `to`: `to` plus the
/// remainder of `k` past `from`.
pub open spec fn rekey(k: Seq<u8>, from: Seq<u8>, to: Seq<u8>) -> Seq<u8> {
    to + k.skip(from.len() as int)
}

/// Rekeying maps the subtree of `from` into the subtree of `to`, and
/// rekeying back restores the path.
pub proof fn lemma_rekey_round(k: Seq<u8>, from: Seq<u8>, to: Seq<u8>)
    requires
        from.len() > 0,
        to.len() > 0,
        !is_root(from),
        !is_root(to),
        in_subtree(k, from),
    ensures
        in_subtree(rekey(k, from, to), to),
        rekey(rekey(k, from, to), to, from) == k,
{
    let r = rekey(k, from, to);
    if k == from {
        assert(r =~= to);
        assert(rekey(r, to, from) =~= k);
    } else {
        assert(k.take(from.len() as int) == from);
        assert(k[from.len() as int] == crate::paths::sep());
        assert(r.take(to.len() as int) =~= to);
        assert(r[to.len() as int] == crate::paths::sep());
        assert(rekey(r, to, from) =~= k);
    }
}

/// Carry the path `k` from under `from` to under `to`.
pub fn rekey_path(k: &Vec<u8>, from: &Vec<u8>, to: &Vec<u8>) -> (r: Vec<u8>)
    requires
        from@.len() <= k@.len(),
    ensures
        r@ == rekey(k@, from@, to@),
{
    let mut r = to.clone();
    proof {
        assert(r@ =~= to@);
    }
    let suffix = sub_bytes(k, from.len(), k.len());
    extend_bytes(&mut r, &suffix);
    proof {
        assert(r@ =~= rekey(k@, from@, to@));
    }
    r
}

/// What lives at `k` after the subtree of `from` is moved onto `to`:
/// the subtree of `to` holds the carried-over nodes (and nothing else), the
/// subtree of `from` is gone, and everything outside both is untouched.
pub open spec fn rename_at(m: FsModel, from: Seq<u8>, to: Seq<u8>, k: Seq<u8>) -> Option<
    NodeView,
> {
    if in_subtree(k, to) {
        m.node_at(rekey(k, to, from))
    } else if in_subtree(k, from) {
        None
    } else {
        m.node_at(k)
    }
}

/// What lives at `k` after the subtree of `from` is copied onto `to`: a
/// carried-over node wherever the source has one, everything else untouched.
pub open spec fn copy_at(m: FsModel, from: Seq<u8>, to: Seq<u8>, k: Seq<u8>) -> Option<
    NodeView,
> {
    if in_subtree(k, to) && m.node_at(rekey(k, to, from)) is Some {
        m.node_at(rekey(k, to, from))
    } else {
        m.node_at(k)
    }
}

impl FsModel {
    /// Move the whole subtree rooted at `from` onto `to`, as a rename does:
    /// whatever stood in either subtree before is replaced by the moved
    /// nodes.
    pub fn rename(&mut self, from: &Vec<u8>, to: &Vec<u8>)
        requires
            old(self).inv(),
            from@.len() > 0,
            to@.len() > 0,
            !is_root(from@),
            !is_root(to@),
        ensures
            final(self).inv(),
            forall|k: Seq<u8>|
                #[trigger] final(self).node_at(k) == rename_at(*old(self), from@, to@, k),
    {
        let ghost s = self.entries@;
        let n = self.entries.len();
        let mut kept: Vec<FsEntry> = Vec::new();
        let mut moved: Vec<FsEntry> = Vec::new();
        let mut i: usize = 0;
        proof {
            assert(s.take(0).len() == 0);
        }
        while i < n
            invariant
                s == self.entries@,
                n == s.len(),
                i <= n,
                distinct_keys(s),
                from@.len() > 0,
                to@.len() > 0,
                !is_root(from@),
                !is_root(to@),
                forall|k: Seq<u8>|
                    #[trigger] lookup(kept@, k) == if in_subtree(k, to@) || in_subtree(k, from@) {
                        None::<NodeView>
                    } else {
                        lookup(s.take(i as int), k)
                    },
                forall|k: Seq<u8>| in_subtree(k, to@) ==> #[trigger] lookup(moved@, k) == lookup(
                    s.take(i as int),
                    rekey(k, to@, from@),
                ),
                forall|k: Seq<u8>| !in_subtree(k, to@) ==> #[trigger] lookup(moved@, k) is None,
                distinct_keys(kept@),
                distinct_keys(moved@),
                forall|a: int| 0 <= a < kept@.len() ==> !in_subtree(#[trigger] kept@[a].path@, to@)
                    && !in_subtree(kept@[a].path@, from@),
                forall|a: int| 0 <= a < moved@.len() ==> in_subtree(
                    #[trigger] moved@[a].path@,
                    to@,
                ),
            decreases n - i,
        {
            proof {
                assert(s.take(i as int + 1).drop_last() =~= s.take(i as int));
                assert(s.take(i as int + 1).last() == s[i as int]);
            }
            let e = &self.entries[i];
            let under_from = in_subtree_path(&e.path, from);
            let under_to = in_subtree_path(&e.path, to);
            let ghost kprev = kept@;
            if under_from {
                let newp = rekey_path(&e.path, from, to);
                let node = clone_node(&e.node);
                let ghost m0 = moved@;
                proof {
                    lemma_rekey_round(s[i as int].path@, from@, to@);
                    assert(lookup(m0, newp@) == lookup(s.take(i as int), s[i as int].path@));
                    assert forall|j: int| 0 <= j < i implies s.take(i as int)[j].path@
                        != s[i as int].path@ by {
                        assert(s[j] == s.take(i as int)[j]);
                    }
                    lemma_lookup_fresh(s.take(i as int), s[i as int].path@);
                }
                moved.push(FsEntry { path: newp, node });
                proof {
                    assert(moved@.drop_last() =~= m0);
                    assert(moved@.last().path@ == rekey(s[i as int].path@, from@, to@));
                    assert forall|k: Seq<u8>| in_subtree(k, to@) implies #[trigger] lookup(
                        moved@,
                        k,
                    ) == lookup(s.take(i as int + 1), rekey(k, to@, from@)) by {
                        lemma_rekey_round(k, to@, from@);
                        lemma_rekey_round(s[i as int].path@, from@, to@);
                        if k == moved@.last().path@ {
                            assert(rekey(k, to@, from@) == s[i as int].path@);
                            assert(lookup(moved@, k) == Some(moved@.last().node@));
                            assert(lookup(s.take(i as int + 1), s[i as int].path@) == Some(
                                s[i as int].node@,
                            ));
                        } else {
                            assert(rekey(k, to@, from@) != s[i as int].path@);
                            assert(lookup(moved@, k) == lookup(m0, k));
                        }
                    }
                    assert forall|k: Seq<u8>| !in_subtree(k, to@) implies #[trigger] lookup(
                        moved@,
                        k,
                    ) is None by {
                        assert(moved@.last().path@ != k);
                        assert(lookup(moved@, k) == lookup(m0, k));
                    }
                    assert forall|a: int| 0 <= a < moved@.len() - 1 implies moved@[a].path@
                        != moved@.last().path@ by {
                        lemma_lookup_position(m0, a);
                    }
                }
            }
            if !under_from && !under_to {
                let path = e.path.clone();
                let node = clone_node(&e.node);
                proof {
                    assert(path@ =~= s[i as int].path@);
                }
                proof {
                    assert(lookup(kprev, path@) == lookup(s.take(i as int), path@));
                    assert forall|j: int| 0 <= j < i implies s.take(i as int)[j].path@
                        != s[i as int].path@ by {
                        assert(s[j] == s.take(i as int)[j]);
                    }
                    lemma_lookup_fresh(s.take(i as int), s[i as int].path@);
                }
                kept.push(FsEntry { path, node });
                proof {
                    assert(kept@.drop_last() =~= kprev);
                    assert forall|a: int| 0 <= a < kept@.len() - 1 implies kept@[a].path@
                        != kept@.last().path@ by {
                        lemma_lookup_position(kprev, a);
                    }
                }
            }
            if !under_from {
                proof {
                    assert forall|k: Seq<u8>| in_subtree(k, to@) implies #[trigger] lookup(
                        moved@,
                        k,
                    ) == lookup(s.take(i as int + 1), rekey(k, to@, from@)) by {
                        lemma_rekey_round(k, to@, from@);
                        assert(rekey(k, to@, from@) != s[i as int].path@);
                    }
                }
            }
            proof {
                assert forall|k: Seq<u8>|
                    #[trigger] lookup(kept@, k) == (if in_subtree(k, to@) || in_subtree(k, from@) {
                        None::<NodeView>
                    } else {
                        lookup(s.take(i as int + 1), k)
                    }) by {
                    if !under_from && !under_to {
                        assert(lookup(kept@, k) == if k == s[i as int].path@ {
                            Some(s[i as int].node@)
                        } else {
                            lookup(kprev, k)
                        });
                    } else {
                        assert(kept@ == kprev);
                    }
                    if k != s[i as int].path@ {
                        assert(lookup(s.take(i as int + 1), k) == lookup(s.take(i as int), k));
                    }
                }
            }
            i = i + 1;
        }
        proof {
            assert(s.take(n as int) =~= s);
        }
        let ghost base = kept@;
        let ghost bigm = moved@;
        proof {
            assert(base + bigm.take(0) =~= base);
            assert(bigm.skip(0) =~= bigm);
            assert(forall|k: Seq<u8>|
                #[trigger] lookup(base, k) == if in_subtree(k, to@) || in_subtree(k, from@) {
                    None::<NodeView>
                } else {
                    lookup(s, k)
                });
            assert(forall|k: Seq<u8>| in_subtree(k, to@) ==> #[trigger] lookup(bigm, k) == lookup(
                s,
                rekey(k, to@, from@),
            ));
            assert(forall|k: Seq<u8>| !in_subtree(k, to@) ==> #[trigger] lookup(bigm, k) is None);
        }
        let ghost mut t: int = 0;
        while moved.len() > 0
            invariant
                0 <= t <= bigm.len(),
                moved@ == bigm.skip(t),
                kept@ == base + bigm.take(t),
                distinct_keys(bigm),
                distinct_keys(kept@),
                forall|a: int| 0 <= a < bigm.len() ==> in_subtree(#[trigger] bigm[a].path@, to@),
                forall|a: int| 0 <= a < base.len() ==> !in_subtree(#[trigger] base[a].path@, to@),
                forall|k: Seq<u8>|
                    #[trigger] lookup(kept@, k) == if lookup(bigm.take(t), k) is Some {
                        lookup(bigm.take(t), k)
                    } else {
                        lookup(base, k)
                    },
            decreases moved@.len(),
        {
            proof {
                assert(moved@[0] == bigm[t]);
                assert(bigm.take(t + 1).drop_last() =~= bigm.take(t));
                assert(bigm.take(t + 1).last() == bigm[t]);
            }
            let ghost k0 = kept@;
            proof {
                assert forall|a: int| 0 <= a < k0.len() implies k0[a].path@ != bigm[t].path@ by {
                    if a < base.len() {
                        assert(k0[a] == base[a]);
                    } else {
                        assert(k0[a] == bigm.take(t)[a - base.len()]);
                        assert(k0[a] == bigm[a - base.len()]);
                    }
                }
            }
            let e = moved.remove(0);
            kept.push(e);
            proof {
                assert(moved@ =~= bigm.skip(t + 1));
                assert(kept@.drop_last() =~= k0);
                assert(kept@ =~= base + bigm.take(t + 1));
                assert forall|k: Seq<u8>|
                    #[trigger] lookup(kept@, k) == if lookup(bigm.take(t + 1), k) is Some {
                        lookup(bigm.take(t + 1), k)
                    } else {
                        lookup(base, k)
                    } by {
                    if k == bigm[t].path@ {
                        assert(lookup(kept@, k) == Some(bigm[t].node@));
                    } else {
                        assert(lookup(kept@, k) == lookup(k0, k));
                        assert(lookup(bigm.take(t + 1), k) == lookup(bigm.take(t), k));
                    }
                }
                t = t + 1;
            }
        }
        proof {
            assert(t == bigm.len());
            assert(bigm.take(t) =~= bigm);
        }
        self.entries = kept;
        proof {
            assert(old(self).entries@ == s);
            assert forall|k: Seq<u8>|
                #[trigger] lookup(self.entries@, k) == rename_at(*old(self), from@, to@, k) by {
            }
        }
    }

    /// Copy the whole subtree rooted at `from` onto `to`: wherever the
    /// source holds a node, the destination receives a copy of it; paths the
    /// source does not mirror are left as they were.
    pub fn copy_tree(&mut self, from: &Vec<u8>, to: &Vec<u8>)
        requires
            old(self).inv(),
            from@.len() > 0,
            to@.len() > 0,
            !is_root(from@),
            !is_root(to@),
        ensures
            final(self).inv(),
            forall|k: Seq<u8>|
                #[trigger] final(self).node_at(k) == copy_at(*old(self), from@, to@, k),
    {
        let ghost s = self.entries@;
        let n = self.entries.len();
        let mut kept: Vec<FsEntry> = Vec::new();
        let mut moved: Vec<FsEntry> = Vec::new();
        let mut i: usize = 0;
        proof {
            assert(s.take(0).len() == 0);
        }
        while i < n
            invariant
                s == self.entries@,
                n == s.len(),
                i <= n,
                distinct_keys(s),
                from@.len() > 0,
                to@.len() > 0,
                !is_root(from@),
                !is_root(to@),
                forall|k: Seq<u8>|
                    #[trigger] lookup(kept@, k) == if in_subtree(k, to@) && lookup(
                        s,
                        rekey(k, to@, from@),
                    ) is Some {
                        None::<NodeView>
                    } else {
                        lookup(s.take(i as int), k)
                    },
                forall|k: Seq<u8>| in_subtree(k, to@) ==> #[trigger] lookup(moved@, k) == lookup(
                    s.take(i as int),
                    rekey(k, to@, from@),
                ),
                forall|k: Seq<u8>| !in_subtree(k, to@) ==> #[trigger] lookup(moved@, k) is None,
                distinct_keys(kept@),
                distinct_keys(moved@),
                forall|a: int| 0 <= a < moved@.len() ==> in_subtree(
                    #[trigger] moved@[a].path@,
                    to@,
                ),
            decreases n - i,
        {
            proof {
                assert(s.take(i as int + 1).drop_last() =~= s.take(i as int));
                assert(s.take(i as int + 1).last() == s[i as int]);
            }
            let e = &self.entries[i];
            let under_from = in_subtree_path(&e.path, from);
            let under_to = in_subtree_path(&e.path, to);
            let ghost kprev = kept@;
            let mut dropped = false;
            if under_to {
                let src = rekey_path(&e.path, to, from);
                if self.contains(&src) {
                    dropped = true;
                }
            }
            proof {
                assert(dropped == (in_subtree(s[i as int].path@, to@) && lookup(
                    s,
                    rekey(s[i as int].path@, to@, from@),
                ) is Some));
            }
            if under_from {
                let newp = rekey_path(&e.path, from, to);
                let node = clone_node(&e.node);
                let ghost m0 = moved@;
                proof {
                    lemma_rekey_round(s[i as int].path@, from@, to@);
                    assert(lookup(m0, newp@) == lookup(s.take(i as int), s[i as int].path@));
                    assert forall|j: int| 0 <= j < i implies s.take(i as int)[j].path@
                        != s[i as int].path@ by {
                        assert(s[j] == s.take(i as int)[j]);
                    }
                    lemma_lookup_fresh(s.take(i as int), s[i as int].path@);
                }
                moved.push(FsEntry { path: newp, node });
                proof {
                    assert(moved@.drop_last() =~= m0);
                    assert(moved@.last().path@ == rekey(s[i as int].path@, from@, to@));
                    assert forall|k: Seq<u8>| in_subtree(k, to@) implies #[trigger] lookup(
                        moved@,
                        k,
                    ) == lookup(s.take(i as int + 1), rekey(k, to@, from@)) by {
                        lemma_rekey_round(k, to@, from@);
                        lemma_rekey_round(s[i as int].path@, from@, to@);
                        if k == moved@.last().path@ {
                            assert(rekey(k, to@, from@) == s[i as int].path@);
                            assert(lookup(moved@, k) == Some(moved@.last().node@));
                            assert(lookup(s.take(i as int + 1), s[i as int].path@) == Some(
                                s[i as int].node@,
                            ));
                        } else {
                            assert(rekey(k, to@, from@) != s[i as int].path@);
                            assert(lookup(moved@, k) == lookup(m0, k));
                        }
                    }
                    assert forall|k: Seq<u8>| !in_subtree(k, to@) implies #[trigger] lookup(
                        moved@,
                        k,
                    ) is None by {
                        assert(moved@.last().path@ != k);
                        assert(lookup(moved@, k) == lookup(m0, k));
                    }
                    assert forall|a: int| 0 <= a < moved@.len() - 1 implies moved@[a].path@
                        != moved@.last().path@ by {
                        lemma_lookup_position(m0, a);
                    }
                }
            }
            if !under_from {
                proof {
                    assert forall|k: Seq<u8>| in_subtree(k, to@) implies #[trigger] lookup(
                        moved@,
                        k,
                    ) == lookup(s.take(i as int + 1), rekey(k, to@, from@)) by {
                        lemma_rekey_round(k, to@, from@);
                        assert(rekey(k, to@, from@) != s[i as int].path@);
                    }
                }
            }
            if !dropped {
                let path = e.path.clone();
                let node = clone_node(&e.node);
                proof {
                    assert(path@ =~= s[i as int].path@);
                    assert(lookup(kprev, path@) == lookup(s.take(i as int), path@));
                    assert forall|j: int| 0 <= j < i implies s.take(i as int)[j].path@
                        != s[i as int].path@ by {
                        assert(s[j] == s.take(i as int)[j]);
                    }
                    lemma_lookup_fresh(s.take(i as int), s[i as int].path@);
                }
                kept.push(FsEntry { path, node });
                proof {
                    assert(kept@.drop_last() =~= kprev);
                    assert forall|a: int| 0 <= a < kept@.len() - 1 implies kept@[a].path@
                        != kept@.last().path@ by {
                        lemma_lookup_position(kprev, a);
                    }
                }
            }
            proof {
                assert forall|k: Seq<u8>|
                    #[trigger] lookup(kept@, k) == (if in_subtree(k, to@) && lookup(
                        s,
                        rekey(k, to@, from@),
                    ) is Some {
                        None::<NodeView>
                    } else {
                        lookup(s.take(i as int + 1), k)
                    }) by {
                    if !dropped {
                        assert(lookup(kept@, k) == if k == s[i as int].path@ {
                            Some(s[i as int].node@)
                        } else {
                            lookup(kprev, k)
                        });
                    } else {
                        assert(kept@ == kprev);
                    }
                    if k != s[i as int].path@ {
                        assert(lookup(s.take(i as int + 1), k) == lookup(s.take(i as int), k));
                    }
                }
            }
            i = i + 1;
        }
        proof {
            assert(s.take(n as int) =~= s);
        }
        let ghost base = kept@;
        let ghost bigm = moved@;
        proof {
            assert(base + bigm.take(0) =~= base);
            assert(bigm.skip(0) =~= bigm);
            assert(forall|k: Seq<u8>|
                #[trigger] lookup(base, k) == if in_subtree(k, to@) && lookup(
                    s,
                    rekey(k, to@, from@),
                ) is Some {
                    None::<NodeView>
                } else {
                    lookup(s, k)
                });
            assert(forall|k: Seq<u8>| in_subtree(k, to@) ==> #[trigger] lookup(bigm, k) == lookup(
                s,
                rekey(k, to@, from@),
            ));
            assert(forall|k: Seq<u8>| !in_subtree(k, to@) ==> #[trigger] lookup(bigm, k) is None);
        }
        let ghost mut t: int = 0;
        while moved.len() > 0
            invariant
                0 <= t <= bigm.len(),
                moved@ == bigm.skip(t),
                kept@ == base + bigm.take(t),
                distinct_keys(bigm),
                distinct_keys(kept@),
                forall|a: int| 0 <= a < bigm.len() ==> in_subtree(#[trigger] bigm[a].path@, to@),
                forall|k: Seq<u8>| in_subtree(k, to@) ==> #[trigger] lookup(bigm, k) == lookup(
                    s,
                    rekey(k, to@, from@),
                ),
                forall|k: Seq<u8>|
                    #[trigger] lookup(base, k) == if in_subtree(k, to@) && lookup(
                        s,
                        rekey(k, to@, from@),
                    ) is Some {
                        None::<NodeView>
                    } else {
                        lookup(s, k)
                    },
                forall|k: Seq<u8>|
                    #[trigger] lookup(kept@, k) == if lookup(bigm.take(t), k) is Some {
                        lookup(bigm.take(t), k)
                    } else {
                        lookup(base, k)
                    },
            decreases moved@.len(),
        {
            proof {
                assert(moved@[0] == bigm[t]);
                assert(bigm.take(t + 1).drop_last() =~= bigm.take(t));
                assert(bigm.take(t + 1).last() == bigm[t]);
            }
            let ghost k0 = kept@;
            proof {
                lemma_lookup_position(bigm, t);
                assert(lookup(base, bigm[t].path@) is None);
                assert forall|a: int| 0 <= a < k0.len() implies k0[a].path@ != bigm[t].path@ by {
                    if a < base.len() {
                        assert(k0[a] == base[a]);
                        lemma_lookup_position(base, a);
                    } else {
                        assert(k0[a] == bigm.take(t)[a - base.len()]);
                        assert(k0[a] == bigm[a - base.len()]);
                    }
                }
            }
            let e = moved.remove(0);
            kept.push(e);
            proof {
                assert(moved@ =~= bigm.skip(t + 1));
                assert(kept@.drop_last() =~= k0);
                assert(kept@ =~= base + bigm.take(t + 1));
                assert forall|k: Seq<u8>|
                    #[trigger] lookup(kept@, k) == if lookup(bigm.take(t + 1), k) is Some {
                        lookup(bigm.take(t + 1), k)
                    } else {
                        lookup(base, k)
                    } by {
                    if k == bigm[t].path@ {
                        assert(lookup(kept@, k) == Some(bigm[t].node@));
                    } else {
                        assert(lookup(kept@, k) == lookup(k0, k));
                        assert(lookup(bigm.take(t + 1), k) == lookup(bigm.take(t), k));
                    }
                }
                t = t + 1;
            }
        }
        proof {
            assert(t == bigm.len());
            assert(bigm.take(t) =~= bigm);
        }
        self.entries = kept;
        proof {
            assert(old(self).entries@ == s);
            assert forall|k: Seq<u8>|
                #[trigger] lookup(self.entries@, k) == copy_at(*old(self), from@, to@, k) by {
            }
        }
    }
}


pub proof fn lemma_lookup_index(s: Seq<FsEntry>, k: Seq<u8>)
    requires
        lookup(s, k) is Some,
    ensures
        exists|i: int| 0 <= i < s.len() && s[i].path@ == k,
    decreases s.len(),
{
    if s.last().path@ == k {
        assert(s[s.len() - 1].path@ == k);
    } else {
        lemma_lookup_index(s.drop_last(), k);
        let i = choose|i: int| 0 <= i < s.drop_last().len() && s.drop_last()[i].path@ == k;
        assert(s[i].path@ == k);
    }
}

/// The table as a total function from path to occupant.
pub open spec fn fs_fn(m: FsModel) -> spec_fn(Seq<u8>) -> Option<NodeView> {
    |k: Seq<u8>| m.node_at(k)
}

/// The state after `n` is written at `p`.
pub open spec fn written(
    f: spec_fn(Seq<u8>) -> Option<NodeView>,
    p: Seq<u8>,
    n: NodeView,
) -> spec_fn(Seq<u8>) -> Option<NodeView> {
    |k: Seq<u8>|
        if k == p {
            Some(n)
        } else {
            f(k)
        }
}

/// The state after whatever lives at `p` (exactly `p`) is removed.
pub open spec fn erased(f: spec_fn(Seq<u8>) -> Option<NodeView>, p: Seq<u8>) -> spec_fn(
    Seq<u8>,
) -> Option<NodeView> {
    |k: Seq<u8>|
        if k == p {
            None
        } else {
            f(k)
        }
}

/// The state after every missing ancestor of `p` becomes a directory.
pub open spec fn parents_added(f: spec_fn(Seq<u8>) -> Option<NodeView>, p: Seq<u8>) -> spec_fn(
    Seq<u8>,
) -> Option<NodeView> {
    |k: Seq<u8>|
        if strictly_under(p, k) && f(k) is None {
            Some(NodeView::Dir)
        } else {
            f(k)
        }
}

/// The state after the subtree of `from` is moved onto `to`.
pub open spec fn renamed(
    f: spec_fn(Seq<u8>) -> Option<NodeView>,
    from: Seq<u8>,
    to: Seq<u8>,
) -> spec_fn(Seq<u8>) -> Option<NodeView> {
    |k: Seq<u8>|
        if in_subtree(k, to) {
            f(rekey(k, to, from))
        } else if in_subtree(k, from) {
            None
        } else {
            f(k)
        }
}

/// The state after the subtree of `from` is copied onto `to`.
pub open spec fn copied(
    f: spec_fn(Seq<u8>) -> Option<NodeView>,
    from: Seq<u8>,
    to: Seq<u8>,
) -> spec_fn(Seq<u8>) -> Option<NodeView> {
    |k: Seq<u8>|
        if in_subtree(k, to) && f(rekey(k, to, from)) is Some {
            f(rekey(k, to, from))
        } else {
            f(k)
        }
}

/// Every proper ancestor of `p` is free to become (or already is) a
/// directory.
pub open spec fn parents_ok(m: FsModel, p: Seq<u8>) -> bool {
    forall|q: Seq<u8>|
        strictly_under(p, q) ==> m.node_at(q) is None || m.node_at(q) == Some(NodeView::Dir)
}

/// The immediate children of `dir` that the table holds, or nothing when
/// `dir` is not a directory.
pub fn read_dir(fs: &FsModel, dir: &Vec<u8>) -> (r: Option<Vec<Vec<u8>>>)
    ensures
        match r {
            Some(v) => fs.dir_at(dir@) && (forall|a: int|
                0 <= a < v@.len() ==> parent_spec(#[trigger] v@[a]@) == Some(dir@) && fs.has(
                    v@[a]@,
                )) && (forall|k: Seq<u8>|
                fs.has(k) && parent_spec(k) == Some(dir@) ==> exists|a: int|
                    0 <= a < v@.len() && #[trigger] v@[a]@ == k),
            None => !fs.dir_at(dir@),
        },
{
    if !fs.is_dir(dir) {
        return None;
    }
    let ghost s = fs.entries@;
    let n = fs.entries.len();
    let mut out: Vec<Vec<u8>> = Vec::new();
    let mut i: usize = 0;
    while i < n
        invariant
            s == fs.entries@,
            n == s.len(),
            i <= n,
            forall|a: int|
                0 <= a < out@.len() ==> parent_spec(#[trigger] out@[a]@) == Some(dir@) && fs.has(
                    out@[a]@,
                ),
            forall|j: int|
                0 <= j < i && parent_spec(#[trigger] s[j].path@) == Some(dir@) ==> exists|a: int|
                    0 <= a < out@.len() && #[trigger] out@[a]@ == s[j].path@,
        decreases n - i,
    {
        let e = &fs.entries[i];
        let is_child = match parent_path(&e.path) {
            Some(d) => eq_bytes(&d, dir),
            None => false,
        };
        if is_child {
            proof {
                lemma_lookup_position(s, i as int);
            }
            let p = e.path.clone();
            proof {
                assert(p@ =~= s[i as int].path@);
            }
            let ghost o0 = out@;
            out.push(p);
            proof {
                assert forall|j: int|
                    0 <= j < i + 1 && parent_spec(#[trigger] s[j].path@) == Some(dir@)
                    implies exists|a: int|
                    0 <= a < out@.len() && #[trigger] out@[a]@ == s[j].path@ by {
                    if j < i {
                        let a = choose|a: int| 0 <= a < o0.len() && #[trigger] o0[a]@ == s[j].path@;
                        assert(out@[a]@ == s[j].path@);
                    } else {
                        assert(out@[out@.len() - 1]@ == s[j].path@);
                    }
                }
            }
        }
        i = i + 1;
    }
    proof {
        assert forall|k: Seq<u8>| fs.has(k) && parent_spec(k) == Some(dir@) implies exists|a: int|
            0 <= a < out@.len() && #[trigger] out@[a]@ == k by {
            lemma_lookup_index(s, k);
        }
    }
    Some(out)
}

/// Whether the directory at `dir` has no children, or nothing when `dir` is
/// not a directory.
pub fn is_empty(fs: &FsModel, dir: &Vec<u8>) -> (r: Option<bool>)
    ensures
        match r {
            Some(b) => fs.dir_at(dir@) && (b <==> forall|k: Seq<u8>|
                !(#[trigger] fs.has(k) && parent_spec(k) == Some(dir@))),
            None => !fs.dir_at(dir@),
        },
{
    match read_dir(fs, dir) {
        Some(v) => {
            let b = v.len() == 0;
            proof {
                if v@.len() > 0 {
                    assert(fs.has(v@[0]@) && parent_spec(v@[0]@) == Some(dir@));
                }
            }
            Some(b)
        },
        None => None,
    }
}

impl FsModel {
    /// Make a directory of every missing proper ancestor of `p`. Returns
    /// false, changing nothing, when some ancestor is present but not a
    /// directory.
    pub fn create_parent_dir(&mut self, p: &Vec<u8>) -> (ok: bool)
        requires
            old(self).inv(),
        ensures
            final(self).inv(),
            ok == parents_ok(*old(self), p@),
            !ok ==> final(self).entries@ == old(self).entries@,
            ok ==> forall|k: Seq<u8>|
                #[trigger] final(self).node_at(k) == parents_added(fs_fn(*old(self)), p@)(k),
    {
        let mut root: Vec<u8> = Vec::new();
        root.push(47u8);
        proof {
            assert(root@ =~= seq![sep()]);
        }
        let abs_deep = is_absolute(p) && p.len() > 1;
        // First pass: refuse if any present ancestor is not a directory.
        if abs_deep && self.contains(&root) && !self.is_dir(&root) {
            proof {
                assert(p@.take(1) =~= seq![sep()]);
                assert(strictly_under(p@, root@));
            }
            return false;
        }
        let n = p.len();
        let mut c: usize = 1;
        while c < n
            invariant
                self == old(self),
                self.inv(),
                n == p@.len(),
                1 <= c,
                forall|q: Seq<u8>|
                    strictly_under(p@, q) && !is_root(q) && q.len() < c ==> self.node_at(q) is None
                        || self.node_at(q) == Some(NodeView::Dir),
            decreases n - c,
        {
            if p[c] == 47u8 {
                let q = sub_bytes(p, 0, c);
                proof {
                    assert(q@ =~= p@.take(c as int));
                }
                if self.contains(&q) && !self.is_dir(&q) {
                    proof {
                        assert(strictly_under(p@, q@));
                    }
                    return false;
                }
            }
            proof {
                assert forall|q: Seq<u8>|
                    strictly_under(p@, q) && !is_root(q) && q.len() < c + 1 implies self.node_at(
                    q,
                ) is None || self.node_at(q) == Some(NodeView::Dir) by {
                    if q.len() == c {
                        assert(q == p@.take(c as int));
                    }
                }
            }
            c = c + 1;
        }
        proof {
            assert forall|q: Seq<u8>| strictly_under(p@, q) implies self.node_at(q) is None
                || self.node_at(q) == Some(NodeView::Dir) by {
                if is_root(q) {
                    assert(q == seq![sep()]);
                    assert(p@[0] == sep());
                    assert(p@.len() > 1);
                } else {
                    assert(q.len() < n);
                }
            }
        }
        // Second pass: insert the missing directories.
        let ghost f0 = fs_fn(*self);
        if abs_deep {
            if !self.contains(&root) {
                self.set_node(&root, Node::Dir);
            }
        }
        proof {
            assert forall|k: Seq<u8>|
                #[trigger] self.node_at(k) == (if strictly_under(p@, k) && (is_root(k) || k.len()
                    < 1) && f0(k) is None {
                    Some(NodeView::Dir)
                } else {
                    f0(k)
                }) by {
                if is_root(k) && strictly_under(p@, k) {
                    assert(k == seq![sep()]);
                    assert(p@[0] == sep());
                    assert(p@.len() > 1);
                }
            }
        }
        let mut c: usize = 1;
        while c < n
            invariant
                self.inv(),
                n == p@.len(),
                1 <= c,
                forall|k: Seq<u8>|
                    #[trigger] self.node_at(k) == (if strictly_under(p@, k) && (is_root(k)
                        || k.len() < c) && f0(k) is None {
                        Some(NodeView::Dir)
                    } else {
                        f0(k)
                    }),
            decreases n - c,
        {
            if p[c] == 47u8 {
                let q = sub_bytes(p, 0, c);
                proof {
                    assert(q@ =~= p@.take(c as int));
                }
                if !self.contains(&q) {
                    self.set_node(&q, Node::Dir);
                }
            }
            proof {
                assert forall|k: Seq<u8>|
                    #[trigger] self.node_at(k) == (if strictly_under(p@, k) && (is_root(k)
                        || k.len() < c + 1) && f0(k) is None {
                        Some(NodeView::Dir)
                    } else {
                        f0(k)
                    }) by {
                    if k.len() == c && strictly_under(p@, k) && !is_root(k) {
                        assert(k == p@.take(c as int));
                        assert(p@[c as int] == sep());
                    }
                }
            }
            c = c + 1;
        }
        proof {
            assert forall|k: Seq<u8>|
                #[trigger] self.node_at(k) == parents_added(f0, p@)(k) by {
                if strictly_under(p@, k) && !is_root(k) {
                    assert(k.len() < n);
                }
            }
        }
        true
    }
}


/// A run of pairwise-distinct keys that all occur in the table is no longer
/// than the table.
pub proof fn lemma_visited_bound(s: Seq<FsEntry>, vs: Seq<Seq<u8>>)
    requires
        forall|a: int, b: int| 0 <= a < b < vs.len() ==> vs[a] != vs[b],
        forall|a: int| 0 <= a < vs.len() ==> lookup(s, #[trigger] vs[a]) is Some,
    ensures
        vs.len() <= s.len(),
{
    broadcast use vstd::seq_lib::group_seq_properties;

    let keys = s.map(|i: int, e: FsEntry| e.path@);
    assert forall|x: Seq<u8>| vs.to_set().contains(x) implies keys.to_set().contains(x) by {
        let a = choose|a: int| 0 <= a < vs.len() && vs[a] == x;
        lemma_lookup_index(s, x);
        let i = choose|i: int| 0 <= i < s.len() && s[i].path@ == x;
        assert(keys[i] == x);
    }
    assert(vs.no_duplicates()) by {
        assert forall|a: int, b: int|
            0 <= a < vs.len() && 0 <= b < vs.len() && a != b implies vs[a] != vs[b] by {
            if a < b {
            } else {
            }
        }
    }
    vs.unique_seq_to_set();
    keys.lemma_cardinality_of_set();
    vstd::set_lib::lemma_len_subset(vs.to_set(), keys.to_set());
}

} // verus!
