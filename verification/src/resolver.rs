//! Canonicalizing paths against the filesystem model.
//!
//! A path is resolved by expanding a leading home-directory shorthand, then
//! chasing symbolic links; a path whose tail does not exist yet is resolved
//! as far as its deepest existing ancestor, with the missing remainder
//! re-appended untouched.

use crate::fs_model::{FsModel, Node, NodeView};
use crate::paths::{extend_bytes, parent_path, parent_spec, sep, sub_bytes, PathError};
use vstd::prelude::*;

verus! {

/// How many symbolic links a resolution follows before treating the chain
/// as unresolvable.
pub const LINK_CHASE_LIMIT: u64 = 64;

/// The leading shorthand byte for the home directory (`~`).
pub open spec fn tilde() -> u8 {
    126u8
}

/// The path `p` chased through symbolic links, `fuel` hops allowed: the
/// first non-link it reaches, or nothing for a dangling or too-deep chain.
pub open spec fn resolve_spec(m: FsModel, p: Seq<u8>, fuel: nat) -> Option<Seq<u8>>
    decreases fuel,
{
    match m.node_at(p) {
        Some(NodeView::Symlink(t)) => {
            if fuel == 0 {
                None
            } else {
                resolve_spec(m, t, (fuel - 1) as nat)
            }
        },
        Some(_) => Some(p),
        None => None,
    }
}

fn resolve_fuel(fs: &FsModel, p: &Vec<u8>, fuel: u64) -> (r: Option<Vec<u8>>)
    ensures
        match r {
            Some(q) => resolve_spec(*fs, p@, fuel as nat) == Some(q@),
            None => resolve_spec(*fs, p@, fuel as nat) is None,
        },
    decreases fuel,
{
    match fs.node_of(p) {
        Some(Node::Symlink(t)) => {
            if fuel == 0 {
                None
            } else {
                let target = t.clone();
                proof {
                    assert(target@ =~= t@);
                }
                resolve_fuel(fs, &target, fuel - 1)
            }
        },
        Some(_) => {
            let q = p.clone();
            proof {
                assert(q@ =~= p@);
            }
            Some(q)
        },
        None => None,
    }
}

/// The existing path `p` in symlink-free form: links chased to what they
/// name, up to `LINK_CHASE_LIMIT` hops.
pub fn resolve(fs: &FsModel, p: &Vec<u8>) -> (r: Option<Vec<u8>>)
    ensures
        match r {
            Some(q) => resolve_spec(*fs, p@, LINK_CHASE_LIMIT as nat) == Some(q@),
            None => resolve_spec(*fs, p@, LINK_CHASE_LIMIT as nat) is None,
        },
{
    resolve_fuel(fs, p, LINK_CHASE_LIMIT)
}

/// Canonical form of `p`: the resolved path when `p` exists, else the
/// canonical form of its parent with the missing last component re-appended.
pub open spec fn canon_spec(m: FsModel, p: Seq<u8>) -> Option<Seq<u8>>
    decreases p.len(),
{
    if m.has(p) {
        resolve_spec(m, p, LINK_CHASE_LIMIT as nat)
    } else {
        match parent_spec(p) {
            Some(d) => {
                if d.len() < p.len() {
                    match canon_spec(m, d) {
                        Some(c) => Some(c + p.skip(d.len() as int)),
                        None => None,
                    }
                } else {
                    None
                }
            },
            None => None,
        }
    }
}

/// Canonicalize `path` even when a tail of it does not exist yet, as
/// `canon_spec` describes.
pub fn canonicalize_missing(fs: &FsModel, path: &Vec<u8>) -> (r: Option<Vec<u8>>)
    ensures
        match r {
            Some(q) => canon_spec(*fs, path@) == Some(q@),
            None => canon_spec(*fs, path@) is None,
        },
    decreases path@.len(),
{
    if fs.contains(path) {
        resolve(fs, path)
    } else {
        match parent_path(path) {
            Some(d) => {
                if d.len() < path.len() {
                    match canonicalize_missing(fs, &d) {
                        Some(mut c) => {
                            let suffix = sub_bytes(path, d.len(), path.len());
                            let ghost c0 = c@;
                            extend_bytes(&mut c, &suffix);
                            proof {
                                assert(c@ =~= c0 + path@.skip(d@.len() as int));
                            }
                            Some(c)
                        },
                        None => None,
                    }
                } else {
                    None
                }
            },
            None => None,
        }
    }
}

/// `p` with a leading home shorthand replaced by `home`: `~` alone becomes
/// `home`, a leading `~/` becomes `home` plus the rest, anything else is
/// returned as it came.
pub open spec fn expand_home_spec(home: Seq<u8>, p: Seq<u8>) -> Seq<u8> {
    if p == seq![tilde()] {
        home
    } else if p.len() >= 2 && p[0] == tilde() && p[1] == sep() {
        home + p.skip(1)
    } else {
        p
    }
}

/// Expand a leading home-directory shorthand in `path`.
pub fn expand_home(home: &Vec<u8>, path: &Vec<u8>) -> (r: Vec<u8>)
    ensures
        r@ == expand_home_spec(home@, path@),
{
    if path.len() == 1 && path[0] == 126u8 {
        let r = home.clone();
        proof {
            assert(r@ =~= home@);
            assert(path@ =~= seq![tilde()]);
        }
        r
    } else if path.len() >= 2 && path[0] == 126u8 && path[1] == 47u8 {
        let mut r = home.clone();
        proof {
            assert(r@ =~= home@);
        }
        let rest = sub_bytes(path, 1, path.len());
        extend_bytes(&mut r, &rest);
        proof {
            assert(r@ =~= home@ + path@.skip(1));
            assert(path@ != seq![tilde()]);
        }
        r
    } else {
        let r = path.clone();
        proof {
            assert(r@ =~= path@);
            if path@.len() == 1 && path@[0] == tilde() {
                assert(path@ =~= seq![tilde()]);
            }
        }
        r
    }
}

/// Canonicalize `path` for the home directory `home`: expand the home
/// shorthand, then resolve through links and missing tails. Fails with
/// `ResolutionError` when no existing ancestor anchors the path.
pub fn canonicalize(fs: &FsModel, home: &Vec<u8>, path: &Vec<u8>) -> (r: Result<
    Vec<u8>,
    PathError,
>)
    ensures
        canon_spec(*fs, expand_home_spec(home@, path@)) is Some ==> (r matches Ok(c) && Some(c@)
            == canon_spec(*fs, expand_home_spec(home@, path@))),
        canon_spec(*fs, expand_home_spec(home@, path@)) is None ==> r == Result::<
            Vec<u8>,
            PathError,
        >::Err(PathError::ResolutionError),
{
    let expanded = expand_home(home, path);
    match canonicalize_missing(fs, &expanded) {
        Some(c) => Ok(c),
        None => Err(PathError::ResolutionError),
    }
}


/// A successful resolution lands on an existing, non-link node.
pub proof fn lemma_resolve_exists(m: FsModel, p: Seq<u8>, fuel: nat)
    ensures
        resolve_spec(m, p, fuel) matches Some(q) ==> m.has(q) && !(m.node_at(q) matches Some(
            NodeView::Symlink(_),
        )),
    decreases fuel,
{
    match m.node_at(p) {
        Some(NodeView::Symlink(t)) => {
            if fuel > 0 {
                lemma_resolve_exists(m, t, (fuel - 1) as nat);
            }
        },
        _ => {},
    }
}

} // verus!
