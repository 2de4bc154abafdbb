//! The scratch area: one uniquely named temporary directory per
//! overwrite-enabled restore, receiving whatever content the restore
//! displaces, keyed by the same relative paths. It is removed on release
//! only when nothing was displaced into it.

use crate::fs_model::{is_empty, FsModel, Node, NodeView};
use crate::paths::{extend_bytes, join, join_spec, parent_path, parent_spec};
use rand::distributions::Alphanumeric;
use rand::Rng;
use vstd::prelude::*;

verus! {

/// How many random bytes name a scratch directory.
pub const SCRATCH_SUFFIX_LEN: usize = 7;

/// An ASCII letter or digit.
pub open spec fn is_alnum_byte(b: u8) -> bool {
    48 <= b <= 57 || 65 <= b <= 90 || 97 <= b <= 122
}

/// Relies on rand's `thread_rng` sampling the `Alphanumeric` distribution:
/// `size` bytes, each an ASCII letter or digit. The values drawn depend on
/// the generator's state, so nothing more is promised of them.
#[verifier::external_body]
pub fn random_string(size: usize) -> (r: Vec<u8>)
    ensures
        r@.len() == size,
        forall|i: int| 0 <= i < r@.len() ==> is_alnum_byte(#[trigger] r@[i]),
{
    rand::thread_rng().sample_iter(&Alphanumeric).take(size).collect()
}

/// Why the scratch area could not be set up or torn down.
#[derive(Clone, Copy, Debug, PartialEq, Eq, Structural)]
pub enum ScratchError {
    /// The directory could not be created or removed.
    DirError,
}

/// The scratch directory for one restore invocation.
pub struct OverwriteTempDir {
    pub temp_dir: Vec<u8>,
}

impl OverwriteTempDir {
    /// The scratch location for the managed relative path `path`: the same
    /// relative structure, rooted in the scratch directory.
    pub fn entry(&self, path: &Vec<u8>) -> (r: Vec<u8>)
        ensures
            r@ == join_spec(self.temp_dir@, path@),
    {
        join(&self.temp_dir, path)
    }
}

/// Create the scratch directory under `tmp_root`, named `prefix` plus a
/// random alphanumeric suffix. Fails, changing nothing, only when the name
/// it drew is taken or its place is not free under a directory.
pub fn create_overwrite_temp_dir(fs: &mut FsModel, tmp_root: &Vec<u8>, prefix: &Vec<u8>) -> (r:
    Result<OverwriteTempDir, ScratchError>)
    requires
        old(fs).inv(),
    ensures
        final(fs).inv(),
        r matches Err(e) ==> e == ScratchError::DirError && final(fs).entries@ == old(
            fs,
        ).entries@ && (exists|sfx: Seq<u8>|
            sfx.len() == SCRATCH_SUFFIX_LEN && (forall|i: int|
                0 <= i < sfx.len() ==> is_alnum_byte(#[trigger] sfx[i])) && (old(fs).has(
                #[trigger] join_spec(tmp_root@, prefix@ + sfx),
            ) || !(parent_spec(join_spec(tmp_root@, prefix@ + sfx)) matches Some(q) && old(
                fs,
            ).dir_at(q)))),
        r matches Ok(o) ==> {
            &&& !old(fs).has(o.temp_dir@)
            &&& (exists|sfx: Seq<u8>|
                sfx.len() == SCRATCH_SUFFIX_LEN && (forall|i: int|
                    0 <= i < sfx.len() ==> is_alnum_byte(#[trigger] sfx[i]))
                    && #[trigger] o.temp_dir@ == join_spec(tmp_root@, prefix@ + sfx))
            &&& (parent_spec(o.temp_dir@) matches Some(d) && old(fs).dir_at(d))
            &&& forall|k: Seq<u8>| final(fs).node_at(k) == if k == o.temp_dir@ {
                Some(NodeView::Dir)
            } else {
                old(fs).node_at(k)
            }
        },
{
    let mut name = prefix.clone();
    proof {
        assert(name@ =~= prefix@);
    }
    let suffix = random_string(SCRATCH_SUFFIX_LEN);
    extend_bytes(&mut name, &suffix);
    let temp_dir = join(tmp_root, &name);
    proof {
        assert(name@ == prefix@ + suffix@);
    }
    if fs.contains(&temp_dir) {
        return Err(ScratchError::DirError);
    }
    let parent_ok = match parent_path(&temp_dir) {
        Some(d) => fs.is_dir(&d),
        None => false,
    };
    if !parent_ok {
        return Err(ScratchError::DirError);
    }
    fs.set_node(&temp_dir, Node::Dir);
    Ok(OverwriteTempDir { temp_dir })
}

/// Remove the directory at `dir`. Fails, changing nothing, unless `dir`
/// holds an empty directory.
pub fn remove_dir(fs: &mut FsModel, dir: &Vec<u8>) -> (r: Result<(), ScratchError>)
    requires
        old(fs).inv(),
    ensures
        final(fs).inv(),
        r matches Ok(_) <==> old(fs).dir_at(dir@) && (forall|k: Seq<u8>|
            !(#[trigger] old(fs).has(k) && parent_spec(k) == Some(dir@))),
        r matches Err(e) ==> e == ScratchError::DirError && final(fs).entries@ == old(
            fs,
        ).entries@,
        r matches Ok(_) ==> forall|k: Seq<u8>| final(fs).node_at(k) == if k == dir@ {
            None::<NodeView>
        } else {
            old(fs).node_at(k)
        },
{
    match is_empty(fs, dir) {
        Some(true) => {
            fs.remove_path(dir);
            Ok(())
        },
        _ => Err(ScratchError::DirError),
    }
}

/// Release the scratch area at the end of a restore: its directory is
/// removed exactly when nothing was displaced into it; otherwise it is left
/// behind, and the returned path tells the caller what to surface.
pub fn release_overwrite_temp_dir(fs: &mut FsModel, scratch: OverwriteTempDir) -> (kept: Option<
    Vec<u8>,
>)
    requires
        old(fs).inv(),
    ensures
        final(fs).inv(),
        ({
            let empty = old(fs).dir_at(scratch.temp_dir@) && (forall|k: Seq<u8>|
                !(#[trigger] old(fs).has(k) && parent_spec(k) == Some(scratch.temp_dir@)));
            if empty {
                kept is None && forall|k: Seq<u8>| final(fs).node_at(k) == if k
                    == scratch.temp_dir@ {
                    None::<NodeView>
                } else {
                    old(fs).node_at(k)
                }
            } else {
                (kept matches Some(p) && p@ == scratch.temp_dir@) && final(fs).entries@ == old(
                    fs,
                ).entries@
            }
        }),
{
    match remove_dir(fs, &scratch.temp_dir) {
        Ok(_) => None,
        Err(_) => Some(scratch.temp_dir),
    }
}

} // verus!
