//! The manifest of managed paths kept inside the store.
//!
//! The manifest itself is a file the surrounding program reads and writes;
//! here it is the ordered list of managed relative paths, with the logic
//! that opens or initializes it and appends to it. Duplicates are tolerated:
//! the operations above are idempotent per path.

use crate::paths::{join, join_spec};
use vstd::prelude::*;

verus! {

/// The manifest's file name inside the store.
pub open spec fn config_file_name() -> Seq<u8> {
    seq![100u8, 111u8, 116u8, 116u8, 121u8, 46u8, 121u8, 97u8, 109u8, 108u8]
}

/// The manifest's file name inside the store, as bytes.
pub fn config_file_bytes() -> (r: Vec<u8>)
    ensures
        r@ == config_file_name(),
{
    let mut r: Vec<u8> = Vec::new();
    r.push(100u8);
    r.push(111u8);
    r.push(116u8);
    r.push(116u8);
    r.push(121u8);
    r.push(46u8);
    r.push(121u8);
    r.push(97u8);
    r.push(109u8);
    r.push(108u8);
    proof {
        assert(r@ =~= config_file_name());
    }
    r
}

/// One managed entry: a path relative to the root.
#[derive(Debug, PartialEq, Eq, Clone)]
pub struct Entry {
    pub path: Vec<u8>,
}

/// The manifest: where it lives, and the managed paths in insertion order.
pub struct Config {
    pub path: Vec<u8>,
    pub entries: Vec<Entry>,
}

impl Config {
    /// Open the manifest at its place under `repo`: with the entries of an
    /// existing manifest file, or fresh and empty when none exists yet (the
    /// caller then persists the empty manifest).
    pub fn init_or_open(repo: &Vec<u8>, existing: Option<Vec<Entry>>) -> (r: Config)
        ensures
            r.path@ == join_spec(repo@, config_file_name()),
            match existing {
                Some(es) => r.entries == es,
                None => r.entries@.len() == 0,
            },
    {
        let name = config_file_bytes();
        let path = join(repo, &name);
        match existing {
            Some(entries) => Config { path, entries },
            None => Config { path, entries: Vec::new() },
        }
    }

    /// Append `entry` to the managed paths; earlier entries keep their
    /// places, duplicates included.
    pub fn append(&mut self, entry: &Vec<u8>)
        ensures
            final(self).path == old(self).path,
            final(self).entries@.len() == old(self).entries@.len() + 1,
            final(self).entries@.last().path@ == entry@,
            forall|i: int|
                0 <= i < old(self).entries@.len() ==> final(self).entries@[i] == old(
                    self,
                ).entries@[i],
    {
        let path = entry.clone();
        proof {
            assert(path@ =~= entry@);
        }
        self.entries.push(Entry { path });
    }

    /// The manifest's own path relative to the store root.
    pub fn repo_path(&self) -> (r: Vec<u8>)
        ensures
            r@ == config_file_name(),
    {
        config_file_bytes()
    }
}

} // verus!
