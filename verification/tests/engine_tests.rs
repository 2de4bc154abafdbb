use dotty::cmds::{add, restore as restore_batch};
use dotty::engine::{
    commit_into_store, commit_plan, move_then_symlink, restore as restore_entry, restore_plan,
    EngineError, LinkState, Outcome, RestoreAction, RestoreError,
};
use dotty::fs_model::{FsModel, Node};
use dotty::messages::build_git_message;
use dotty::resolver::resolve;
use dotty::scratch::{
    create_overwrite_temp_dir, random_string, release_overwrite_temp_dir, remove_dir,
    ScratchError,
};

fn b(s: &str) -> Vec<u8> {
    s.as_bytes().to_vec()
}

fn home_fs() -> FsModel {
    let mut fs = FsModel::new();
    fs.set_node(&b("/"), Node::Dir);
    fs.set_node(&b("/home"), Node::Dir);
    fs.set_node(&b("/home/u"), Node::Dir);
    fs.set_node(&b("/home/u/.dotty"), Node::Dir);
    fs.set_node(&b("/home/u/.rc"), Node::File(b("set ruler")));
    fs.set_node(&b("/tmp"), Node::Dir);
    fs
}

#[test]
fn add_is_idempotent() {
    let mut fs = home_fs();
    let first = commit_into_store(&mut fs, &b("/home/u/.rc"), &b(".rc"), &b("/home/u/.dotty"));
    assert_eq!(first, Ok(Outcome::Moved));
    assert_eq!(
        fs.read_file(&b("/home/u/.dotty/.rc")),
        Some(b("set ruler"))
    );
    assert_eq!(fs.read_link(&b("/home/u/.rc")), Some(b("/home/u/.dotty/.rc")));
    let snapshot = fs.entries.clone();
    let second = commit_into_store(&mut fs, &b("/home/u/.rc"), &b(".rc"), &b("/home/u/.dotty"));
    assert_eq!(second, Ok(Outcome::AlreadyLinked));
    assert_eq!(fs.entries, snapshot);
}

#[test]
fn conflict_loses_no_data() {
    let mut fs = home_fs();
    fs.set_node(&b("/home/u/.dotty/.rc"), Node::File(b("other content")));
    let snapshot = fs.entries.clone();
    let r = commit_into_store(&mut fs, &b("/home/u/.rc"), &b(".rc"), &b("/home/u/.dotty"));
    assert_eq!(r, Err(EngineError::Conflict));
    assert_eq!(fs.entries, snapshot);
    assert_eq!(fs.read_file(&b("/home/u/.rc")), Some(b("set ruler")));
    assert_eq!(
        fs.read_file(&b("/home/u/.dotty/.rc")),
        Some(b("other content"))
    );
}

#[test]
fn move_error_when_original_missing() {
    let mut fs = home_fs();
    let r = move_then_symlink(&mut fs, &b("/home/u/.gone"), &b("/home/u/.dotty/.gone"));
    assert_eq!(r, Err(EngineError::MoveError));
}

#[test]
fn restore_round_trip_as_symlink() {
    let mut fs = home_fs();
    let moved = commit_into_store(&mut fs, &b("/home/u/.rc"), &b(".rc"), &b("/home/u/.dotty"));
    assert_eq!(moved, Ok(Outcome::Moved));
    let r = restore_entry(
        &mut fs,
        &b("/home/u/.dotty/.rc"),
        &b("/home/u/.rc"),
        None,
        true,
    );
    assert_eq!(r, Ok(()));
    assert_eq!(fs.read_link(&b("/home/u/.rc")), Some(b("/home/u/.dotty/.rc")));
    assert_eq!(resolve(&fs, &b("/home/u/.rc")), Some(b("/home/u/.dotty/.rc")));
    assert_eq!(
        fs.read_file(&b("/home/u/.dotty/.rc")),
        Some(b("set ruler"))
    );
}

#[test]
fn restore_round_trip_as_copy() {
    let mut fs = home_fs();
    let moved = commit_into_store(&mut fs, &b("/home/u/.rc"), &b(".rc"), &b("/home/u/.dotty"));
    assert_eq!(moved, Ok(Outcome::Moved));
    let r = restore_entry(
        &mut fs,
        &b("/home/u/.dotty/.rc"),
        &b("/home/u/.rc"),
        None,
        false,
    );
    assert_eq!(r, Ok(()));
    assert_eq!(fs.read_file(&b("/home/u/.rc")), Some(b("set ruler")));
    assert_eq!(
        fs.read_file(&b("/home/u/.dotty/.rc")),
        Some(b("set ruler"))
    );
}

#[test]
fn restore_refuses_source_missing() {
    let mut fs = home_fs();
    let r = restore_entry(&mut fs, &b("/home/u/.dotty/.rc"), &b("/home/u/.rc"), None, true);
    assert_eq!(r, Err(RestoreError::SourceMissing));
}

#[test]
fn restore_refuses_regular_content_without_overwrite() {
    let mut fs = home_fs();
    fs.set_node(&b("/home/u/.dotty/.rc"), Node::File(b("stored")));
    let snapshot = fs.entries.clone();
    let r = restore_entry(&mut fs, &b("/home/u/.dotty/.rc"), &b("/home/u/.rc"), None, true);
    assert_eq!(r, Err(RestoreError::WouldOverwriteFile));
    assert_eq!(fs.entries, snapshot);
}

#[test]
fn restore_refuses_stale_link_without_overwrite() {
    let mut fs = home_fs();
    fs.set_node(&b("/home/u/.dotty/.rc"), Node::File(b("stored")));
    fs.set_node(&b("/home/u/.rc"), Node::Symlink(b("/somewhere/else")));
    let r = restore_entry(&mut fs, &b("/home/u/.dotty/.rc"), &b("/home/u/.rc"), None, true);
    assert_eq!(r, Err(RestoreError::WouldOverwriteLink));
}

#[test]
fn restore_replaces_stale_link_with_overwrite() {
    let mut fs = home_fs();
    fs.set_node(&b("/home/u/.dotty/.rc"), Node::File(b("stored")));
    fs.set_node(&b("/home/u/.rc"), Node::Symlink(b("/somewhere/else")));
    let scratch = b("/tmp/scratch/.rc");
    let r = restore_entry(
        &mut fs,
        &b("/home/u/.dotty/.rc"),
        &b("/home/u/.rc"),
        Some(&scratch),
        true,
    );
    assert_eq!(r, Ok(()));
    assert_eq!(fs.read_link(&b("/home/u/.rc")), Some(b("/home/u/.dotty/.rc")));
    // A stale link is removed, not displaced.
    assert_eq!(fs.node_of(&scratch), None);
}

#[test]
fn overwrite_displaces_old_content_into_scratch() {
    let mut fs = home_fs();
    fs.set_node(&b("/home/u/.dotty/.rc"), Node::File(b("stored")));
    fs.set_node(&b("/home/u/.rc"), Node::File(b("precious old")));
    let scratch = create_overwrite_temp_dir(&mut fs, &b("/tmp"), &b("dotty-")).unwrap();
    let entry = scratch.entry(&b(".rc"));
    let r = restore_entry(
        &mut fs,
        &b("/home/u/.dotty/.rc"),
        &b("/home/u/.rc"),
        Some(&entry),
        true,
    );
    assert_eq!(r, Ok(()));
    assert_eq!(fs.read_file(&entry), Some(b("precious old")));
    assert_eq!(fs.read_link(&b("/home/u/.rc")), Some(b("/home/u/.dotty/.rc")));
    // Displaced content keeps the scratch directory alive on release.
    let dir = scratch.temp_dir.clone();
    let kept = release_overwrite_temp_dir(&mut fs, scratch);
    assert_eq!(kept, Some(dir.clone()));
    assert!(fs.contains(&dir));
}

#[test]
fn empty_scratch_is_removed_on_release() {
    let mut fs = home_fs();
    let scratch = create_overwrite_temp_dir(&mut fs, &b("/tmp"), &b("dotty-")).unwrap();
    let dir = scratch.temp_dir.clone();
    assert!(fs.contains(&dir));
    let kept = release_overwrite_temp_dir(&mut fs, scratch);
    assert_eq!(kept, None);
    assert!(!fs.contains(&dir));
}

#[test]
fn scratch_name_is_prefix_plus_random_suffix() {
    let mut fs = home_fs();
    let scratch = create_overwrite_temp_dir(&mut fs, &b("/tmp"), &b("dotty-")).unwrap();
    let name = scratch.temp_dir.clone();
    let lead = b("/tmp/dotty-");
    assert_eq!(&name[..lead.len()], lead.as_slice());
    let suffix = &name[lead.len()..];
    assert_eq!(suffix.len(), 7);
    for c in suffix {
        assert!(c.is_ascii_alphanumeric());
    }
}

#[test]
fn random_string_is_alphanumeric_of_requested_length() {
    let r = random_string(16);
    assert_eq!(r.len(), 16);
    for c in &r {
        assert!(c.is_ascii_alphanumeric());
    }
    assert!(random_string(0).is_empty());
}

#[test]
fn remove_dir_refuses_non_empty() {
    let mut fs = home_fs();
    assert_eq!(remove_dir(&mut fs, &b("/home/u")), Err(ScratchError::DirError));
    fs.set_node(&b("/hollow"), Node::Dir);
    assert_eq!(remove_dir(&mut fs, &b("/hollow")), Ok(()));
    assert!(!fs.contains(&b("/hollow")));
}

#[test]
fn restore_plan_follows_decision_table() {
    let elsewhere = LinkState::SymlinkTo(b("/elsewhere"));
    let correct = LinkState::SymlinkTo(b("/repo/x"));
    assert_eq!(
        restore_plan(false, &LinkState::Absent, false, false, true),
        Err(RestoreError::SourceMissing)
    );
    assert_eq!(
        restore_plan(true, &LinkState::Absent, false, false, true),
        Ok(RestoreAction::Create)
    );
    assert_eq!(
        restore_plan(true, &correct, true, false, true),
        Ok(RestoreAction::AlreadyCorrect)
    );
    assert_eq!(
        restore_plan(true, &correct, true, false, false),
        Ok(RestoreAction::RemoveThenCreate)
    );
    assert_eq!(
        restore_plan(true, &elsewhere, false, true, true),
        Ok(RestoreAction::RemoveThenCreate)
    );
    assert_eq!(
        restore_plan(true, &elsewhere, false, false, true),
        Err(RestoreError::WouldOverwriteLink)
    );
    assert_eq!(
        restore_plan(true, &LinkState::RegularContent, false, true, false),
        Ok(RestoreAction::DisplaceThenCreate)
    );
    assert_eq!(
        restore_plan(true, &LinkState::RegularContent, false, false, false),
        Err(RestoreError::WouldOverwriteFile)
    );
}

#[test]
fn commit_plan_follows_decision_table() {
    assert_eq!(commit_plan(true, true), Ok(Outcome::AlreadyLinked));
    assert_eq!(commit_plan(true, false), Err(EngineError::Conflict));
    assert_eq!(commit_plan(false, false), Ok(Outcome::Moved));
    assert_eq!(commit_plan(false, true), Ok(Outcome::Moved));
}

#[test]
fn batch_add_moves_and_reports() {
    let mut fs = home_fs();
    let report = add(
        &mut fs,
        &b("/home/u/.dotty"),
        &b("/home/u"),
        &vec![b("/home/u/.rc")],
    )
    .unwrap();
    assert_eq!(report.to_commit, vec![b(".rc")]);
    assert!(report.submodules.is_empty());
    assert_eq!(report.outcomes.len(), 1);
    assert_eq!(report.outcomes[0].kind, dotty::classify::PathType::File);
    assert_eq!(report.outcomes[0].result, Ok(Some(b(".rc"))));
    assert_eq!(
        fs.read_file(&b("/home/u/.dotty/.rc")),
        Some(b("set ruler"))
    );
    assert_eq!(build_git_message(&report.to_commit), b("adding .rc"));
}

#[test]
fn batch_add_registers_repo_units() {
    let mut fs = home_fs();
    fs.set_node(&b("/home/u/proj"), Node::Dir);
    fs.set_node(&b("/home/u/proj/.git"), Node::Dir);
    fs.set_node(&b("/home/u/proj/main"), Node::File(b("fn")));
    let report = add(
        &mut fs,
        &b("/home/u/.dotty"),
        &b("/home/u"),
        &vec![b("/home/u/proj")],
    )
    .unwrap();
    assert_eq!(report.to_commit, vec![b("proj")]);
    assert_eq!(report.submodules, vec![b("proj")]);
    assert_eq!(report.outcomes[0].kind, dotty::classify::PathType::GitRepo);
    // The unit moved as one piece, children included.
    assert_eq!(
        fs.read_file(&b("/home/u/.dotty/proj/main")),
        Some(b("fn"))
    );
    assert_eq!(fs.read_link(&b("/home/u/proj")), Some(b("/home/u/.dotty/proj")));
}

#[test]
fn batch_restore_links_store_entries() {
    let mut fs = FsModel::new();
    fs.set_node(&b("/"), Node::Dir);
    fs.set_node(&b("/home"), Node::Dir);
    fs.set_node(&b("/home/u"), Node::Dir);
    fs.set_node(&b("/r"), Node::Dir);
    fs.set_node(&b("/r/.git"), Node::Dir);
    fs.set_node(&b("/r/x"), Node::File(b("stored x")));
    fs.set_node(&b("/tmp"), Node::Dir);
    let report = restore_batch(&mut fs, &b("/r"), &b("/home/u"), true, false, &b("/tmp"))
        .unwrap();
    assert_eq!(report.outcomes.len(), 1);
    assert_eq!(report.outcomes[0].store_path, b("/r/x"));
    assert_eq!(report.outcomes[0].result, Ok(()));
    assert_eq!(report.scratch_kept, None);
    assert_eq!(fs.read_link(&b("/home/u/x")), Some(b("/r/x")));
}

#[test]
fn batch_restore_displaces_with_overwrite() {
    let mut fs = FsModel::new();
    fs.set_node(&b("/"), Node::Dir);
    fs.set_node(&b("/home"), Node::Dir);
    fs.set_node(&b("/home/u"), Node::Dir);
    fs.set_node(&b("/home/u/x"), Node::File(b("old x")));
    fs.set_node(&b("/r"), Node::Dir);
    fs.set_node(&b("/r/x"), Node::File(b("stored x")));
    fs.set_node(&b("/tmp"), Node::Dir);
    let report = restore_batch(&mut fs, &b("/r"), &b("/home/u"), true, true, &b("/tmp"))
        .unwrap();
    assert_eq!(report.outcomes.len(), 1);
    assert_eq!(report.outcomes[0].result, Ok(()));
    let kept = report.scratch_kept.expect("displaced content keeps the scratch dir");
    let mut displaced = kept.clone();
    displaced.push(b'/');
    displaced.extend_from_slice(b"x");
    assert_eq!(fs.read_file(&displaced), Some(b("old x")));
    assert_eq!(fs.read_link(&b("/home/u/x")), Some(b("/r/x")));
}

#[test]
fn subtree_rename_carries_children() {
    let mut fs = FsModel::new();
    fs.set_node(&b("/"), Node::Dir);
    fs.set_node(&b("/a"), Node::Dir);
    fs.set_node(&b("/a/f"), Node::File(b("payload")));
    fs.rename(&b("/a"), &b("/b"));
    assert!(!fs.contains(&b("/a")));
    assert!(!fs.contains(&b("/a/f")));
    assert_eq!(fs.read_file(&b("/b/f")), Some(b("payload")));
}

#[test]
fn restore_create_error_when_target_parent_is_a_file() {
    let mut fs = FsModel::new();
    fs.set_node(&b("/"), Node::Dir);
    fs.set_node(&b("/r"), Node::Dir);
    fs.set_node(&b("/r/x"), Node::File(b("stored")));
    // The path the restore would create under is occupied by a file.
    fs.set_node(&b("/blocked"), Node::File(b("wall")));
    let r = restore_entry(&mut fs, &b("/r/x"), &b("/blocked/x"), None, true);
    assert_eq!(r, Err(RestoreError::CreateError));
    assert_eq!(fs.read_file(&b("/blocked")), Some(b("wall")));
}

#[test]
fn batch_restore_fails_on_unreadable_store() {
    let mut fs = FsModel::new();
    fs.set_node(&b("/"), Node::Dir);
    fs.set_node(&b("/not-a-dir"), Node::File(b("plain")));
    let r = restore_batch(&mut fs, &b("/not-a-dir"), &b("/home"), true, false, &b("/tmp"));
    assert_eq!(r, Err(dotty::cmds::RestoreCmdError::StoreUnreadable));
}

#[test]
fn batch_restore_fails_when_scratch_cannot_be_created() {
    let mut fs = FsModel::new();
    fs.set_node(&b("/"), Node::Dir);
    fs.set_node(&b("/r"), Node::Dir);
    // No /tmp directory exists to hold the scratch area.
    let r = restore_batch(&mut fs, &b("/r"), &b("/home"), true, true, &b("/tmp"));
    assert_eq!(
        r,
        Err(dotty::cmds::RestoreCmdError::Scratch(ScratchError::DirError))
    );
}

#[test]
fn batch_add_records_paths_it_cannot_key() {
    let mut fs = home_fs();
    // A leaf outside the root cannot be keyed relative to it.
    fs.set_node(&b("/other"), Node::Dir);
    fs.set_node(&b("/other/f"), Node::File(b("stray")));
    let report = add(
        &mut fs,
        &b("/home/u/.dotty"),
        &b("/home/u"),
        &vec![b("/other/f")],
    )
    .unwrap();
    assert!(report.to_commit.is_empty());
    assert_eq!(report.outcomes.len(), 1);
    assert!(matches!(
        report.outcomes[0].result,
        Err(dotty::engine::MoveToRepoError::Path(_))
    ));
    assert_eq!(fs.read_file(&b("/other/f")), Some(b("stray")));
}
