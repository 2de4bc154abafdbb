use dotty::classify::{flatten_paths_to_add, is_repo_unit, ClassifyError, PathType};
use dotty::config::{Config, Entry};
use dotty::fs_model::{is_empty, read_dir, FsModel, Node};
use dotty::messages::{build_git_message, dec_bytes};
use dotty::paths::{
    common_base_path, get_root, join, parent_path, relative_from_root, PathError,
};
use dotty::resolver::{canonicalize, canonicalize_missing, resolve};

fn p(s: &str) -> Vec<u8> {
    s.as_bytes().to_vec()
}

#[test]
fn common_base_path_shared_prefix() {
    let r = common_base_path(&vec![p("/a/b/c"), p("/a/b/d"), p("/a/x")]);
    assert_eq!(r, p("/a"));
}

#[test]
fn common_base_path_empty_input() {
    let r = common_base_path(&Vec::new());
    assert_eq!(r, p(""));
}

#[test]
fn common_base_path_single_and_nested() {
    assert_eq!(common_base_path(&vec![p("/a/b")]), p("/a/b"));
    assert_eq!(common_base_path(&vec![p("/a/b"), p("/a/b/c")]), p("/a/b"));
    assert_eq!(common_base_path(&vec![p("/a"), p("/b")]), p("/"));
    assert_eq!(common_base_path(&vec![p("a/b"), p("c/d")]), p(""));
    assert_eq!(common_base_path(&vec![p("a/b/x"), p("a/b/y")]), p("a/b"));
}

#[test]
fn relative_from_root_rejects_root_itself() {
    assert_eq!(
        relative_from_root(&p("/r"), &p("/r")),
        Err(PathError::EmptyRelative)
    );
}

#[test]
fn relative_from_root_rejects_outside_path() {
    assert_eq!(
        relative_from_root(&p("/r"), &p("/other")),
        Err(PathError::NotUnderRoot)
    );
    assert_eq!(
        relative_from_root(&p("/r"), &p("/rx")),
        Err(PathError::NotUnderRoot)
    );
}

#[test]
fn relative_from_root_strips_the_root() {
    assert_eq!(relative_from_root(&p("/r"), &p("/r/a/b")), Ok(p("a/b")));
    assert_eq!(relative_from_root(&p("/"), &p("/a")), Ok(p("a")));
}

#[test]
fn join_inserts_separator() {
    assert_eq!(join(&p("/r"), &p("a/b")), p("/r/a/b"));
    assert_eq!(join(&p("/"), &p("a")), p("/a"));
}

#[test]
fn parent_path_walks_up() {
    assert_eq!(parent_path(&p("/a/b")), Some(p("/a")));
    assert_eq!(parent_path(&p("/a")), Some(p("/")));
    assert_eq!(parent_path(&p("/")), None);
    assert_eq!(parent_path(&p("noslash")), None);
}

#[test]
fn get_root_prefers_explicit_choice() {
    let explicit = p("/somewhere");
    assert_eq!(get_root(Some(&explicit), &p("/a/b")), Ok(p("/somewhere")));
    assert_eq!(get_root(None, &p("/a/b")), Ok(p("/a")));
    assert_eq!(get_root(None, &p("/")), Err(PathError::NoParent));
}

#[test]
fn dec_bytes_renders_decimal() {
    assert_eq!(dec_bytes(0), p("0"));
    assert_eq!(dec_bytes(7), p("7"));
    assert_eq!(dec_bytes(907), p("907"));
}

#[test]
fn build_git_message_single_path() {
    assert_eq!(build_git_message(&vec![p("a/b/c")]), p("adding a/b/c"));
}

#[test]
fn build_git_message_empty() {
    assert_eq!(build_git_message(&Vec::new()), p(""));
}

#[test]
fn build_git_message_batch() {
    let msg = build_git_message(&vec![p("a/b/c"), p("a/b/d")]);
    assert_eq!(msg, p("adding 2 files to a/b\n\n- a/b/c\n- a/b/d\n"));
}

fn tree() -> FsModel {
    let mut fs = FsModel::new();
    fs.set_node(&p("/"), Node::Dir);
    fs.set_node(&p("/top"), Node::Dir);
    fs.set_node(&p("/top/a"), Node::File(p("alpha")));
    fs.set_node(&p("/top/sub"), Node::Dir);
    fs.set_node(&p("/top/sub/.git"), Node::Dir);
    fs.set_node(&p("/top/sub/f"), Node::File(p("inner")));
    fs
}

#[test]
fn classifier_emits_repo_units_atomically() {
    let fs = tree();
    assert!(is_repo_unit(&fs, &p("/top/sub")));
    assert!(!is_repo_unit(&fs, &p("/top")));
    let leaves = flatten_paths_to_add(&fs, &vec![p("/top")]).unwrap();
    let repo_leaves: Vec<_> = leaves
        .iter()
        .filter(|l| l.kind == PathType::GitRepo)
        .collect();
    assert_eq!(repo_leaves.len(), 1);
    assert_eq!(repo_leaves[0].absolute_path, p("/top/sub"));
    for leaf in &leaves {
        assert!(!leaf.absolute_path.starts_with(p("/top/sub/").as_slice()));
    }
    let file_leaves: Vec<_> = leaves
        .iter()
        .filter(|l| l.kind == PathType::File)
        .collect();
    assert_eq!(file_leaves.len(), 1);
    assert_eq!(file_leaves[0].absolute_path, p("/top/a"));
}

#[test]
fn classifier_rejects_missing_paths() {
    let fs = tree();
    assert_eq!(
        flatten_paths_to_add(&fs, &vec![p("/top"), p("/gone")]),
        Err(ClassifyError::PathNotFound)
    );
}

#[test]
fn classifier_visits_once() {
    let fs = tree();
    let leaves = flatten_paths_to_add(&fs, &vec![p("/top/a"), p("/top/a")]).unwrap();
    assert_eq!(leaves.len(), 1);
}

#[test]
fn read_dir_lists_children() {
    let fs = tree();
    let mut children = read_dir(&fs, &p("/top")).unwrap();
    children.sort();
    assert_eq!(children, vec![p("/top/a"), p("/top/sub")]);
    assert_eq!(read_dir(&fs, &p("/top/a")), None);
}

#[test]
fn is_empty_sees_children() {
    let mut fs = tree();
    assert_eq!(is_empty(&fs, &p("/top")), Some(false));
    fs.set_node(&p("/hollow"), Node::Dir);
    assert_eq!(is_empty(&fs, &p("/hollow")), Some(true));
    assert_eq!(is_empty(&fs, &p("/top/a")), None);
}

#[test]
fn canonicalize_expands_home_and_missing_tail() {
    let mut fs = FsModel::new();
    fs.set_node(&p("/"), Node::Dir);
    fs.set_node(&p("/home"), Node::Dir);
    fs.set_node(&p("/home/u"), Node::Dir);
    let home = p("/home/u");
    assert_eq!(canonicalize(&fs, &home, &p("~/newfile")), Ok(p("/home/u/newfile")));
    assert_eq!(canonicalize(&fs, &home, &p("~")), Ok(p("/home/u")));
    assert_eq!(canonicalize(&fs, &home, &p("/home/u")), Ok(p("/home/u")));
}

#[test]
fn canonicalize_fails_without_any_ancestor() {
    let fs = FsModel::new();
    assert_eq!(
        canonicalize(&fs, &p("/h"), &p("/a/b")),
        Err(PathError::ResolutionError)
    );
}

#[test]
fn canonicalize_missing_resolves_existing_prefix() {
    let mut fs = FsModel::new();
    fs.set_node(&p("/"), Node::Dir);
    fs.set_node(&p("/b"), Node::Dir);
    fs.set_node(&p("/a"), Node::Symlink(p("/b")));
    assert_eq!(resolve(&fs, &p("/a")), Some(p("/b")));
    assert_eq!(canonicalize_missing(&fs, &p("/a/x")), Some(p("/b/x")));
}

#[test]
fn config_opens_fresh_or_existing() {
    let fresh = Config::init_or_open(&p("/repo"), None);
    assert_eq!(fresh.path, p("/repo/dotty.yaml"));
    assert!(fresh.entries.is_empty());
    let held = Config::init_or_open(
        &p("/repo"),
        Some(vec![Entry { path: p("a") }, Entry { path: p("b/c") }]),
    );
    assert_eq!(held.entries.len(), 2);
    assert_eq!(held.entries[1].path, p("b/c"));
}

#[test]
fn config_append_keeps_order() {
    let mut cfg = Config::init_or_open(&p("/repo"), None);
    cfg.append(&p("x"));
    cfg.append(&p("y"));
    assert_eq!(cfg.entries.len(), 2);
    assert_eq!(cfg.entries[0].path, p("x"));
    assert_eq!(cfg.entries[1].path, p("y"));
    assert_eq!(cfg.repo_path(), p("dotty.yaml"));
}
