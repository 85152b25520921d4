use command_center::snapshot::{join_path, leaf_of, strip_prefix};
use command_center::store::{import_notes, FileEntry, Store};

#[test]
fn leaf_of_nested_path() {
    assert_eq!(leaf_of("a/b/c.md"), "c.md");
}

#[test]
fn leaf_of_bare_name() {
    assert_eq!(leaf_of("plain.txt"), "plain.txt");
}

#[test]
fn leaf_of_trailing_slash_is_empty() {
    assert_eq!(leaf_of("a/b/"), "");
}

#[test]
fn strip_prefix_removes_directory() {
    assert_eq!(strip_prefix("files/notes/a.md", "files/").unwrap(), "notes/a.md");
}

#[test]
fn strip_prefix_mismatch_is_none() {
    assert!(strip_prefix("other/notes/a.md", "files/").is_none());
    assert!(strip_prefix("fi", "files/").is_none());
}

#[test]
fn join_path_inserts_one_slash() {
    assert_eq!(join_path("storage", "alice.os"), "storage/alice.os");
}

#[test]
fn ensure_parents_creates_each_ancestor_once() {
    let mut store = Store::new();
    store.ensure_parents("a/b/c.md");
    assert_eq!(store.dirs, vec!["a".to_string(), "a/b".to_string()]);
    assert!(store.has_dir(&"a".to_string()));
    assert!(store.has_dir(&"a/b".to_string()));
    assert!(!store.has_dir(&"a/b/c.md".to_string()));
}

#[test]
fn ensure_parents_twice_is_a_no_op() {
    let mut store = Store::new();
    store.ensure_parents("a/b/c.md");
    let once = store.dirs.clone();
    store.ensure_parents("a/b/c.md");
    assert_eq!(store.dirs, once);
}

#[test]
fn ensure_parents_shares_common_ancestors() {
    let mut store = Store::new();
    store.ensure_parents("a/b/c.md");
    store.ensure_parents("a/b/d.md");
    store.ensure_parents("a/e/f.md");
    assert_eq!(
        store.dirs,
        vec!["a".to_string(), "a/b".to_string(), "a/e".to_string()],
    );
}

#[test]
fn apply_chunk_creates_then_appends() {
    let mut store = Store::new();
    let name = "tag1".to_string();
    store.apply_chunk(&name, b"hello ");
    store.apply_chunk(&name, b"world");
    let content = store.get(&name).unwrap();
    assert_eq!(content.as_slice(), b"hello world");
    assert_eq!(store.files.len(), 1);
}

#[test]
fn apply_chunk_keeps_files_separate() {
    let mut store = Store::new();
    store.apply_chunk(&"one".to_string(), b"1");
    store.apply_chunk(&"two".to_string(), b"2");
    store.apply_chunk(&"one".to_string(), b"1");
    assert_eq!(store.files.len(), 2);
    assert_eq!(store.get(&"one".to_string()).unwrap().as_slice(), b"11");
    assert_eq!(store.get(&"two".to_string()).unwrap().as_slice(), b"2");
}

#[test]
fn put_overwrites_whole_file() {
    let mut store = Store::new();
    store.put(&"f".to_string(), b"old".to_vec());
    store.put(&"f".to_string(), b"new".to_vec());
    assert_eq!(store.files.len(), 1);
    assert_eq!(store.get(&"f".to_string()).unwrap().as_slice(), b"new");
}

#[test]
fn import_notes_creates_dirs_and_files() {
    let mut store = Store::new();
    let notes = vec![
        FileEntry::new("docs/a.md".to_string(), b"alpha".to_vec()),
        FileEntry::new("docs/sub/b.md".to_string(), b"beta".to_vec()),
    ];
    import_notes(&mut store, &notes);
    assert_eq!(store.files.len(), 2);
    assert_eq!(store.get(&"docs/a.md".to_string()).unwrap().as_slice(), b"alpha");
    assert_eq!(store.get(&"docs/sub/b.md".to_string()).unwrap().as_slice(), b"beta");
    assert_eq!(
        store.dirs,
        vec!["docs".to_string(), "docs/sub".to_string()],
    );
}

#[test]
fn clear_empties_the_store() {
    let mut store = Store::new();
    store.ensure_parents("a/b");
    store.put(&"a/f".to_string(), b"x".to_vec());
    store.clear();
    assert!(store.files.is_empty());
    assert!(store.dirs.is_empty());
}
