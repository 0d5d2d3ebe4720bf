use sled_nav::nav::{App, AscendOutcome};
use sled_nav::wrap::calculate_wrapped_lines;

fn b(s: &str) -> Vec<u8> {
    s.as_bytes().to_vec()
}

fn temp_db() -> sled::Db {
    sled::Config::new().temporary(true).open().unwrap()
}

/// Index of `name` in the session's sorted keyspace list.
fn tree_index(app: &App, name: &str) -> usize {
    app.trees().iter().position(|t| t == &b(name)).unwrap()
}

#[test]
fn browse_hierarchy_and_fetch_value() {
    let db = temp_db();
    let tree = db.open_tree("t1").unwrap();
    tree.insert(b"a/b/c", b"value-c").unwrap();
    tree.insert(b"a/b/d", b"value-d").unwrap();
    tree.insert(b"a/x", b"value-x").unwrap();

    let mut app = App::new();
    app.set_db(db);
    app.set_delimiter(Some(b("/")));
    app.refresh_trees().unwrap();
    app.select_tree(tree_index(&app, "t1")).unwrap();

    // at the root: one entry "a", descendable
    app.set_key_range(0, 10).unwrap();
    let range = app.key_range();
    assert_eq!(range.keys.len(), 1);
    assert_eq!(range.keys[0].key, b("a"));
    assert!(range.keys[0].has_children);
    assert_eq!(app.total_keys(), 1);

    // descend into "a": entries "b" (descendable) and "x" (not)
    app.select_key(0).unwrap();
    app.set_key_range(0, 10).unwrap();
    let range = app.key_range();
    assert_eq!(range.keys.len(), 2);
    assert_eq!(range.keys[0].key, b("b"));
    assert!(range.keys[0].has_children);
    assert_eq!(range.keys[1].key, b("x"));
    assert!(!range.keys[1].has_children);
    assert_eq!(app.total_keys(), 2);

    // descending into "x" is rejected: no children, no state change
    let path_before = app.path().clone();
    app.select_key(1).unwrap();
    assert_eq!(app.path(), &path_before);

    // descend into "b": leaves "c" and "d"
    app.select_key(0).unwrap();
    app.set_key_range(0, 10).unwrap();
    let range = app.key_range();
    assert_eq!(range.keys.len(), 2);
    assert_eq!(range.keys[0].key, b("c"));
    assert!(!range.keys[0].has_children);

    // the value of "c" at this path is the one stored under "a/b/c"
    let v = app.get_value(0).unwrap();
    assert_eq!(v, Some(b"value-c".to_vec()));
    // out-of-range selection yields no value, not an error
    let v = app.get_value(7).unwrap();
    assert_eq!(v, None);
}

#[test]
fn ascend_from_root_signals_exit() {
    let db = temp_db();
    let tree = db.open_tree("t1").unwrap();
    tree.insert(b"a/b", b"v").unwrap();

    let mut app = App::new();
    app.set_db(db);
    app.set_delimiter(Some(b("/")));
    app.refresh_trees().unwrap();
    app.select_tree(tree_index(&app, "t1")).unwrap();
    app.set_key_range(0, 10).unwrap();

    app.select_key(0).unwrap();
    assert_eq!(app.path(), &vec![b("a")]);
    assert_eq!(app.go_back_in_path(), AscendOutcome::Ascended);
    assert_eq!(app.path().len(), 0);
    // at the root: signal exit, nothing changes
    assert_eq!(app.go_back_in_path(), AscendOutcome::ExitHierarchy);
    assert_eq!(app.path().len(), 0);
}

#[test]
fn flat_window_is_clipped_at_the_end() {
    let db = temp_db();
    let tree = db.open_tree("flat").unwrap();
    for i in 0..120u32 {
        let key = format!("key{:03}", i);
        tree.insert(key.as_bytes(), b"v").unwrap();
    }

    let mut app = App::new();
    app.set_db(db);
    app.refresh_trees().unwrap();
    app.select_tree(tree_index(&app, "flat")).unwrap();
    assert_eq!(app.total_keys(), 120);

    app.set_key_range(100, 30).unwrap();
    let range = app.key_range();
    assert_eq!(range.offset, 100);
    assert_eq!(range.keys.len(), 20);
    assert_eq!(range.keys[0].key, b("key100"));
    assert_eq!(range.keys[19].key, b("key119"));
    assert!(range.keys.iter().all(|e| !e.has_children));
}

#[test]
fn value_deleted_after_indexing_is_absent() {
    let db = temp_db();
    let tree = db.open_tree("t1").unwrap();
    tree.insert(b"a/b", b"v").unwrap();

    let mut app = App::new();
    app.set_db(db);
    app.set_delimiter(Some(b("/")));
    app.refresh_trees().unwrap();
    app.select_tree(tree_index(&app, "t1")).unwrap();
    app.set_key_range(0, 10).unwrap();
    app.select_key(0).unwrap();
    app.set_key_range(0, 10).unwrap();
    assert_eq!(app.key_range().keys[0].key, b("b"));

    // the key vanishes from the store after the index was built
    tree.remove(b"a/b").unwrap();
    let v = app.get_value(0).unwrap();
    assert_eq!(v, None);
}

#[test]
fn full_key_uses_configured_delimiter() {
    let db = temp_db();
    let tree = db.open_tree("t1").unwrap();
    tree.insert(b"x::y", b"deep").unwrap();

    let mut app = App::new();
    app.set_db(db);
    app.set_delimiter(Some(b("::")));
    app.refresh_trees().unwrap();
    app.select_tree(tree_index(&app, "t1")).unwrap();
    app.set_key_range(0, 10).unwrap();
    app.select_key(0).unwrap();
    app.set_key_range(0, 10).unwrap();
    assert_eq!(app.key_range().keys[0].key, b("y"));
    assert_eq!(app.resolve_full_key(0), Some(b("x::y")));
    assert_eq!(app.get_value(0).unwrap(), Some(b"deep".to_vec()));
}

#[test]
fn refresh_trees_sorts_names() {
    let db = temp_db();
    db.open_tree("zeta").unwrap();
    db.open_tree("alpha").unwrap();
    db.open_tree("midway").unwrap();

    let mut app = App::new();
    app.set_db(db);
    app.refresh_trees().unwrap();
    let trees = app.trees();
    assert!(trees.windows(2).all(|w| w[0] <= w[1]));
    assert!(tree_index(&app, "alpha") < tree_index(&app, "midway"));
    assert!(tree_index(&app, "midway") < tree_index(&app, "zeta"));
}

#[test]
fn invalid_text_keys_are_reported_and_skipped() {
    let db = temp_db();
    let tree = db.open_tree("t1").unwrap();
    tree.insert(&[0xffu8, 0xfe][..], b"binary").unwrap();
    tree.insert(b"plain", b"text").unwrap();

    let mut app = App::new();
    app.set_db(db);
    app.set_delimiter(Some(b("/")));
    app.refresh_trees().unwrap();
    app.select_tree(tree_index(&app, "t1")).unwrap();
    assert_eq!(app.decode_failures(), &vec![vec![0xffu8, 0xfe]]);
    app.set_key_range(0, 10).unwrap();
    let range = app.key_range();
    assert_eq!(range.keys.len(), 1);
    assert_eq!(range.keys[0].key, b("plain"));
}

#[test]
fn reselecting_rebuilds_the_index() {
    let db = temp_db();
    let tree = db.open_tree("t1").unwrap();
    tree.insert(b"a/b", b"v").unwrap();

    let mut app = App::new();
    app.set_db(db.clone());
    app.set_delimiter(Some(b("/")));
    app.refresh_trees().unwrap();
    let i = tree_index(&app, "t1");
    app.select_tree(i).unwrap();
    app.set_key_range(0, 10).unwrap();
    app.select_key(0).unwrap();
    assert_eq!(app.path(), &vec![b("a")]);

    // the store changes; selecting the keyspace again rebuilds the index
    // and clears the cursor, so the new content shows from the root
    tree.remove(b"a/b").unwrap();
    tree.insert(b"q", b"v").unwrap();
    app.select_tree(i).unwrap();
    assert_eq!(app.path().len(), 0);
    app.set_key_range(0, 10).unwrap();
    assert_eq!(app.key_range().keys.len(), 1);
    assert_eq!(app.key_range().keys[0].key, b("q"));
}

#[test]
fn selecting_without_store_changes_nothing() {
    let mut app = App::new();
    assert!(!app.has_db());
    app.refresh_trees().unwrap();
    app.select_tree(0).unwrap();
    assert_eq!(app.trees().len(), 0);
    assert_eq!(app.total_keys(), 0);
    app.set_key_range(0, 10).unwrap();
    assert_eq!(app.key_range().keys.len(), 0);
    assert_eq!(app.get_value(0).unwrap(), None);
}

#[test]
fn windows_partition_a_level() {
    let db = temp_db();
    let tree = db.open_tree("t1").unwrap();
    for key in ["e1", "e2", "e3", "e4", "e5"] {
        tree.insert(key.as_bytes(), b"v").unwrap();
    }

    let mut app = App::new();
    app.set_db(db);
    app.set_delimiter(Some(b("/")));
    app.refresh_trees().unwrap();
    app.select_tree(tree_index(&app, "t1")).unwrap();
    assert_eq!(app.total_keys(), 5);

    app.set_key_range(0, 5).unwrap();
    let whole: Vec<_> = app.key_range().keys.iter().map(|e| e.key.clone()).collect();
    let mut glued: Vec<Vec<u8>> = Vec::new();
    for offset in [0usize, 2, 4] {
        app.set_key_range(offset, 2).unwrap();
        assert_eq!(app.key_range().offset, offset);
        glued.extend(app.key_range().keys.iter().map(|e| e.key.clone()));
    }
    assert_eq!(glued, whole);
}

#[test]
fn selecting_out_of_range_tree_changes_nothing() {
    let db = temp_db();
    db.open_tree("only").unwrap();

    let mut app = App::new();
    app.set_db(db);
    app.refresh_trees().unwrap();
    let count = app.trees().len();
    app.select_tree(count + 5).unwrap();
    assert_eq!(app.total_keys(), 0);
    assert_eq!(app.path().len(), 0);
}

#[test]
fn wrapped_lines_hard_breaks_long_words() {
    // no space anywhere: hard breaks every `width` bytes
    assert_eq!(calculate_wrapped_lines("abcdefghij", 4), 3);
    // a space exactly at the width boundary
    assert_eq!(calculate_wrapped_lines("abcd efgh", 4), 3);
}
