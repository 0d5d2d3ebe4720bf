use sled_nav::bytes::{lex_cmp, sort_byte_vecs, Cmp};
use sled_nav::index::build_index;
use sled_nav::scroll::{list_nav, NavKey, Pane, ViewMode};
use sled_nav::split::{join_parts, split_key};
use sled_nav::window::{node_total, node_window, resolve};
use sled_nav::wrap::calculate_wrapped_lines;

fn b(s: &str) -> Vec<u8> {
    s.as_bytes().to_vec()
}

#[test]
fn split_simple() {
    let parts = split_key(&b("a/b/c"), &b("/"));
    assert_eq!(parts, vec![b("a"), b("b"), b("c")]);
}

#[test]
fn split_trailing_delimiter_keeps_empty_segment() {
    let parts = split_key(&b("a/"), &b("/"));
    assert_eq!(parts, vec![b("a"), b("")]);
}

#[test]
fn split_multibyte_delimiter() {
    let parts = split_key(&b("x::y::z"), &b("::"));
    assert_eq!(parts, vec![b("x"), b("y"), b("z")]);
}

#[test]
fn split_overlapping_delimiter_is_leftmost() {
    // the first "aa" in "xaaa" starts at index 1; "a" remains
    let parts = split_key(&b("xaaa"), &b("aa"));
    assert_eq!(parts, vec![b("x"), b("a")]);
}

#[test]
fn join_round_trip() {
    for key in ["a/b/c", "a/", "/", "", "abc", "a//b"] {
        let parts = split_key(&b(key), &b("/"));
        let joined = join_parts(&parts, &b("/"));
        assert_eq!(joined, b(key));
    }
}

#[test]
fn join_uses_given_delimiter() {
    let joined = join_parts(&vec![b("a"), b("b")], &b("::"));
    assert_eq!(joined, b("a::b"));
}

#[test]
fn lex_cmp_orders_bytewise() {
    assert_eq!(lex_cmp(&b("a"), &b("ab")), Cmp::Lt);
    assert_eq!(lex_cmp(&b("ab"), &b("ab")), Cmp::Eq);
    assert_eq!(lex_cmp(&b("b"), &b("ab")), Cmp::Gt);
    assert_eq!(lex_cmp(&b(""), &b("a")), Cmp::Lt);
}

#[test]
fn sort_byte_vecs_sorts() {
    let sorted = sort_byte_vecs(vec![b("b"), b("a"), b("ab"), b("a")]);
    assert_eq!(sorted, vec![b("a"), b("a"), b("ab"), b("b")]);
}

#[test]
fn index_collapses_shared_prefixes() {
    let keys = vec![b("a/b/c"), b("a/b/d"), b("a/x")];
    let (idx, rejected) = build_index(&keys, &b("/"));
    assert!(rejected.is_empty());
    // at the root one entry: "a", with children
    let win = node_window(&idx.root, 0, 10);
    assert_eq!(win.len(), 1);
    assert_eq!(win[0].key, b("a"));
    assert!(win[0].has_children);
    // below "a": "b" (with children) and "x" (without)
    let path = vec![b("a")];
    let node = resolve(&idx.root, &path, 0).unwrap();
    let win = node_window(node, 0, 10);
    assert_eq!(win.len(), 2);
    assert_eq!(win[0].key, b("b"));
    assert!(win[0].has_children);
    assert_eq!(win[1].key, b("x"));
    assert!(!win[1].has_children);
    // below "a/b": "c" and "d", both leaves
    let path = vec![b("a"), b("b")];
    let node = resolve(&idx.root, &path, 0).unwrap();
    let win = node_window(node, 0, 10);
    assert_eq!(win.len(), 2);
    assert_eq!(win[0].key, b("c"));
    assert!(!win[0].has_children);
    assert_eq!(win[1].key, b("d"));
    assert!(!win[1].has_children);
}

#[test]
fn index_value_and_children_coexist() {
    // "a" is both a stored key and a prefix of "a/b"
    let keys = vec![b("a"), b("a/b")];
    let (idx, _) = build_index(&keys, &b("/"));
    let node_a = &idx.root.children[0];
    assert_eq!(node_a.segment, b("a"));
    assert!(node_a.has_value);
    assert_eq!(node_a.children.len(), 1);
    let win = node_window(&idx.root, 0, 10);
    assert!(win[0].has_children);
}

#[test]
fn index_excludes_invalid_text_keys() {
    let bad = vec![0xffu8, 0xfe];
    let keys = vec![bad.clone(), b("ok")];
    let (idx, rejected) = build_index(&keys, &b("/"));
    assert_eq!(rejected, vec![bad]);
    let win = node_window(&idx.root, 0, 10);
    assert_eq!(win.len(), 1);
    assert_eq!(win[0].key, b("ok"));
}

#[test]
fn index_keeps_empty_trailing_segment_reachable() {
    let keys = vec![b("a/")];
    let (idx, _) = build_index(&keys, &b("/"));
    let path = vec![b("a")];
    let node = resolve(&idx.root, &path, 0).unwrap();
    let win = node_window(node, 0, 10);
    assert_eq!(win.len(), 1);
    assert_eq!(win[0].key, b(""));
    assert!(!win[0].has_children);
}

#[test]
fn resolve_vanished_level_is_none() {
    let keys = vec![b("a/b")];
    let (idx, _) = build_index(&keys, &b("/"));
    let path = vec![b("zzz")];
    assert!(resolve(&idx.root, &path, 0).is_none());
}

#[test]
fn window_partition_covers_level() {
    let keys = vec![b("a"), b("b"), b("c"), b("d"), b("e")];
    let (idx, _) = build_index(&keys, &b("/"));
    assert_eq!(node_total(&idx.root), 5);
    let all = node_window(&idx.root, 0, 5);
    let first = node_window(&idx.root, 0, 2);
    let second = node_window(&idx.root, 2, 2);
    let third = node_window(&idx.root, 4, 2);
    assert_eq!(first.len(), 2);
    assert_eq!(second.len(), 2);
    assert_eq!(third.len(), 1);
    let glued: Vec<_> = first.iter().chain(&second).chain(&third).map(|e| e.key.clone()).collect();
    let whole: Vec<_> = all.iter().map(|e| e.key.clone()).collect();
    assert_eq!(glued, whole);
    // a window past the end is empty, one near the end is clipped
    assert_eq!(node_window(&idx.root, 5, 2).len(), 0);
    assert_eq!(node_window(&idx.root, 3, 10).len(), 2);
}

#[test]
fn wrapped_lines_empty_text_is_one_row() {
    assert_eq!(calculate_wrapped_lines("", 10), 1);
}

#[test]
fn wrapped_lines_breaks_at_spaces() {
    assert_eq!(calculate_wrapped_lines("hello world", 5), 3);
    assert_eq!(calculate_wrapped_lines("ab cd ef", 5), 2);
    assert_eq!(calculate_wrapped_lines("abcdef", 3), 2);
}

#[test]
fn wrapped_lines_counts_empty_lines() {
    assert_eq!(calculate_wrapped_lines("a\n\nb", 4), 3);
    assert_eq!(calculate_wrapped_lines("a\n", 4), 2);
}

#[test]
fn pane_other_toggles() {
    assert_eq!(Pane::List.other(), Pane::Value);
    assert_eq!(Pane::Value.other(), Pane::List);
}

#[test]
fn list_nav_down_moves_selection_then_window() {
    // selection below window bottom: moves inside the window, no refresh
    let (off, sel, refresh) = list_nav(ViewMode::Keys, NavKey::Down, 0, 0, 5, 0, 20);
    assert_eq!((off, sel, refresh), (0, 1, false));
    // at the window bottom: shifts the window and refreshes
    let (off, sel, refresh) = list_nav(ViewMode::Keys, NavKey::Down, 0, 4, 5, 0, 20);
    assert_eq!((off, sel, refresh), (1, 4, true));
    // at the last entry: nothing moves
    let (off, sel, refresh) = list_nav(ViewMode::Keys, NavKey::Down, 15, 4, 5, 0, 20);
    assert_eq!((off, sel, refresh), (15, 4, false));
}

#[test]
fn list_nav_up_moves_selection_then_window() {
    let (off, sel, refresh) = list_nav(ViewMode::Keys, NavKey::Up, 3, 2, 5, 0, 20);
    assert_eq!((off, sel, refresh), (3, 1, false));
    let (off, sel, refresh) = list_nav(ViewMode::Keys, NavKey::Up, 3, 0, 5, 0, 20);
    assert_eq!((off, sel, refresh), (2, 0, true));
    let (off, sel, refresh) = list_nav(ViewMode::Keys, NavKey::Up, 0, 0, 5, 0, 20);
    assert_eq!((off, sel, refresh), (0, 0, false));
}

#[test]
fn list_nav_page_down_clamps_to_end() {
    let (off, sel, refresh) = list_nav(ViewMode::Keys, NavKey::PageDown, 12, 0, 5, 0, 20);
    assert_eq!((off, sel, refresh), (15, 4, true));
    let (off, sel, refresh) = list_nav(ViewMode::Keys, NavKey::PageDown, 15, 1, 5, 0, 20);
    assert_eq!((off, sel, refresh), (15, 4, false));
}

#[test]
fn list_nav_trees_mode_never_refreshes() {
    let (off, sel, refresh) = list_nav(ViewMode::Trees, NavKey::Down, 0, 4, 5, 20, 0);
    assert_eq!((off, sel, refresh), (1, 4, false));
}

#[test]
fn list_nav_empty_keys_is_a_no_op() {
    let (off, sel, refresh) = list_nav(ViewMode::Keys, NavKey::Down, 0, 0, 5, 7, 0);
    assert_eq!((off, sel, refresh), (0, 0, false));
}
