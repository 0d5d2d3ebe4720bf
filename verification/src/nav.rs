//! The navigation session: the one mutable state of the engine. It owns the
//! store handles, the cached key index for the selected keyspace, the cursor
//! (the path of segments descended so far), and the last materialized window
//! — the authoritative slice that selection by visible position refers to.

use vstd::prelude::*;

verus! {

use crate::bytes::{views_of, lex_sorted, lex_sorted_strict, lex_lt, clone_bytes, sort_byte_vecs};
use crate::index::{
    KeyIndex,
    index_wf,
    index_represents,
    rejected_of,
    build_index,
    resolve_node,
};
use crate::split::{join_bytes, join_parts};
use crate::store::{
    StoreError,
    db_tree_names,
    db_open_tree,
    tree_keys,
    tree_scan,
    tree_get,
    tree_len,
};
use crate::window::{
    KeyEntry,
    EntryModel,
    entry_views,
    level_entries,
    window_spec,
    resolve,
    node_total,
    node_window,
};

/// The cached visible slice: where it starts and the entries it shows.
pub struct KeyRange {
    pub offset: usize,
    pub keys: Vec<KeyEntry>,
}

/// What a call to `go_back_in_path` did: stepped one level up, or signalled
/// that the cursor was already at the root and the caller should leave the
/// hierarchy (return to keyspace selection).
#[derive(Clone, Copy, PartialEq, Eq, Structural, Debug)]
pub enum AscendOutcome {
    Ascended,
    ExitHierarchy,
}

/// Mathematical model of the session state.
pub ghost struct AppModel {
    /// A store is attached.
    pub has_db: bool,
    /// The keyspace names offered for selection, as last refreshed.
    pub trees: Seq<Seq<u8>>,
    /// A keyspace is selected.
    pub has_tree: bool,
    /// The cursor: segments descended from the root.
    pub path: Seq<Seq<u8>>,
    /// The effective delimiter; `None` means the flat view.
    pub delim: Option<Seq<u8>>,
    /// The cached hierarchical index, when one is built.
    pub index: Option<KeyIndex>,
    /// Offset of the cached window.
    pub offset: int,
    /// Entries of the cached window.
    pub entries: Seq<EntryModel>,
    /// Total entry count at the cursor's level.
    pub total: int,
    /// Keys excluded from the index because they are not valid text.
    pub rejected: Seq<Seq<u8>>,
}

/// The navigation session.
pub struct App {
    db: Option<sled::Db>,
    sled_trees: Vec<Vec<u8>>,
    current_tree: Option<sled::Tree>,
    current_path: Vec<Vec<u8>>,
    delimiter: Option<Vec<u8>>,
    cached_key_tree: Option<KeyIndex>,
    decode_failures: Vec<Vec<u8>>,
    current_key_range: KeyRange,
    total_keys: usize,
}

impl View for App {
    type V = AppModel;

    closed spec fn view(&self) -> AppModel {
        AppModel {
            has_db: self.db is Some,
            trees: views_of(self.sled_trees@),
            has_tree: self.current_tree is Some,
            path: views_of(self.current_path@),
            delim: match self.delimiter {
                Some(d) => Some(d@),
                None => None,
            },
            index: self.cached_key_tree,
            offset: self.current_key_range.offset as int,
            entries: entry_views(self.current_key_range.keys@),
            total: self.total_keys as int,
            rejected: views_of(self.decode_failures@),
        }
    }
}

/// The fully-qualified store key for an entry selected under a cursor: the
/// cursor's segments and the entry's key joined with the delimiter, or the
/// entry's key alone in the flat view.
pub open spec fn full_key_spec(path: Seq<Seq<u8>>, key: Seq<u8>, delim: Option<Seq<u8>>) -> Seq<
    u8,
> {
    match delim {
        Some(d) => join_bytes(path.push(key), d),
        None => key,
    }
}

/// The entry count at the level the cursor points to, out of the cached
/// index: zero when there is no index or the level has vanished.
pub open spec fn spec_level_total(index: Option<KeyIndex>, path: Seq<Seq<u8>>) -> int {
    match index {
        Some(idx) => match resolve_node(idx.root, path) {
            Some(m) => level_entries(m).len() as int,
            None => 0,
        },
        None => 0,
    }
}

/// Everything of the model except the cached window (offset and entries) is
/// the same.
pub open spec fn same_but_window(a: AppModel, b: AppModel) -> bool {
    &&& a.has_db == b.has_db
    &&& a.trees == b.trees
    &&& a.has_tree == b.has_tree
    &&& a.path == b.path
    &&& a.delim == b.delim
    &&& a.index == b.index
    &&& a.total == b.total
    &&& a.rejected == b.rejected
}

/// Everything of the model except the cursor, the window and the level total
/// is the same.
pub open spec fn same_but_cursor(a: AppModel, b: AppModel) -> bool {
    &&& a.has_db == b.has_db
    &&& a.trees == b.trees
    &&& a.has_tree == b.has_tree
    &&& a.delim == b.delim
    &&& a.index == b.index
    &&& a.rejected == b.rejected
}

impl App {
    #[verifier::type_invariant]
    spec fn inv(self) -> bool {
        &&& (self.delimiter matches Some(d) ==> d@.len() >= 1)
        &&& (self.cached_key_tree matches Some(idx) ==> index_wf(idx))
        &&& lex_sorted(views_of(self.sled_trees@))
    }

    /// A fresh session: no store, no keyspace, empty cursor and window.
    pub fn new() -> (r: App)
        ensures
            !r@.has_db,
            r@.trees == Seq::<Seq<u8>>::empty(),
            !r@.has_tree,
            r@.path == Seq::<Seq<u8>>::empty(),
            r@.delim is None,
            r@.index is None,
            r@.offset == 0,
            r@.entries == Seq::<EntryModel>::empty(),
            r@.total == 0,
            r@.rejected == Seq::<Seq<u8>>::empty(),
    {
        let r = App {
            db: None,
            sled_trees: Vec::new(),
            current_tree: None,
            current_path: Vec::new(),
            delimiter: None,
            cached_key_tree: None,
            decode_failures: Vec::new(),
            current_key_range: KeyRange { offset: 0, keys: Vec::new() },
            total_keys: 0,
        };
        proof {
            assert(r@.trees =~= Seq::<Seq<u8>>::empty());
            assert(r@.path =~= Seq::<Seq<u8>>::empty());
            assert(r@.entries =~= Seq::<EntryModel>::empty());
            assert(r@.rejected =~= Seq::<Seq<u8>>::empty());
        }
        r
    }

    /// Attaches an opened store; all other state is kept.
    pub fn set_db(&mut self, db: sled::Db)
        ensures
            final(self)@ == (AppModel { has_db: true, ..old(self)@ }),
    {
        proof {
            use_type_invariant(&*self);
        }
        self.db = Some(db);
    }

    /// Configures the delimiter (an empty one disables the hierarchy, like
    /// none at all). The cached index, cursor and window are discarded; the
    /// next keyspace selection rebuilds the index.
    pub fn set_delimiter(&mut self, d: Option<Vec<u8>>)
        ensures
            final(self)@.delim == (match d {
                Some(dd) => if dd@.len() >= 1 {
                    Some(dd@)
                } else {
                    None::<Seq<u8>>
                },
                None => None::<Seq<u8>>,
            }),
            final(self)@.index is None,
            final(self)@.path == Seq::<Seq<u8>>::empty(),
            final(self)@.offset == 0,
            final(self)@.entries == Seq::<EntryModel>::empty(),
            final(self)@.total == 0,
            final(self)@.rejected == Seq::<Seq<u8>>::empty(),
            final(self)@.has_db == old(self)@.has_db,
            final(self)@.trees == old(self)@.trees,
            final(self)@.has_tree == old(self)@.has_tree,
    {
        proof {
            use_type_invariant(&*self);
        }
        let dn = match d {
            Some(dd) => {
                if dd.len() >= 1 {
                    Some(dd)
                } else {
                    None
                }
            },
            None => None,
        };
        self.delimiter = dn;
        self.cached_key_tree = None;
        self.decode_failures = Vec::new();
        self.current_path = Vec::new();
        self.current_key_range = KeyRange { offset: 0, keys: Vec::new() };
        self.total_keys = 0;
        proof {
            assert(final(self)@.path =~= Seq::<Seq<u8>>::empty());
            assert(final(self)@.entries =~= Seq::<EntryModel>::empty());
            assert(final(self)@.rejected =~= Seq::<Seq<u8>>::empty());
        }
    }

    /// Refreshes the list of keyspace names from the store and sorts them
    /// for stable display; without a store nothing changes.
    pub fn refresh_trees(&mut self) -> (r: Result<(), StoreError>)
        ensures
            r is Ok,
            !old(self)@.has_db ==> final(self)@ == old(self)@,
            lex_sorted(final(self)@.trees),
            final(self)@ == (AppModel { trees: final(self)@.trees, ..old(self)@ }),
    {
        proof {
            use_type_invariant(&*self);
        }
        match &self.db {
            Some(db) => {
                let names = db_tree_names(db);
                let sorted = sort_byte_vecs(names);
                self.sled_trees = sorted;
            },
            None => {
                proof {
                    assert(lex_sorted(self@.trees));
                }
            },
        }
        Ok(())
    }

    /// Selects the keyspace at `index` in the refreshed name list: opens it,
    /// rebuilds the index when a delimiter is configured (excluding keys that
    /// are not valid text), clears the cursor and resets the window. An
    /// out-of-range `index` or a missing store changes nothing; on a storage
    /// failure the previous selection stays and the failure is reported.
    pub fn select_tree(&mut self, index: usize) -> (r: Result<(), StoreError>)
        ensures
            !old(self)@.has_db ==> r is Ok && final(self)@ == old(self)@,
            old(self)@.has_db && index >= old(self)@.trees.len() ==> r is Ok && final(self)@ == old(self)@,
            r is Err ==> final(self)@ == old(self)@,
            old(self)@.has_db && index < old(self)@.trees.len() && r is Ok ==> {
                &&& final(self)@.has_db == old(self)@.has_db
                &&& final(self)@.trees == old(self)@.trees
                &&& final(self)@.delim == old(self)@.delim
                &&& final(self)@.has_tree
                &&& final(self)@.path == Seq::<Seq<u8>>::empty()
                &&& final(self)@.offset == 0
                &&& final(self)@.entries == Seq::<EntryModel>::empty()
                &&& (old(self)@.delim matches Some(d) ==> final(self)@.index matches Some(idx)
                    && index_wf(idx) && (exists|ks: Seq<Seq<u8>>|
                    {
                        &&& lex_sorted_strict(ks)
                        &&& index_represents(idx, ks, d)
                        &&& final(self)@.rejected == rejected_of(ks)
                    }) && final(self)@.total == level_entries(idx.root).len())
                &&& (old(self)@.delim is None ==> final(self)@.index is None && final(self)@.rejected == Seq::<Seq<u8>>::empty())
            },
    {
        proof {
            use_type_invariant(&*self);
        }
        let name = match &self.db {
            Some(_) => {
                if index < self.sled_trees.len() {
                    clone_bytes(&self.sled_trees[index])
                } else {
                    return Ok(());
                }
            },
            None => {
                return Ok(());
            },
        };
        let db = match &self.db {
            Some(db) => db,
            None => {
                return Ok(());
            },
        };
        let tree = match db_open_tree(db, &name) {
            Ok(t) => t,
            Err(e) => {
                return Err(e);
            },
        };
        match &self.delimiter {
            Some(d) => {
                let keys = match tree_keys(&tree) {
                    Ok(ks) => ks,
                    Err(e) => {
                        return Err(e);
                    },
                };
                let (idx, rej) = build_index(&keys, d);
                let t = node_total(&idx.root);
                self.current_tree = Some(tree);
                self.cached_key_tree = Some(idx);
                self.decode_failures = rej;
                self.current_path = Vec::new();
                self.current_key_range = KeyRange { offset: 0, keys: Vec::new() };
                self.total_keys = t;
                proof {
                    assert(final(self)@.path =~= Seq::<Seq<u8>>::empty());
                    assert(final(self)@.entries =~= Seq::<EntryModel>::empty());
                }
            },
            None => {
                let t = tree_len(&tree);
                self.current_tree = Some(tree);
                self.cached_key_tree = None;
                self.decode_failures = Vec::new();
                self.current_path = Vec::new();
                self.current_key_range = KeyRange { offset: 0, keys: Vec::new() };
                self.total_keys = t;
                proof {
                    assert(final(self)@.path =~= Seq::<Seq<u8>>::empty());
                    assert(final(self)@.entries =~= Seq::<EntryModel>::empty());
                    assert(final(self)@.rejected =~= Seq::<Seq<u8>>::empty());
                }
            },
        }
        Ok(())
    }

    /// Serves the window at `offset` of at most `count` entries for the
    /// cursor's level and caches it: from the index in the hierarchical view
    /// (resetting to the root when the cursor's level has vanished), from a
    /// bounded store scan in the flat view. On a storage failure nothing
    /// changes.
    pub fn set_key_range(&mut self, offset: usize, count: usize) -> (r: Result<(), StoreError>)
        ensures
            r is Err ==> final(self)@ == old(self)@,
            old(self)@.delim is None && !old(self)@.has_tree ==> r is Ok && same_but_window(
                final(self)@,
                old(self)@,
            ) && final(self)@.offset == 0 && final(self)@.entries == Seq::<EntryModel>::empty(),
            old(self)@.delim is None && old(self)@.has_tree && r is Ok ==> {
                &&& same_but_window(final(self)@, old(self)@)
                &&& final(self)@.offset == offset
                &&& final(self)@.entries.len() <= count
                &&& (forall|i: int|
                    0 <= i < final(self)@.entries.len() ==> !(#[trigger] final(self)@.entries[i]).has_children)
                &&& (forall|i: int, j: int|
                    0 <= i < j < final(self)@.entries.len() ==> lex_lt(
                        (#[trigger] final(self)@.entries[i]).key,
                        (#[trigger] final(self)@.entries[j]).key,
                    ))
            },
            old(self)@.delim is Some && old(self)@.index is None ==> r is Ok && same_but_window(
                final(self)@,
                old(self)@,
            ) && final(self)@.offset == 0 && final(self)@.entries == Seq::<EntryModel>::empty(),
            (old(self)@.delim is Some && old(self)@.index is Some && resolve_node(
                old(self)@.index->Some_0.root,
                old(self)@.path,
            ) is Some) ==> ({
                let m = resolve_node(old(self)@.index->Some_0.root, old(self)@.path)->Some_0;
                &&& r is Ok
                &&& same_but_window(final(self)@, old(self)@)
                &&& final(self)@.offset == offset
                &&& final(self)@.entries == window_spec(
                    level_entries(m),
                    offset as int,
                    count as int,
                )
            }),
            (old(self)@.delim is Some && old(self)@.index is Some && resolve_node(
                old(self)@.index->Some_0.root,
                old(self)@.path,
            ) is None) ==> ({
                let root = old(self)@.index->Some_0.root;
                &&& r is Ok
                &&& same_but_cursor(final(self)@, old(self)@)
                &&& final(self)@.path == Seq::<Seq<u8>>::empty()
                &&& final(self)@.offset == 0
                &&& final(self)@.entries == window_spec(level_entries(root), 0, count as int)
                &&& final(self)@.total == level_entries(root).len()
            }),
    {
        proof {
            use_type_invariant(&*self);
        }
        let has_delim = match &self.delimiter {
            Some(_) => true,
            None => false,
        };
        if !has_delim {
            match &self.current_tree {
                Some(tree) => {
                    let keys = match tree_scan(tree, offset, count) {
                        Ok(ks) => ks,
                        Err(e) => {
                            return Err(e);
                        },
                    };
                    let ghost kvs = views_of(keys@);
                    proof {
                        assert(forall|t: int| 0 <= t < kvs.len() ==> kvs[t] == keys@[t]@);
                    }
                    let entries = entries_from_keys(keys);
                    self.current_key_range = KeyRange { offset, keys: entries };
                    proof {
                        let es = self@.entries;
                        assert forall|i: int, j: int| 0 <= i < j < es.len() implies lex_lt(
                            (#[trigger] es[i]).key,
                            (#[trigger] es[j]).key,
                        ) by {
                            assert(lex_lt(kvs[i], kvs[j]));
                        }
                    }
                },
                None => {
                    self.current_key_range = KeyRange { offset: 0, keys: Vec::new() };
                    proof {
                        assert(final(self)@.entries =~= Seq::<EntryModel>::empty());
                    }
                },
            }
            return Ok(());
        }
        match &self.cached_key_tree {
            Some(idx) => {
                match resolve(&idx.root, &self.current_path, 0) {
                    Some(node) => {
                        proof {
                            assert(views_of(self.current_path@).skip(0) =~= views_of(
                                self.current_path@,
                            ));
                        }
                        let entries = node_window(node, offset, count);
                        self.current_key_range = KeyRange { offset, keys: entries };
                    },
                    None => {
                        proof {
                            assert(views_of(self.current_path@).skip(0) =~= views_of(
                                self.current_path@,
                            ));
                        }
                        let entries = node_window(&idx.root, 0, count);
                        let t = node_total(&idx.root);
                        self.current_key_range = KeyRange { offset: 0, keys: entries };
                        self.current_path = Vec::new();
                        self.total_keys = t;
                        proof {
                            assert(final(self)@.path =~= Seq::<Seq<u8>>::empty());
                        }
                    },
                }
            },
            None => {
                self.current_key_range = KeyRange { offset: 0, keys: Vec::new() };
                proof {
                    assert(final(self)@.entries =~= Seq::<EntryModel>::empty());
                }
            },
        }
        Ok(())
    }

    /// Descends into the entry at visible position `index` of the cached
    /// window. Valid only in the hierarchical view, for an in-range entry
    /// that has children (checked against the cached window, the single
    /// authority); otherwise nothing changes. Descending appends the entry's
    /// key to the cursor, invalidates the window and recounts the new level;
    /// the caller fetches the next window from offset zero.
    pub fn select_key(&mut self, index: usize) -> (r: Result<(), StoreError>)
        ensures
            r is Ok,
            !(old(self)@.delim is Some && old(self)@.index is Some && index < old(self)@.entries.len() && old(self)@.entries[index as int].has_children) ==> final(self)@
                == old(self)@,
            old(self)@.delim is Some && old(self)@.index is Some && index < old(self)@.entries.len() && old(self)@.entries[index as int].has_children ==> {
                &&& same_but_cursor(final(self)@, old(self)@)
                &&& final(self)@.path == old(self)@.path.push(
                    old(self)@.entries[index as int].key,
                )
                &&& final(self)@.offset == 0
                &&& final(self)@.entries == Seq::<EntryModel>::empty()
                &&& final(self)@.total == spec_level_total(old(self)@.index, final(self)@.path)
            },
    {
        proof {
            use_type_invariant(&*self);
        }
        let enabled = match (&self.delimiter, &self.cached_key_tree) {
            (Some(_), Some(_)) => true,
            _ => false,
        };
        if !enabled {
            return Ok(());
        }
        if index >= self.current_key_range.keys.len() {
            return Ok(());
        }
        if !self.current_key_range.keys[index].has_children {
            return Ok(());
        }
        let seg = clone_bytes(&self.current_key_range.keys[index].key);
        let mut path: Vec<Vec<u8>> = Vec::new();
        std::mem::swap(&mut path, &mut self.current_path);
        path.push(seg);
        self.current_path = path;
        proof {
            assert(views_of(self.current_path@) =~= old(self)@.path.push(
                old(self)@.entries[index as int].key,
            ));
        }
        let t = match &self.cached_key_tree {
            Some(idx) => hier_total(idx, &self.current_path),
            None => 0,
        };
        self.current_key_range = KeyRange { offset: 0, keys: Vec::new() };
        self.total_keys = t;
        proof {
            assert(final(self)@.entries =~= Seq::<EntryModel>::empty());
        }
        Ok(())
    }

    /// Steps one level up. At the root it changes nothing and signals that
    /// the caller should leave the hierarchy; otherwise it pops the last
    /// cursor segment, invalidates the window and recounts the level; the
    /// caller fetches the next window from offset zero.
    pub fn go_back_in_path(&mut self) -> (r: AscendOutcome)
        ensures
            old(self)@.path.len() == 0 ==> r == AscendOutcome::ExitHierarchy && final(self)@ == old(self)@,
            old(self)@.path.len() > 0 ==> {
                &&& r == AscendOutcome::Ascended
                &&& same_but_cursor(final(self)@, old(self)@)
                &&& final(self)@.path == old(self)@.path.drop_last()
                &&& final(self)@.offset == 0
                &&& final(self)@.entries == Seq::<EntryModel>::empty()
                &&& final(self)@.total == spec_level_total(old(self)@.index, final(self)@.path)
            },
    {
        proof {
            use_type_invariant(&*self);
        }
        if self.current_path.len() == 0 {
            return AscendOutcome::ExitHierarchy;
        }
        let mut path: Vec<Vec<u8>> = Vec::new();
        std::mem::swap(&mut path, &mut self.current_path);
        let _ = path.pop();
        self.current_path = path;
        proof {
            assert(views_of(self.current_path@) =~= old(self)@.path.drop_last());
        }
        let t = match &self.cached_key_tree {
            Some(idx) => hier_total(idx, &self.current_path),
            None => 0,
        };
        self.current_key_range = KeyRange { offset: 0, keys: Vec::new() };
        self.total_keys = t;
        proof {
            assert(final(self)@.entries =~= Seq::<EntryModel>::empty());
        }
        AscendOutcome::Ascended
    }

    /// The fully-qualified store key for the entry at visible position
    /// `index` of the cached window, or `None` when the position is out of
    /// range (selection out of range is a no-op, not an error).
    pub fn resolve_full_key(&self, index: usize) -> (r: Option<Vec<u8>>)
        ensures
            index < self@.entries.len() ==> (r is Some && r->Some_0@ == full_key_spec(
                self@.path,
                self@.entries[index as int].key,
                self@.delim,
            )),
            index >= self@.entries.len() ==> r is None,
    {
        proof {
            use_type_invariant(&*self);
        }
        if index >= self.current_key_range.keys.len() {
            return None;
        }
        let entry_key = clone_bytes(&self.current_key_range.keys[index].key);
        match &self.delimiter {
            Some(d) => {
                let mut parts = clone_byte_vecs(&self.current_path);
                parts.push(entry_key);
                proof {
                    assert(views_of(parts@) =~= self@.path.push(
                        self@.entries[index as int].key,
                    ));
                }
                Some(join_parts(&parts, d))
            },
            None => Some(entry_key),
        }
    }

    /// Fetches the value bound to the entry at visible position `index`:
    /// `Ok(None)` when no keyspace is selected, the position is out of range,
    /// or no value is bound at that exact key (a pure directory level, or a
    /// key deleted from the store since the index was built).
    pub fn get_value(&self, index: usize) -> (r: Result<Option<Vec<u8>>, StoreError>)
        ensures
            !self@.has_tree || index >= self@.entries.len() ==> (r is Ok && r->Ok_0 is None),
    {
        proof {
            use_type_invariant(&*self);
        }
        let tree = match &self.current_tree {
            Some(t) => t,
            None => {
                return Ok(None);
            },
        };
        match self.resolve_full_key(index) {
            Some(key) => tree_get(tree, &key),
            None => Ok(None),
        }
    }

    /// The keyspace names offered for selection, sorted.
    pub fn trees(&self) -> (r: &Vec<Vec<u8>>)
        ensures
            views_of(r@) == self@.trees,
    {
        &self.sled_trees
    }

    /// The cursor: the segments descended from the root.
    pub fn path(&self) -> (r: &Vec<Vec<u8>>)
        ensures
            views_of(r@) == self@.path,
    {
        &self.current_path
    }

    /// The cached window: the authoritative slice that selection by visible
    /// position refers to.
    pub fn key_range(&self) -> (r: &KeyRange)
        ensures
            r.offset == self@.offset,
            entry_views(r.keys@) == self@.entries,
    {
        &self.current_key_range
    }

    /// The entry count at the cursor's level, as last computed.
    pub fn total_keys(&self) -> (r: usize)
        ensures
            r == self@.total,
    {
        self.total_keys
    }

    /// Whether a store is attached.
    pub fn has_db(&self) -> (r: bool)
        ensures
            r == self@.has_db,
    {
        match &self.db {
            Some(_) => true,
            None => false,
        }
    }

    /// The handle of the selected keyspace, for display purposes.
    pub fn tree_handle(&self) -> (r: Option<&sled::Tree>)
        ensures
            r is Some <==> self@.has_tree,
    {
        match &self.current_tree {
            Some(t) => Some(t),
            None => None,
        }
    }

    /// The keys excluded from the index because they are not valid text.
    pub fn decode_failures(&self) -> (r: &Vec<Vec<u8>>)
        ensures
            views_of(r@) == self@.rejected,
    {
        &self.decode_failures
    }
}

/// The entry count at the level `path` points to inside `idx`, zero when the
/// level has vanished.
fn hier_total(idx: &KeyIndex, path: &Vec<Vec<u8>>) -> (r: usize)
    requires
        index_wf(*idx),
    ensures
        r == spec_level_total(Some(*idx), views_of(path@)),
{
    proof {
        assert(views_of(path@).skip(0) =~= views_of(path@));
    }
    match resolve(&idx.root, path, 0) {
        Some(node) => node_total(node),
        None => 0,
    }
}

/// Projects scanned flat keys to window entries; no descent is possible in
/// the flat view.
fn entries_from_keys(keys: Vec<Vec<u8>>) -> (r: Vec<KeyEntry>)
    ensures
        entry_views(r@).len() == keys@.len(),
        forall|i: int|
            0 <= i < keys@.len() ==> (#[trigger] entry_views(r@)[i]).key == keys@[i]@ && !entry_views(
                r@,
            )[i].has_children,
{
    let mut r: Vec<KeyEntry> = Vec::new();
    let mut i: usize = 0;
    while i < keys.len()
        invariant
            0 <= i <= keys@.len(),
            entry_views(r@).len() == i,
            forall|t: int|
                0 <= t < i ==> (#[trigger] entry_views(r@)[t]).key == keys@[t]@ && !entry_views(
                    r@,
                )[t].has_children,
        decreases keys@.len() - i,
    {
        let e = KeyEntry { key: clone_bytes(&keys[i]), has_children: false };
        proof {
            assert(entry_views(r@.push(e)) =~= entry_views(r@).push(e@));
        }
        r.push(e);
        i += 1;
    }
    r
}

/// Copies a vector of byte vectors.
fn clone_byte_vecs(a: &Vec<Vec<u8>>) -> (r: Vec<Vec<u8>>)
    ensures
        views_of(r@) == views_of(a@),
{
    let mut r: Vec<Vec<u8>> = Vec::new();
    let mut i: usize = 0;
    proof {
        assert(views_of(r@) =~= views_of(a@).take(0));
    }
    while i < a.len()
        invariant
            0 <= i <= a@.len(),
            views_of(r@) == views_of(a@).take(i as int),
        decreases a@.len() - i,
    {
        let x = clone_bytes(&a[i]);
        proof {
            assert(views_of(r@.push(x)) =~= views_of(r@).push(x@));
            assert(views_of(a@).take(i + 1) =~= views_of(a@).take(i as int).push(views_of(a@)[i as int]));
        }
        r.push(x);
        i += 1;
    }
    proof {
        assert(views_of(a@).take(a@.len() as int) =~= views_of(a@));
    }
    r
}

} // verus!
