//! The laws the engine guarantees, stated as public proof functions over the
//! spec functions that the executable functions' contracts use.

use vstd::prelude::*;

verus! {

use vstd::utf8::valid_utf8;
use crate::index::{
    KeyIndex,
    index_wf,
    index_represents,
    key_path_within,
    has_path,
    resolve_node,
    lemma_resolve_frame,
    lemma_has_path_resolve,
    lemma_resolve_child,
    Node,
};
use crate::index::{lemma_wf_value_below, lemma_resolve_then_path};
use crate::split::{split_bytes, join_bytes, lemma_split_join};
use crate::window::{level_entries, window_spec, entry_of, EntryModel};

/// `p` is a prefix of `s`.
pub open spec fn path_prefix(p: Seq<Seq<u8>>, s: Seq<Seq<u8>>) -> bool {
    p.len() <= s.len() && s.take(p.len() as int) == p
}

/// Round-trip law: in an index built over `keys` with delimiter `d`, every
/// valid stored key is reachable through exactly one value-bearing path, and
/// rejoining that path with the delimiter gives the key back byte for byte.
pub proof fn lemma_key_round_trip(idx: KeyIndex, keys: Seq<Seq<u8>>, d: Seq<u8>, k: Seq<u8>)
    requires
        d.len() >= 1,
        index_represents(idx, keys, d),
        keys.contains(k),
        valid_utf8(k),
    ensures
        has_path(idx.root, split_bytes(k, d)),
        join_bytes(split_bytes(k, d), d) == k,
        forall|p: Seq<Seq<u8>>|
            #[trigger] has_path(idx.root, p) && join_bytes(p, d) == k ==> p == split_bytes(k, d),
{
    lemma_split_join(k, d);
    let j = choose|j: int| 0 <= j < keys.len() && keys[j] == k;
    assert(key_path_within(keys, d, split_bytes(k, d), keys.len() as int)) by {
        assert(valid_utf8(keys[j]) && split_bytes(keys[j], d) == split_bytes(k, d));
    }
    assert(has_path(idx.root, split_bytes(k, d)));
    assert forall|p: Seq<Seq<u8>>|
        #[trigger] has_path(idx.root, p) && join_bytes(p, d) == k implies p == split_bytes(
        k,
        d,
    ) by {
        assert(key_path_within(keys, d, p, keys.len() as int));
        let t = choose|t: int|
            0 <= t < keys.len() && valid_utf8(#[trigger] keys[t]) && split_bytes(keys[t], d) == p;
        lemma_split_join(keys[t], d);
        assert(keys[t] == join_bytes(p, d));
    }
}

/// The full window law: the window at offset zero whose size is the level's
/// total count is exactly the whole level — `TotalCount` entries, none
/// missing, none duplicated.
pub proof fn lemma_window_full(n: Node)
    ensures
        window_spec(level_entries(n), 0, level_entries(n).len() as int) == level_entries(n),
        window_spec(level_entries(n), 0, level_entries(n).len() as int).len() == level_entries(
            n,
        ).len(),
{
    assert(window_spec(level_entries(n), 0, level_entries(n).len() as int) =~= level_entries(n));
}

/// The partition law: two windows over contiguous, non-overlapping ranges
/// concatenate to the single window over the combined range, with no gap and
/// no duplicate. With the full window law, summed windows reconstruct the
/// whole level.
pub proof fn lemma_window_partition(n: Node, offset: int, c1: int, c2: int)
    requires
        0 <= offset,
        0 <= c1,
        0 <= c2,
    ensures
        window_spec(level_entries(n), offset, c1) + window_spec(level_entries(n), offset + c1, c2)
            == window_spec(level_entries(n), offset, c1 + c2),
{
    assert(window_spec(level_entries(n), offset, c1) + window_spec(
        level_entries(n),
        offset + c1,
        c2,
    ) =~= window_spec(level_entries(n), offset, c1 + c2));
}

/// The windows served for a run of requests with contiguous offsets, in
/// order: one window of `cs[t]` entries for each `t`, each starting where
/// the one before ended.
pub open spec fn windows_concat(s: Seq<EntryModel>, offset: int, cs: Seq<int>) -> Seq<EntryModel>
    decreases cs.len(),
{
    if cs.len() == 0 {
        Seq::empty()
    } else {
        window_spec(s, offset, cs[0]) + windows_concat(s, offset + cs[0], cs.skip(1))
    }
}

/// The total size of a run of window requests.
pub open spec fn sum_counts(cs: Seq<int>) -> int
    decreases cs.len(),
{
    if cs.len() == 0 {
        0
    } else {
        cs[0] + sum_counts(cs.skip(1))
    }
}

proof fn lemma_sum_counts_nonneg(cs: Seq<int>)
    requires
        forall|t: int| 0 <= t < cs.len() ==> cs[t] >= 0,
    ensures
        sum_counts(cs) >= 0,
    decreases cs.len(),
{
    if cs.len() > 0 {
        lemma_sum_counts_nonneg(cs.skip(1));
    }
}

/// The partition law in full: a run of windows over contiguous,
/// non-overlapping offset ranges, summed, reconstructs exactly the single
/// window over the whole requested range — no gaps, no duplicates. With
/// offset zero and requests totalling the level's count, that is the whole
/// level (the full window law).
pub proof fn lemma_windows_reconstruct(n: Node, offset: int, cs: Seq<int>)
    requires
        0 <= offset,
        forall|t: int| 0 <= t < cs.len() ==> cs[t] >= 0,
    ensures
        windows_concat(level_entries(n), offset, cs) == window_spec(
            level_entries(n),
            offset,
            sum_counts(cs),
        ),
    decreases cs.len(),
{
    let s = level_entries(n);
    if cs.len() == 0 {
        assert(windows_concat(s, offset, cs) =~= window_spec(s, offset, 0));
    } else {
        assert(forall|t: int| 0 <= t < cs.skip(1).len() ==> cs.skip(1)[t] >= 0);
        lemma_windows_reconstruct(n, offset + cs[0], cs.skip(1));
        lemma_sum_counts_nonneg(cs.skip(1));
        lemma_window_partition(n, offset, cs[0], sum_counts(cs.skip(1)));
    }
}

/// No stray nodes: every level the cursor can descend to exists only
/// because the split path of some valid stored key passes through it.
pub proof fn lemma_no_stray_nodes(idx: KeyIndex, keys: Seq<Seq<u8>>, d: Seq<u8>, p: Seq<Seq<u8>>)
    requires
        index_wf(idx),
        index_represents(idx, keys, d),
        resolve_node(idx.root, p) is Some,
        p.len() >= 1,
    ensures
        exists|k: Seq<u8>|
            #![trigger split_bytes(k, d)]
            keys.contains(k) && valid_utf8(k) && path_prefix(p, split_bytes(k, d)),
{
    lemma_resolve_frame(idx.root, p);
    let m = resolve_node(idx.root, p)->Some_0;
    lemma_wf_value_below(m);
    let q = choose|q: Seq<Seq<u8>>| #[trigger] has_path(m, q);
    lemma_resolve_then_path(idx.root, p, q);
    assert(key_path_within(keys, d, p + q, keys.len() as int));
    let j = choose|j: int|
        0 <= j < keys.len() && valid_utf8(#[trigger] keys[j]) && split_bytes(keys[j], d) == p + q;
    assert(keys.contains(keys[j]));
    assert((p + q).take(p.len() as int) =~= p);
    assert(path_prefix(p, split_bytes(keys[j], d)));
}

/// Value and children are independent: a child of the active node reports
/// `has_children` exactly when it has children, and its own path ends a
/// stored key exactly when it carries a value — neither fact hides the other.
pub proof fn lemma_value_and_children_coexist(idx: KeyIndex, cursor: Seq<Seq<u8>>, m: Node, j: int)
    requires
        index_wf(idx),
        resolve_node(idx.root, cursor) == Some(m),
        0 <= j < m.children@.len(),
    ensures
        level_entries(m)[j].has_children <==> m.children@[j].children@.len() > 0,
        has_path(idx.root, cursor.push(m.children@[j].segment@)) <==> m.children@[j].has_value,
{
    assert(level_entries(m)[j] == entry_of(m.children@[j]));
    lemma_resolve_frame(idx.root, cursor);
    lemma_resolve_child(idx.root, cursor, m, j);
    lemma_has_path_resolve(idx.root, cursor.push(m.children@[j].segment@));
}

} // verus!
