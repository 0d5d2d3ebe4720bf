//! The paginator: resolves the cursor to a node of the index and serves the
//! visible entries at that level in contiguous windows of a requested size.

use vstd::prelude::*;

verus! {

use crate::bytes::{views_of, clone_bytes, lemma_lex_lt_irrefl};
use crate::index::{
    Node,
    node_wf,
    node_frame,
    has_child,
    child_index,
    resolve_node,
    find_child,
    lemma_children_unique,
};

/// Display projection of one child of the active node: its segment and
/// whether descent into it is possible.
pub struct KeyEntry {
    pub key: Vec<u8>,
    pub has_children: bool,
}

/// Mathematical model of a [`KeyEntry`].
pub ghost struct EntryModel {
    pub key: Seq<u8>,
    pub has_children: bool,
}

impl View for KeyEntry {
    type V = EntryModel;

    open spec fn view(&self) -> EntryModel {
        EntryModel { key: self.key@, has_children: self.has_children }
    }
}

/// The models of a sequence of entries.
pub open spec fn entry_views(s: Seq<KeyEntry>) -> Seq<EntryModel> {
    s.map_values(|e: KeyEntry| e@)
}

/// The entry shown for one child node.
pub open spec fn entry_of(c: Node) -> EntryModel {
    EntryModel { key: c.segment@, has_children: c.children@.len() > 0 }
}

/// All entries at a node's level, in child order.
pub open spec fn level_entries(n: Node) -> Seq<EntryModel> {
    n.children@.map_values(|c: Node| entry_of(c))
}

/// The slice of a level served for a window request: the entries from
/// `offset` on, at most `count` of them, clipped at the level's end.
pub open spec fn window_spec(s: Seq<EntryModel>, offset: int, count: int) -> Seq<EntryModel>
    recommends
        0 <= offset,
        0 <= count,
{
    let lo = if offset <= s.len() {
        offset
    } else {
        s.len() as int
    };
    let hi = if offset + count <= s.len() {
        offset + count
    } else {
        s.len() as int
    };
    s.subrange(lo, hi)
}

/// Walks the index from `n` along `path[i..]`; `None` when some segment no
/// longer names a child (a vanished level).
pub fn resolve<'a>(n: &'a Node, path: &Vec<Vec<u8>>, i: usize) -> (r: Option<&'a Node>)
    requires
        i <= path@.len(),
        node_frame(*n),
    ensures
        match r {
            Some(m) => resolve_node(*n, views_of(path@).skip(i as int)) == Some(*m) && node_frame(
                *m,
            ),
            None => resolve_node(*n, views_of(path@).skip(i as int)) is None,
        },
    decreases path@.len() - i,
{
    let ghost sp = views_of(path@).skip(i as int);
    if i == path.len() {
        proof {
            assert(sp.len() == 0);
        }
        return Some(n);
    }
    proof {
        assert(sp.len() > 0);
        assert(sp[0] == path@[i as int]@);
        assert(sp.skip(1) =~= views_of(path@).skip(i + 1));
    }
    let (idx, found) = find_child(n, &path[i]);
    if found {
        proof {
            assert(has_child(*n, sp[0]));
            let jc = child_index(*n, sp[0]);
            lemma_children_unique(n.children@, jc, idx as int);
            assert(resolve_node(*n, sp) == resolve_node(n.children@[idx as int], sp.skip(1)));
            assert(node_wf(n.children@[idx as int]));
        }
        resolve(&n.children[idx], path, i + 1)
    } else {
        proof {
            assert(!has_child(*n, sp[0])) by {
                if has_child(*n, sp[0]) {
                    let j = child_index(*n, sp[0]);
                    assert(n.children@[j].segment@ == sp[0]);
                    lemma_lex_lt_irrefl(sp[0]);
                }
            }
        }
        None
    }
}

/// The number of entries at a node's level.
pub fn node_total(n: &Node) -> (r: usize)
    ensures
        r == level_entries(*n).len(),
{
    n.children.len()
}

/// The window of at most `count` entries of `n`'s level starting at
/// `offset`: exactly the slice that `window_spec` names.
pub fn node_window(n: &Node, offset: usize, count: usize) -> (r: Vec<KeyEntry>)
    ensures
        entry_views(r@) == window_spec(level_entries(*n), offset as int, count as int),
{
    let ghost lv = level_entries(*n);
    let len = n.children.len();
    let lo = if offset < len {
        offset
    } else {
        len
    };
    let take = if count < len - lo {
        count
    } else {
        len - lo
    };
    let mut r: Vec<KeyEntry> = Vec::new();
    let mut t: usize = 0;
    proof {
        assert(entry_views(r@) =~= lv.subrange(lo as int, lo as int));
    }
    while t < take
        invariant
            lo + take <= len,
            len == n.children@.len(),
            lv == level_entries(*n),
            0 <= t <= take,
            entry_views(r@) == lv.subrange(lo as int, lo + t),
        decreases take - t,
    {
        let c = &n.children[lo + t];
        let e = KeyEntry { key: clone_bytes(&c.segment), has_children: !c.children.is_empty() };
        proof {
            assert(e@ == entry_of(n.children@[lo + t]));
            assert(lv[lo + t] == entry_of(n.children@[lo + t]));
            assert(entry_views(r@.push(e)) =~= entry_views(r@).push(e@));
            assert(lv.subrange(lo as int, lo + t + 1) =~= lv.subrange(lo as int, lo + t).push(
                lv[lo + t],
            ));
        }
        r.push(e);
        t += 1;
    }
    proof {
        assert(entry_views(r@) =~= window_spec(lv, offset as int, count as int));
    }
    r
}

} // verus!
