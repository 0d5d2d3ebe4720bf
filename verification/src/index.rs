//! The hierarchical key index: a tree of nodes derived from splitting every
//! valid key of a keyspace on the configured delimiter. Children of a node
//! are kept in strictly ascending lexicographic order of their segments, so
//! every segment names at most one child. A node carries `has_value` when
//! some key terminates exactly at its path; a node with no children always
//! carries a value, so every node lies on the path of some stored key.

use vstd::prelude::*;

verus! {

use vstd::utf8::valid_utf8;
use crate::bytes::{lex_lt, views_of, clone_bytes};
use crate::bytes::{lemma_lex_lt_irrefl, lemma_lex_lt_asym, Cmp, lex_cmp};
use crate::split::split_bytes;
use crate::split::{split_key, lemma_split_nonempty};
use crate::store::utf8_check;

/// One level of the hierarchy: a segment, whether some key ends here, and the
/// ordered children reached by longer keys.
pub struct Node {
    pub segment: Vec<u8>,
    pub has_value: bool,
    pub children: Vec<Node>,
}

/// The index for one keyspace selection: a root whose children are the
/// top-level segments. The root itself carries no segment and no value.
pub struct KeyIndex {
    pub root: Node,
}

/// Children are in strictly ascending lexicographic order of their segments.
pub open spec fn children_sorted(cs: Seq<Node>) -> bool {
    forall|i: int, j: int|
        0 <= i < j < cs.len() ==> lex_lt((#[trigger] cs[i]).segment@, (#[trigger] cs[j]).segment@)
}

/// Well-formed node: sorted children, each child well-formed, and a node
/// without children marks the end of some key.
pub open spec fn node_wf(n: Node) -> bool
    decreases n,
{
    &&& children_sorted(n.children@)
    &&& (forall|i: int| 0 <= i < n.children@.len() ==> node_wf(#[trigger] n.children@[i]))
    &&& (n.children@.len() == 0 ==> n.has_value)
}

/// What a node needs of its children alone: sorted, each well-formed. The
/// root of an index satisfies this even when it is empty.
pub open spec fn node_frame(n: Node) -> bool {
    &&& children_sorted(n.children@)
    &&& (forall|i: int| 0 <= i < n.children@.len() ==> node_wf(#[trigger] n.children@[i]))
}

/// Well-formed index: a root with empty segment, no value of its own, and
/// well-formed sorted children.
pub open spec fn index_wf(idx: KeyIndex) -> bool {
    &&& idx.root.segment@ == Seq::<u8>::empty()
    &&& !idx.root.has_value
    &&& node_frame(idx.root)
}

/// Some child of `n` carries segment `s`.
pub open spec fn has_child(n: Node, s: Seq<u8>) -> bool {
    exists|j: int| 0 <= j < n.children@.len() && (#[trigger] n.children@[j]).segment@ == s
}

/// The position of the child of `n` that carries segment `s`.
pub open spec fn child_index(n: Node, s: Seq<u8>) -> int {
    choose|j: int| 0 <= j < n.children@.len() && (#[trigger] n.children@[j]).segment@ == s
}

/// The node reached from `n` by descending along the segments of `p`, if
/// every segment names a child; `None` when the path has vanished.
pub open spec fn resolve_node(n: Node, p: Seq<Seq<u8>>) -> Option<Node>
    decreases p.len(),
{
    if p.len() == 0 {
        Some(n)
    } else if has_child(n, p[0]) {
        resolve_node(n.children@[child_index(n, p[0])], p.skip(1))
    } else {
        None
    }
}

/// Some key ends exactly at path `p` below `n` (`p` does not include `n`'s
/// own segment).
pub open spec fn has_path(n: Node, p: Seq<Seq<u8>>) -> bool
    decreases p.len(),
{
    if p.len() == 0 {
        n.has_value
    } else {
        exists|j: int|
            0 <= j < n.children@.len() && (#[trigger] n.children@[j]).segment@ == p[0] && has_path(
                n.children@[j],
                p.skip(1),
            )
    }
}

/// Two paths with the same first segment and the same rest are the same path.
proof fn lemma_seq_cons_eq(p: Seq<Seq<u8>>, s: Seq<Seq<u8>>)
    requires
        p.len() > 0,
        s.len() > 0,
        p[0] == s[0],
        p.skip(1) == s.skip(1),
    ensures
        p == s,
{
    assert(p.skip(1).len() == p.len() - 1);
    assert(s.skip(1).len() == s.len() - 1);
    assert forall|m: int| 0 <= m < p.len() implies p[m] == s[m] by {
        if m > 0 {
            assert(p.skip(1)[m - 1] == p[m]);
            assert(s.skip(1)[m - 1] == s[m]);
        }
    }
    assert(p =~= s);
}

/// In a sorted child list, a segment names at most one child.
pub proof fn lemma_children_unique(cs: Seq<Node>, j1: int, j2: int)
    requires
        children_sorted(cs),
        0 <= j1 < cs.len(),
        0 <= j2 < cs.len(),
        cs[j1].segment@ == cs[j2].segment@,
    ensures
        j1 == j2,
{
    if j1 < j2 {
        assert(lex_lt(cs[j1].segment@, cs[j2].segment@));
        lemma_lex_lt_irrefl(cs[j1].segment@);
    }
    if j2 < j1 {
        assert(lex_lt(cs[j2].segment@, cs[j1].segment@));
        lemma_lex_lt_irrefl(cs[j1].segment@);
    }
}

/// Position of the child with segment `s` if one exists (`r.1` true), else
/// the position where such a child would be inserted to keep the order.
pub(crate) fn find_child(n: &Node, s: &Vec<u8>) -> (r: (usize, bool))
    requires
        children_sorted(n.children@),
    ensures
        r.1 ==> r.0 < n.children@.len() && n.children@[r.0 as int].segment@ == s@,
        !r.1 ==> r.0 <= n.children@.len() && (forall|j: int|
            0 <= j < r.0 ==> lex_lt((#[trigger] n.children@[j]).segment@, s@)) && (forall|j: int|
            r.0 <= j < n.children@.len() ==> lex_lt(s@, (#[trigger] n.children@[j]).segment@)),
{
    let mut idx: usize = 0;
    loop
        invariant
            children_sorted(n.children@),
            0 <= idx <= n.children@.len(),
            forall|j: int| 0 <= j < idx ==> lex_lt((#[trigger] n.children@[j]).segment@, s@),
        decreases n.children@.len() - idx,
    {
        if idx == n.children.len() {
            return (idx, false);
        }
        let c = lex_cmp(&n.children[idx].segment, s);
        match c {
            Cmp::Lt => {
                idx += 1;
            },
            Cmp::Eq => {
                return (idx, true);
            },
            Cmp::Gt => {
                proof {
                    assert forall|j: int| idx <= j < n.children@.len() implies lex_lt(
                        s@,
                        (#[trigger] n.children@[j]).segment@,
                    ) by {
                        if j > idx {
                            crate::bytes::lemma_lex_lt_trans(
                                s@,
                                n.children@[idx as int].segment@,
                                n.children@[j].segment@,
                            );
                        }
                    }
                }
                return (idx, false);
            },
        }
    }
}

/// A fresh chain of nodes for segments `parts[i..]`: each node carries the
/// next segment, the last one carries the value.
fn make_chain(parts: &Vec<Vec<u8>>, i: usize) -> (r: Node)
    requires
        i < parts@.len(),
    ensures
        r.segment@ == parts@[i as int]@,
        node_wf(r),
        forall|q: Seq<Seq<u8>>| #[trigger]
            has_path(r, q) <==> q == views_of(parts@).skip(i + 1),
    decreases parts@.len() - i,
{
    let seg = clone_bytes(&parts[i]);
    let plen = parts.len();
    if i == plen - 1 {
        let r = Node { segment: seg, has_value: true, children: Vec::new() };
        proof {
            assert(views_of(parts@).skip(i + 1) =~= Seq::<Seq<u8>>::empty());
            assert forall|q: Seq<Seq<u8>>| #[trigger]
                has_path(r, q) <==> q == views_of(parts@).skip(i + 1) by {
                if q.len() == 0 {
                    assert(q =~= Seq::<Seq<u8>>::empty());
                }
            }
        }
        r
    } else {
        let child = make_chain(parts, i + 1);
        let mut children: Vec<Node> = Vec::new();
        children.push(child);
        let r = Node { segment: seg, has_value: false, children };
        proof {
            let sfx = views_of(parts@).skip(i + 1);
            let sfx2 = views_of(parts@).skip(i + 2);
            assert(sfx.len() >= 1);
            assert(sfx[0] == parts@[i + 1]@);
            assert(sfx.skip(1) =~= sfx2);
            assert forall|q: Seq<Seq<u8>>| #[trigger] has_path(r, q) <==> q == sfx by {
                if q.len() == 0 {
                    assert(!has_path(r, q));
                    assert(q != sfx);
                } else {
                    assert(r.children@.len() == 1);
                    assert(r.children@[0] == child);
                    if has_path(r, q) {
                        assert(child.segment@ == q[0]);
                        assert(has_path(child, q.skip(1)));
                        assert(q.skip(1) == sfx2);
                        lemma_seq_cons_eq(q, sfx);
                    }
                    if q == sfx {
                        assert(q[0] == child.segment@);
                        assert(q.skip(1) =~= sfx2);
                        assert(has_path(child, q.skip(1)));
                    }
                }
            }
            assert(node_wf(r));
        }
        r
    }
}

/// Inserts the path `parts[i..]` below `n`: afterwards exactly the old paths
/// and the new one are present, the order of children is kept, and the node's
/// own segment is unchanged.
pub fn insert_path(n: Node, parts: &Vec<Vec<u8>>, i: usize) -> (r: Node)
    requires
        i <= parts@.len(),
        children_sorted(n.children@),
        forall|t: int| 0 <= t < n.children@.len() ==> node_wf(#[trigger] n.children@[t]),
    ensures
        r.segment == n.segment,
        r.has_value == (n.has_value || i == parts@.len()),
        node_wf(r),
        forall|p: Seq<Seq<u8>>| #[trigger]
            has_path(r, p) <==> (has_path(n, p) || p == views_of(parts@).skip(i as int)),
    decreases parts@.len() - i,
{
    let ghost n0 = n;
    let ghost sfx = views_of(parts@).skip(i as int);
    let mut node = n;
    if i == parts.len() {
        node.has_value = true;
        proof {
            assert(sfx =~= Seq::<Seq<u8>>::empty());
            assert forall|p: Seq<Seq<u8>>| #[trigger]
                has_path(node, p) <==> (has_path(n0, p) || p == sfx) by {
                if p.len() == 0 {
                    assert(p =~= Seq::<Seq<u8>>::empty());
                    assert(has_path(node, p));
                } else {
                    assert(p != sfx);
                    assert(node.children@ == n0.children@);
                }
            }
            assert(node_wf(node));
        }
        return node;
    }
    let (idx, found) = find_child(&node, &parts[i]);
    proof {
        assert(sfx.len() == parts@.len() - i >= 1);
        assert(sfx[0] == parts@[i as int]@);
        assert(sfx.skip(1) =~= views_of(parts@).skip(i + 1));
    }
    if found {
        let child = node.children.remove(idx);
        let new_child = insert_path(child, parts, i + 1);
        proof {
            assert(children_sorted(child.children@) && (forall|t: int|
                0 <= t < child.children@.len() ==> node_wf(#[trigger] child.children@[t])))
                by {
                assert(node_wf(n0.children@[idx as int]));
            }
        }
        node.children.insert(idx, new_child);
        proof {
            let sfx1 = views_of(parts@).skip(i + 1);
            let seg = parts@[i as int]@;
            assert(node.children@ =~= n0.children@.update(idx as int, new_child));
            assert(new_child.segment@ == seg);
            assert(children_sorted(node.children@)) by {
                assert forall|a: int, b: int| 0 <= a < b < node.children@.len() implies lex_lt(
                    (#[trigger] node.children@[a]).segment@,
                    (#[trigger] node.children@[b]).segment@,
                ) by {
                    assert(node.children@[a].segment@ == n0.children@[a].segment@);
                    assert(node.children@[b].segment@ == n0.children@[b].segment@);
                }
            }
            assert(node_wf(node)) by {
                assert forall|t: int| 0 <= t < node.children@.len() implies node_wf(
                    #[trigger] node.children@[t],
                ) by {
                    if t != idx {
                        assert(node.children@[t] == n0.children@[t]);
                    }
                }
            }
            assert forall|p: Seq<Seq<u8>>| #[trigger]
                has_path(node, p) <==> (has_path(n0, p) || p == sfx) by {
                if p.len() == 0 {
                    assert(node.has_value == n0.has_value);
                    assert(p != sfx);
                } else if p[0] == seg {
                    assert((p == sfx) == (p.skip(1) == sfx1)) by {
                        assert(sfx.skip(1) == sfx1);
                        if p.skip(1) == sfx1 {
                            lemma_seq_cons_eq(p, sfx);
                        }
                        if p == sfx {
                            assert(p.skip(1) =~= sfx.skip(1));
                        }
                    }
                    assert(has_path(node, p) == has_path(new_child, p.skip(1))) by {
                        if has_path(node, p) {
                            let j = choose|j: int|
                                0 <= j < node.children@.len() && (
                                #[trigger] node.children@[j]).segment@ == p[0] && has_path(
                                    node.children@[j],
                                    p.skip(1),
                                );
                            lemma_children_unique(node.children@, j, idx as int);
                        }
                        if has_path(new_child, p.skip(1)) {
                            assert(node.children@[idx as int] == new_child);
                            assert(has_path(node, p));
                        }
                    }
                    assert(has_path(n0, p) == has_path(child, p.skip(1))) by {
                        if has_path(n0, p) {
                            let j = choose|j: int|
                                0 <= j < n0.children@.len() && (
                                #[trigger] n0.children@[j]).segment@ == p[0] && has_path(
                                    n0.children@[j],
                                    p.skip(1),
                                );
                            lemma_children_unique(n0.children@, j, idx as int);
                        }
                        if has_path(child, p.skip(1)) {
                            assert(n0.children@[idx as int] == child);
                            assert(has_path(n0, p));
                        }
                    }
                } else {
                    assert(p != sfx);
                    assert(has_path(node, p) == has_path(n0, p)) by {
                        if has_path(node, p) {
                            let j = choose|j: int|
                                0 <= j < node.children@.len() && (
                                #[trigger] node.children@[j]).segment@ == p[0] && has_path(
                                    node.children@[j],
                                    p.skip(1),
                                );
                            assert(j != idx);
                            assert(node.children@[j] == n0.children@[j]);
                            assert(has_path(n0, p));
                        }
                        if has_path(n0, p) {
                            let j = choose|j: int|
                                0 <= j < n0.children@.len() && (
                                #[trigger] n0.children@[j]).segment@ == p[0] && has_path(
                                    n0.children@[j],
                                    p.skip(1),
                                );
                            assert(j != idx);
                            assert(node.children@[j] == n0.children@[j]);
                            assert(has_path(node, p));
                        }
                    }
                }
            }
        }
        node
    } else {
        let chain = make_chain(parts, i);
        node.children.insert(idx, chain);
        proof {
            let sfx1 = views_of(parts@).skip(i + 1);
            let seg = parts@[i as int]@;
            let newcs = node.children@;
            let oldcs = n0.children@;
            assert(newcs =~= oldcs.insert(idx as int, chain));
            assert(chain.segment@ == seg);
            assert(children_sorted(newcs)) by {
                assert forall|a: int, b: int| 0 <= a < b < newcs.len() implies lex_lt(
                    (#[trigger] newcs[a]).segment@,
                    (#[trigger] newcs[b]).segment@,
                ) by {
                    let ii = idx as int;
                    if a < ii && b == ii {
                        assert(newcs[a] == oldcs[a]);
                    } else if a == ii && b > ii {
                        assert(newcs[b] == oldcs[b - 1]);
                    } else if a < ii && b > ii {
                        assert(newcs[a] == oldcs[a]);
                        assert(newcs[b] == oldcs[b - 1]);
                        assert(a < ii <= b - 1);
                        assert(lex_lt(oldcs[a].segment@, oldcs[b - 1].segment@));
                    } else if a > ii {
                        assert(newcs[a] == oldcs[a - 1]);
                        assert(newcs[b] == oldcs[b - 1]);
                    } else {
                        assert(a < ii && b < ii);
                        assert(newcs[a] == oldcs[a]);
                        assert(newcs[b] == oldcs[b]);
                    }
                }
            }
            assert(node_wf(node)) by {
                assert forall|t: int| 0 <= t < newcs.len() implies node_wf(
                    #[trigger] newcs[t],
                ) by {
                    let ii = idx as int;
                    if t < ii {
                        assert(newcs[t] == oldcs[t]);
                    } else if t > ii {
                        assert(newcs[t] == oldcs[t - 1]);
                    }
                }
            }
            // no old child carries the new segment
            assert forall|j: int| 0 <= j < oldcs.len() implies (#[trigger] oldcs[j]).segment@
                != seg by {
                if j < idx {
                    lemma_lex_lt_asym(oldcs[j].segment@, seg);
                } else {
                    lemma_lex_lt_asym(seg, oldcs[j].segment@);
                }
            }
            assert forall|p: Seq<Seq<u8>>| #[trigger]
                has_path(node, p) <==> (has_path(n0, p) || p == sfx) by {
                if p.len() == 0 {
                    assert(node.has_value == n0.has_value);
                    assert(p != sfx);
                } else if p[0] == seg {
                    assert((p == sfx) == (p.skip(1) == sfx1)) by {
                        assert(sfx.skip(1) == sfx1);
                        if p.skip(1) == sfx1 {
                            lemma_seq_cons_eq(p, sfx);
                        }
                        if p == sfx {
                            assert(p.skip(1) =~= sfx.skip(1));
                        }
                    }
                    assert(!has_path(n0, p)) by {
                        if has_path(n0, p) {
                            let j = choose|j: int|
                                0 <= j < oldcs.len() && (#[trigger] oldcs[j]).segment@ == p[0]
                                    && has_path(oldcs[j], p.skip(1));
                            assert(oldcs[j].segment@ != seg);
                        }
                    }
                    assert(has_path(node, p) == has_path(chain, p.skip(1))) by {
                        if has_path(node, p) {
                            let j = choose|j: int|
                                0 <= j < newcs.len() && (#[trigger] newcs[j]).segment@ == p[0]
                                    && has_path(newcs[j], p.skip(1));
                            lemma_children_unique(newcs, j, idx as int);
                        }
                        if has_path(chain, p.skip(1)) {
                            assert(newcs[idx as int] == chain);
                            assert(has_path(node, p));
                        }
                    }
                } else {
                    assert(p != sfx);
                    assert(has_path(node, p) == has_path(n0, p)) by {
                        let ii = idx as int;
                        if has_path(node, p) {
                            let j = choose|j: int|
                                0 <= j < newcs.len() && (#[trigger] newcs[j]).segment@ == p[0]
                                    && has_path(newcs[j], p.skip(1));
                            assert(j != ii);
                            if j < ii {
                                assert(newcs[j] == oldcs[j]);
                                assert(has_path(n0, p));
                            } else {
                                assert(newcs[j] == oldcs[j - 1]);
                                assert(has_path(n0, p));
                            }
                        }
                        if has_path(n0, p) {
                            let j = choose|j: int|
                                0 <= j < oldcs.len() && (#[trigger] oldcs[j]).segment@ == p[0]
                                    && has_path(oldcs[j], p.skip(1));
                            if j < ii {
                                assert(newcs[j] == oldcs[j]);
                                assert(has_path(node, p));
                            } else {
                                assert(newcs[j + 1] == oldcs[j]);
                                assert(has_path(node, p));
                            }
                        }
                    }
                }
            }
        }
        node
    }
}

/// Descending preserves well-formedness: the node a path resolves to has
/// sorted, well-formed children.
pub proof fn lemma_resolve_frame(n: Node, p: Seq<Seq<u8>>)
    requires
        node_frame(n),
        resolve_node(n, p) is Some,
    ensures
        node_frame(resolve_node(n, p)->Some_0),
        p.len() >= 1 ==> node_wf(resolve_node(n, p)->Some_0),
    decreases p.len(),
{
    if p.len() > 0 {
        let j = child_index(n, p[0]);
        assert(node_wf(n.children@[j]));
        lemma_resolve_frame(n.children@[j], p.skip(1));
        if p.len() == 1 {
            assert(resolve_node(n.children@[j], p.skip(1)) == Some(n.children@[j]));
        } else {
            lemma_wf_through_path(n.children@[j], p.skip(1));
        }
    }
}

/// Descending from a well-formed node stays at well-formed nodes.
proof fn lemma_wf_through_path(n: Node, p: Seq<Seq<u8>>)
    requires
        node_wf(n),
        resolve_node(n, p) is Some,
    ensures
        node_wf(resolve_node(n, p)->Some_0),
    decreases p.len(),
{
    if p.len() > 0 {
        let j = child_index(n, p[0]);
        assert(node_wf(n.children@[j]));
        lemma_wf_through_path(n.children@[j], p.skip(1));
    }
}

/// A well-formed node always has a value somewhere in its subtree: nodes
/// exist only on the way to stored keys.
pub proof fn lemma_wf_value_below(n: Node)
    requires
        node_wf(n),
    ensures
        exists|q: Seq<Seq<u8>>| #[trigger] has_path(n, q),
    decreases n,
{
    if n.has_value {
        let q = Seq::<Seq<u8>>::empty();
        assert(has_path(n, q));
    } else {
        assert(n.children@.len() > 0);
        assert(node_wf(n.children@[0]));
        lemma_wf_value_below(n.children@[0]);
        let q0 = choose|q0: Seq<Seq<u8>>| #[trigger] has_path(n.children@[0], q0);
        let q = seq![n.children@[0].segment@] + q0;
        assert(q.skip(1) =~= q0);
        assert(q[0] == n.children@[0].segment@);
        assert(has_path(n, q));
    }
}

/// A value-path below a resolved node is a value-path of the whole tree,
/// extended by the cursor.
pub proof fn lemma_resolve_then_path(n: Node, p: Seq<Seq<u8>>, q: Seq<Seq<u8>>)
    requires
        resolve_node(n, p) is Some,
        has_path(resolve_node(n, p)->Some_0, q),
    ensures
        has_path(n, p + q),
    decreases p.len(),
{
    if p.len() == 0 {
        assert(p + q =~= q);
    } else {
        let j = child_index(n, p[0]);
        lemma_resolve_then_path(n.children@[j], p.skip(1), q);
        assert((p + q).skip(1) =~= p.skip(1) + q);
        assert((p + q)[0] == p[0]);
        assert(has_path(n, p + q));
    }
}

/// A value ends at path `p` exactly when `p` resolves to a node that carries
/// a value.
pub proof fn lemma_has_path_resolve(n: Node, p: Seq<Seq<u8>>)
    requires
        node_frame(n),
    ensures
        has_path(n, p) <==> (resolve_node(n, p) matches Some(m) && m.has_value),
    decreases p.len(),
{
    if p.len() > 0 {
        if has_child(n, p[0]) {
            let jc = child_index(n, p[0]);
            assert(node_wf(n.children@[jc]));
            lemma_has_path_resolve(n.children@[jc], p.skip(1));
            if has_path(n, p) {
                let j = choose|j: int|
                    0 <= j < n.children@.len() && (#[trigger] n.children@[j]).segment@ == p[0]
                        && has_path(n.children@[j], p.skip(1));
                lemma_children_unique(n.children@, j, jc);
            }
        } else {
            if has_path(n, p) {
                let j = choose|j: int|
                    0 <= j < n.children@.len() && (#[trigger] n.children@[j]).segment@ == p[0]
                        && has_path(n.children@[j], p.skip(1));
                assert(has_child(n, p[0]));
            }
        }
    }
}

/// Extending a resolved path by the segment of one of the node's children
/// resolves to that child.
pub proof fn lemma_resolve_child(n: Node, p: Seq<Seq<u8>>, m: Node, j: int)
    requires
        node_frame(n),
        resolve_node(n, p) == Some(m),
        0 <= j < m.children@.len(),
    ensures
        resolve_node(n, p.push(m.children@[j].segment@)) == Some(m.children@[j]),
    decreases p.len(),
{
    let q = p.push(m.children@[j].segment@);
    assert(q.len() == p.len() + 1);
    if p.len() == 0 {
        assert(m == n);
        assert(q[0] == m.children@[j].segment@);
        assert(has_child(n, q[0]));
        let jc = child_index(n, q[0]);
        lemma_children_unique(n.children@, jc, j);
        assert(q.skip(1) =~= Seq::<Seq<u8>>::empty());
        assert(resolve_node(n.children@[jc], q.skip(1)) == Some(n.children@[jc])) by {
            assert(q.skip(1).len() == 0);
        }
        assert(resolve_node(n, q) == resolve_node(n.children@[jc], q.skip(1)));
    } else {
        assert(q[0] == p[0]);
        assert(has_child(n, p[0]));
        let jc = child_index(n, p[0]);
        assert(node_wf(n.children@[jc]));
        assert(resolve_node(n, p) == resolve_node(n.children@[jc], p.skip(1)));
        lemma_resolve_child(n.children@[jc], p.skip(1), m, j);
        assert(q.skip(1) =~= p.skip(1).push(m.children@[j].segment@));
        assert(resolve_node(n, q) == resolve_node(n.children@[jc], q.skip(1)));
    }
}

/// Path `p` ends some valid key among the first `n` keys.
pub open spec fn key_path_within(keys: Seq<Seq<u8>>, d: Seq<u8>, p: Seq<Seq<u8>>, n: int) -> bool {
    exists|j: int|
        0 <= j < n && valid_utf8(#[trigger] keys[j]) && split_bytes(keys[j], d) == p
}

/// The index holds exactly the split paths of the valid keys: a path ends a
/// node with a value if and only if it is the split of some valid key.
pub open spec fn index_represents(idx: KeyIndex, keys: Seq<Seq<u8>>, d: Seq<u8>) -> bool {
    forall|p: Seq<Seq<u8>>| #[trigger]
        has_path(idx.root, p) <==> key_path_within(keys, d, p, keys.len() as int)
}

/// The keys that the index build excluded because they are not valid text,
/// in input order.
pub open spec fn rejected_of(keys: Seq<Seq<u8>>) -> Seq<Seq<u8>>
    decreases keys.len(),
{
    if keys.len() == 0 {
        Seq::empty()
    } else {
        rejected_of(keys.drop_last()) + if valid_utf8(keys.last()) {
            Seq::<Seq<u8>>::empty()
        } else {
            seq![keys.last()]
        }
    }
}

/// Builds the index for a keyspace: every valid key contributes exactly its
/// split path; keys that are not valid text are excluded and handed back so
/// the caller can report them.
pub fn build_index(keys: &Vec<Vec<u8>>, delim: &Vec<u8>) -> (r: (KeyIndex, Vec<Vec<u8>>))
    requires
        delim@.len() >= 1,
    ensures
        index_wf(r.0),
        index_represents(r.0, views_of(keys@), delim@),
        views_of(r.1@) == rejected_of(views_of(keys@)),
{
    let ghost kvs = views_of(keys@);
    let mut root = Node { segment: Vec::new(), has_value: false, children: Vec::new() };
    let mut rejected: Vec<Vec<u8>> = Vec::new();
    let mut i: usize = 0;
    proof {
        assert(views_of(rejected@) =~= Seq::<Seq<u8>>::empty());
        assert(rejected_of(kvs.take(0)) =~= Seq::<Seq<u8>>::empty());
    }
    while i < keys.len()
        invariant
            delim@.len() >= 1,
            kvs == views_of(keys@),
            0 <= i <= keys@.len(),
            root.segment@ == Seq::<u8>::empty(),
            !root.has_value,
            children_sorted(root.children@),
            forall|t: int| 0 <= t < root.children@.len() ==> node_wf(#[trigger] root.children@[t]),
            forall|p: Seq<Seq<u8>>| #[trigger]
                has_path(root, p) <==> key_path_within(kvs, delim@, p, i as int),
            views_of(rejected@) == rejected_of(kvs.take(i as int)),
        decreases keys@.len() - i,
    {
        let ghost prev_root = root;
        let ghost prev_rej = views_of(rejected@);
        if utf8_check(&keys[i]) {
            let parts = split_key(&keys[i], delim);
            proof {
                lemma_split_nonempty(kvs[i as int], delim@);
                assert(views_of(parts@).skip(0) =~= views_of(parts@));
            }
            root = insert_path(root, &parts, 0);
            proof {
                let newp = split_bytes(kvs[i as int], delim@);
                assert forall|p: Seq<Seq<u8>>| #[trigger]
                    has_path(root, p) <==> key_path_within(kvs, delim@, p, i + 1) by {
                    if has_path(root, p) {
                        if has_path(prev_root, p) {
                            assert(key_path_within(kvs, delim@, p, i as int));
                        } else {
                            assert(p == newp);
                            assert(valid_utf8(kvs[i as int]));
                            assert(key_path_within(kvs, delim@, p, i + 1));
                        }
                    }
                    if key_path_within(kvs, delim@, p, i + 1) {
                        let j = choose|j: int|
                            0 <= j < i + 1 && valid_utf8(#[trigger] kvs[j]) && split_bytes(
                                kvs[j],
                                delim@,
                            ) == p;
                        if j < i {
                            assert(key_path_within(kvs, delim@, p, i as int));
                            assert(has_path(prev_root, p));
                        } else {
                            assert(p == newp);
                        }
                        assert(has_path(root, p));
                    }
                }
                assert(kvs.take(i + 1).drop_last() =~= kvs.take(i as int));
                assert(kvs.take(i + 1).last() == kvs[i as int]);
                assert(rejected_of(kvs.take(i + 1)) =~= prev_rej);
            }
        } else {
            rejected.push(clone_bytes(&keys[i]));
            proof {
                assert(views_of(rejected@) =~= prev_rej.push(kvs[i as int]));
                assert(kvs.take(i + 1).drop_last() =~= kvs.take(i as int));
                assert(kvs.take(i + 1).last() == kvs[i as int]);
                assert(rejected_of(kvs.take(i + 1)) =~= prev_rej.push(kvs[i as int]));
                assert forall|p: Seq<Seq<u8>>| #[trigger]
                    has_path(root, p) <==> key_path_within(kvs, delim@, p, i + 1) by {
                    if has_path(root, p) {
                        assert(key_path_within(kvs, delim@, p, i as int));
                    }
                    if key_path_within(kvs, delim@, p, i + 1) {
                        let j = choose|j: int|
                            0 <= j < i + 1 && valid_utf8(#[trigger] kvs[j]) && split_bytes(
                                kvs[j],
                                delim@,
                            ) == p;
                        assert(j < i);
                        assert(key_path_within(kvs, delim@, p, i as int));
                    }
                }
            }
        }
        i += 1;
    }
    proof {
        assert(kvs.take(keys@.len() as int) =~= kvs);
    }
    (KeyIndex { root }, rejected)
}

} // verus!
