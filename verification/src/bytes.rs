//! Lexicographic order on byte sequences: the order in which the underlying
//! store iterates its keys, and the order in which children of a hierarchy
//! node are kept.

use vstd::prelude::*;

verus! {

use vstd::multiset::Multiset;

/// Strict lexicographic order on byte sequences.
pub open spec fn lex_lt(a: Seq<u8>, b: Seq<u8>) -> bool
    decreases a.len(),
{
    if b.len() == 0 {
        false
    } else if a.len() == 0 {
        true
    } else if a[0] < b[0] {
        true
    } else if a[0] > b[0] {
        false
    } else {
        lex_lt(a.skip(1), b.skip(1))
    }
}

/// Non-strict lexicographic order.
pub open spec fn lex_le(a: Seq<u8>, b: Seq<u8>) -> bool {
    lex_lt(a, b) || a == b
}

/// The view of each element of a vector of byte vectors.
pub open spec fn views_of(s: Seq<Vec<u8>>) -> Seq<Seq<u8>> {
    s.map_values(|v: Vec<u8>| v@)
}

/// Result of a three-way comparison.
#[derive(Clone, Copy, PartialEq, Eq, Debug)]
pub enum Cmp {
    Lt,
    Eq,
    Gt,
}

/// Three-way lexicographic comparison of two byte vectors.
pub fn lex_cmp(a: &Vec<u8>, b: &Vec<u8>) -> (r: Cmp)
    ensures
        r is Lt <==> lex_lt(a@, b@),
        r is Eq <==> a@ == b@,
        r is Gt <==> lex_lt(b@, a@),
{
    let n: usize = if a.len() < b.len() {
        a.len()
    } else {
        b.len()
    };
    let mut i: usize = 0;
    proof {
        assert(a@.skip(0) =~= a@);
        assert(b@.skip(0) =~= b@);
    }
    while i < n
        invariant
            0 <= i <= n,
            n == if a@.len() < b@.len() {
                a@.len()
            } else {
                b@.len()
            },
            forall|j: int| 0 <= j < i ==> a@[j] == b@[j],
            lex_lt(a@, b@) == lex_lt(a@.skip(i as int), b@.skip(i as int)),
            lex_lt(b@, a@) == lex_lt(b@.skip(i as int), a@.skip(i as int)),
        decreases n - i,
    {
        proof {
            lemma_lex_lt_step(a@, b@, i as int);
            lemma_lex_lt_step(b@, a@, i as int);
        }
        if a[i] < b[i] {
            return Cmp::Lt;
        }
        if a[i] > b[i] {
            return Cmp::Gt;
        }
        i += 1;
    }
    proof {
        lemma_lex_lt_step(a@, b@, i as int);
        lemma_lex_lt_step(b@, a@, i as int);
    }
    if a.len() < b.len() {
        Cmp::Lt
    } else if a.len() > b.len() {
        Cmp::Gt
    } else {
        proof {
            assert(a@ =~= b@);
        }
        Cmp::Eq
    }
}

/// Unfolding of `lex_lt` on the suffixes starting at `i`: when the first `i`
/// bytes agree, the comparison is decided at index `i` or later.
proof fn lemma_lex_lt_step(a: Seq<u8>, b: Seq<u8>, i: int)
    requires
        0 <= i <= a.len(),
        0 <= i <= b.len(),
    ensures
        lex_lt(a.skip(i), b.skip(i)) == if i == b.len() {
            false
        } else if i == a.len() {
            true
        } else if a[i] < b[i] {
            true
        } else if a[i] > b[i] {
            false
        } else {
            lex_lt(a.skip(i + 1), b.skip(i + 1))
        },
{
    if i < a.len() && i < b.len() {
        assert(a.skip(i)[0] == a[i]);
        assert(b.skip(i)[0] == b[i]);
        assert(a.skip(i).skip(1) =~= a.skip(i + 1));
        assert(b.skip(i).skip(1) =~= b.skip(i + 1));
    }
}

/// `lex_lt` is irreflexive.
pub proof fn lemma_lex_lt_irrefl(a: Seq<u8>)
    ensures
        !lex_lt(a, a),
    decreases a.len(),
{
    if a.len() > 0 {
        lemma_lex_lt_irrefl(a.skip(1));
    }
}

/// `lex_lt` is asymmetric, and in particular tells its operands apart.
pub proof fn lemma_lex_lt_asym(a: Seq<u8>, b: Seq<u8>)
    requires
        lex_lt(a, b),
    ensures
        !lex_lt(b, a),
        a != b,
    decreases a.len(),
{
    lemma_lex_lt_irrefl(a);
    if a.len() > 0 && b.len() > 0 && a[0] == b[0] {
        lemma_lex_lt_asym(a.skip(1), b.skip(1));
        if a == b {
            assert(a.skip(1) == b.skip(1));
        }
    }
}

/// `lex_lt` is transitive.
pub proof fn lemma_lex_lt_trans(a: Seq<u8>, b: Seq<u8>, c: Seq<u8>)
    requires
        lex_lt(a, b),
        lex_lt(b, c),
    ensures
        lex_lt(a, c),
    decreases a.len(),
{
    if a.len() > 0 && b.len() > 0 && c.len() > 0 && a[0] == b[0] && b[0] == c[0] {
        lemma_lex_lt_trans(a.skip(1), b.skip(1), c.skip(1));
    }
}

/// A sequence of byte sequences in non-strict ascending lexicographic order.
pub open spec fn lex_sorted(s: Seq<Seq<u8>>) -> bool {
    forall|i: int, j: int| 0 <= i < j < s.len() ==> lex_le(#[trigger] s[i], #[trigger] s[j])
}

/// A sequence of byte sequences in strictly ascending lexicographic order
/// (sorted, all elements distinct).
pub open spec fn lex_sorted_strict(s: Seq<Seq<u8>>) -> bool {
    forall|i: int, j: int| 0 <= i < j < s.len() ==> lex_lt(#[trigger] s[i], #[trigger] s[j])
}

/// Index of the first element of sorted `r` that is strictly greater than
/// `x`, or `r.len()` if there is none.
fn upper_pos(r: &Vec<Vec<u8>>, x: &Vec<u8>) -> (i: usize)
    requires
        lex_sorted(views_of(r@)),
    ensures
        i <= r@.len(),
        forall|j: int| 0 <= j < i ==> lex_le(#[trigger] r@[j]@, x@),
        i < r@.len() ==> lex_lt(x@, r@[i as int]@),
{
    let mut i: usize = 0;
    loop
        invariant
            0 <= i <= r@.len(),
            forall|j: int| 0 <= j < i ==> lex_le(#[trigger] r@[j]@, x@),
        decreases r@.len() - i,
    {
        if i == r.len() {
            return i;
        }
        let c = lex_cmp(&r[i], x);
        match c {
            Cmp::Gt => {
                return i;
            },
            _ => {},
        }
        i += 1;
    }
}

/// Sorts byte vectors into ascending lexicographic order by insertion sort;
/// the result holds exactly the input's elements.
pub fn sort_byte_vecs(input: Vec<Vec<u8>>) -> (r: Vec<Vec<u8>>)
    ensures
        lex_sorted(views_of(r@)),
        views_of(r@).to_multiset() == views_of(input@).to_multiset(),
{
    broadcast use vstd::seq_lib::group_to_multiset_ensures;

    let mut r: Vec<Vec<u8>> = Vec::new();
    let mut i: usize = 0;
    proof {
        assert(views_of(r@) =~= Seq::<Seq<u8>>::empty());
        assert(views_of(input@.take(0)) =~= Seq::<Seq<u8>>::empty());
        assert(Seq::<Seq<u8>>::empty().to_multiset() =~= Multiset::<Seq<u8>>::empty());
    }
    while i < input.len()
        invariant
            0 <= i <= input@.len(),
            lex_sorted(views_of(r@)),
            views_of(r@).to_multiset() == views_of(input@.take(i as int)).to_multiset(),
        decreases input@.len() - i,
    {
        let ghost prev = views_of(input@.take(i as int));
        let x = clone_bytes(&input[i]);
        insert_sorted(&mut r, x);
        proof {
            assert(views_of(input@.take(i + 1)) =~= prev.push(input@[i as int]@));
            vstd::seq_lib::to_multiset_build(prev, input@[i as int]@);
            assert(prev.push(input@[i as int]@).to_multiset() =~= prev.to_multiset().insert(
                input@[i as int]@,
            ));
        }
        i += 1;
    }
    proof {
        assert(input@.take(input@.len() as int) =~= input@);
    }
    r
}

/// Copies a byte vector.
pub fn clone_bytes(a: &Vec<u8>) -> (r: Vec<u8>)
    ensures
        r@ == a@,
{
    let mut r: Vec<u8> = Vec::new();
    let mut i: usize = 0;
    while i < a.len()
        invariant
            0 <= i <= a@.len(),
            r@ == a@.take(i as int),
        decreases a@.len() - i,
    {
        r.push(a[i]);
        proof {
            assert(a@.take(i + 1) =~= a@.take(i as int).push(a@[i as int]));
        }
        i += 1;
    }
    proof {
        assert(a@.take(a@.len() as int) =~= a@);
    }
    r
}

/// Inserts one byte vector into a lexicographically sorted vector, keeping it
/// sorted and adding exactly that element.
fn insert_sorted(r: &mut Vec<Vec<u8>>, x: Vec<u8>)
    requires
        lex_sorted(views_of(old(r)@)),
    ensures
        lex_sorted(views_of(final(r)@)),
        views_of(final(r)@).to_multiset() == views_of(old(r)@).to_multiset().insert(x@),
{
    let ghost orig = views_of(r@);
    let i = upper_pos(r, &x);
    r.insert(i, x);
    proof {
        let newv = views_of(r@);
        assert(newv =~= orig.insert(i as int, x@));
        assert forall|p: int, q: int| 0 <= p < q < newv.len() implies lex_le(
            #[trigger] newv[p],
            #[trigger] newv[q],
        ) by {
            let ii = i as int;
            if q < ii {
                assert(lex_le(orig[p], orig[q]));
            } else if p < ii && q == ii {
                assert(lex_le(orig[p], x@));
            } else if p < ii && q > ii {
                assert(newv[q] == orig[q - 1]);
                if p == q - 1 {
                    assert(lex_le(orig[p], x@));
                    assert(lex_lt(x@, orig[p]) || newv[q] == x@ || lex_le(orig[p], orig[q - 1]));
                } else {
                    assert(lex_le(orig[p], orig[q - 1]));
                }
            } else if p == ii {
                assert(newv[q] == orig[q - 1]);
                assert(lex_lt(x@, orig[ii]));
                if q - 1 == ii {
                } else {
                    assert(lex_le(orig[ii], orig[q - 1]));
                    if lex_lt(orig[ii], orig[q - 1]) {
                        lemma_lex_lt_trans(x@, orig[ii], orig[q - 1]);
                    }
                }
            } else {
                assert(newv[p] == orig[p - 1]);
                assert(newv[q] == orig[q - 1]);
                assert(lex_le(orig[p - 1], orig[q - 1]));
            }
        }
        vstd::seq_lib::to_multiset_insert(orig, i as int, x@);
    }
}

} // verus!
