//! Splitting a key into path segments on a configured delimiter, and joining
//! segments back into a fully-qualified key. Splitting finds the leftmost
//! occurrence of the delimiter, cuts there, and continues after it, exactly
//! as textual split does; joining interleaves the delimiter between segments.
//! Joining the split of a key gives the key back byte for byte.

use vstd::prelude::*;

verus! {

use crate::bytes::views_of;

/// True when `d` occurs in `k` at position `i`.
pub open spec fn match_at(k: Seq<u8>, d: Seq<u8>, i: int) -> bool {
    0 <= i && i + d.len() <= k.len() && k.subrange(i, i + d.len() as int) == d
}

/// Position of the leftmost occurrence of `d` in `k`, if any; `None` for an
/// empty `d`.
pub open spec fn find_delim(k: Seq<u8>, d: Seq<u8>) -> Option<int>
    decreases k.len(),
{
    if d.len() == 0 || k.len() < d.len() {
        None
    } else if k.subrange(0, d.len() as int) == d {
        Some(0)
    } else {
        match find_delim(k.skip(1), d) {
            Some(i) => Some(i + 1),
            None => None,
        }
    }
}

/// `find_delim` returns the position of the leftmost occurrence: a match at
/// the returned position and none before it, or no match at all.
pub proof fn lemma_find_delim_spec(k: Seq<u8>, d: Seq<u8>)
    requires
        d.len() >= 1,
    ensures
        match find_delim(k, d) {
            Some(i) => match_at(k, d, i) && (forall|j: int| 0 <= j < i ==> !match_at(k, d, j)),
            None => forall|j: int| !match_at(k, d, j),
        },
    decreases k.len(),
{
    if k.len() < d.len() {
        assert forall|j: int| !match_at(k, d, j) by {}
    } else if k.subrange(0, d.len() as int) == d {
        assert(match_at(k, d, 0));
    } else {
        lemma_find_delim_spec(k.skip(1), d);
        assert forall|j: int| 1 <= j implies match_at(k, d, j) == match_at(k.skip(1), d, j - 1) by {
            if j + d.len() <= k.len() {
                assert(k.skip(1).subrange(j - 1, j - 1 + d.len() as int) =~= k.subrange(
                    j,
                    j + d.len() as int,
                ));
            }
        }
        assert(!match_at(k, d, 0));
    }
}

/// The segments of `k`, split on delimiter `d`.
pub open spec fn split_bytes(k: Seq<u8>, d: Seq<u8>) -> Seq<Seq<u8>>
    decreases k.len(),
    via split_bytes_decreases
{
    match find_delim(k, d) {
        None => seq![k],
        Some(i) => seq![k.subrange(0, i)] + split_bytes(k.skip(i + d.len() as int), d),
    }
}

#[via_fn]
proof fn split_bytes_decreases(k: Seq<u8>, d: Seq<u8>) {
    if d.len() >= 1 {
        lemma_find_delim_spec(k, d);
    }
}

/// The segments rejoined with delimiter `d`.
pub open spec fn join_bytes(parts: Seq<Seq<u8>>, d: Seq<u8>) -> Seq<u8>
    decreases parts.len(),
{
    if parts.len() == 0 {
        Seq::empty()
    } else if parts.len() == 1 {
        parts[0]
    } else {
        parts[0] + d + join_bytes(parts.skip(1), d)
    }
}

/// Splitting yields at least one segment.
pub proof fn lemma_split_nonempty(k: Seq<u8>, d: Seq<u8>)
    ensures
        split_bytes(k, d).len() >= 1,
{
}

/// Round trip: joining the segments of a split key gives the key back,
/// byte for byte.
pub proof fn lemma_split_join(k: Seq<u8>, d: Seq<u8>)
    requires
        d.len() >= 1,
    ensures
        join_bytes(split_bytes(k, d), d) == k,
    decreases k.len(),
{
    lemma_find_delim_spec(k, d);
    match find_delim(k, d) {
        None => {
            assert(join_bytes(seq![k], d) == k);
        },
        Some(i) => {
            let rest = k.skip(i + d.len() as int);
            lemma_split_join(rest, d);
            lemma_split_nonempty(rest, d);
            let parts = split_bytes(k, d);
            assert(parts.skip(1) =~= split_bytes(rest, d));
            assert(parts.len() >= 2);
            assert(join_bytes(parts, d) == k.subrange(0, i) + d + rest);
            assert(k.subrange(0, i) + k.subrange(i, i + d.len() as int) + k.skip(
                i + d.len() as int,
            ) =~= k);
        },
    }
}

/// If `d` matches at `i` and nowhere earlier, the leftmost occurrence is `i`.
pub proof fn lemma_find_delim_is(k: Seq<u8>, d: Seq<u8>, i: int)
    requires
        d.len() >= 1,
        match_at(k, d, i),
        forall|j: int| 0 <= j < i ==> !match_at(k, d, j),
    ensures
        find_delim(k, d) == Some(i),
{
    lemma_find_delim_spec(k, d);
    match find_delim(k, d) {
        None => {
            assert(false);
        },
        Some(i2) => {
            if i2 < i {
                assert(!match_at(k, d, i2));
            } else if i < i2 {
                assert(!match_at(k, d, i));
            }
        },
    }
}

/// If `d` matches nowhere in `k`, there is no leftmost occurrence.
pub proof fn lemma_find_delim_none(k: Seq<u8>, d: Seq<u8>)
    requires
        d.len() >= 1,
        forall|j: int| !match_at(k, d, j),
    ensures
        find_delim(k, d) is None,
{
    lemma_find_delim_spec(k, d);
    if let Some(i) = find_delim(k, d) {
        assert(!match_at(k, d, i));
    }
}

/// True when the delimiter occurs at position `pos` of the key.
fn delim_matches(k: &Vec<u8>, d: &Vec<u8>, pos: usize) -> (r: bool)
    requires
        pos + d@.len() <= k@.len(),
    ensures
        r == match_at(k@, d@, pos as int),
{
    let klen = k.len();
    let mut t: usize = 0;
    while t < d.len()
        invariant
            pos + d@.len() <= k@.len(),
            klen == k@.len(),
            0 <= t <= d@.len(),
            forall|u: int| 0 <= u < t ==> k@[pos + u] == d@[u],
        decreases d@.len() - t,
    {
        if k[pos + t] != d[t] {
            proof {
                if match_at(k@, d@, pos as int) {
                    assert(k@.subrange(pos as int, pos + d@.len())[t as int] == d@[t as int]);
                }
            }
            return false;
        }
        t += 1;
    }
    proof {
        assert(k@.subrange(pos as int, pos + d@.len()) =~= d@);
    }
    true
}

/// The bytes of `k` from `a` (inclusive) to `b` (exclusive).
fn sub_bytes(k: &Vec<u8>, a: usize, b: usize) -> (r: Vec<u8>)
    requires
        a <= b <= k@.len(),
    ensures
        r@ == k@.subrange(a as int, b as int),
{
    let mut r: Vec<u8> = Vec::new();
    let mut i: usize = a;
    proof {
        assert(r@ =~= k@.subrange(a as int, a as int));
    }
    while i < b
        invariant
            a <= i <= b <= k@.len(),
            r@ == k@.subrange(a as int, i as int),
        decreases b - i,
    {
        r.push(k[i]);
        proof {
            assert(k@.subrange(a as int, i + 1) =~= k@.subrange(a as int, i as int).push(
                k@[i as int],
            ));
        }
        i += 1;
    }
    r
}

/// Splits a key into its segments on delimiter `d`.
pub fn split_key(k: &Vec<u8>, d: &Vec<u8>) -> (r: Vec<Vec<u8>>)
    requires
        d@.len() >= 1,
    ensures
        views_of(r@) == split_bytes(k@, d@),
{
    let klen = k.len();
    let dlen = d.len();
    let mut parts: Vec<Vec<u8>> = Vec::new();
    let mut start: usize = 0;
    let mut pos: usize = 0;
    proof {
        assert(views_of(parts@) =~= Seq::<Seq<u8>>::empty());
        assert(k@.skip(0) =~= k@);
        assert(Seq::<Seq<u8>>::empty() + split_bytes(k@, d@) =~= split_bytes(k@, d@));
    }
    loop
        invariant
            d@.len() >= 1,
            klen == k@.len(),
            dlen == d@.len(),
            0 <= start <= pos <= k@.len(),
            split_bytes(k@, d@) =~= views_of(parts@) + split_bytes(k@.skip(start as int), d@),
            forall|j: int| start <= j < pos ==> !match_at(k@, d@, j),
        ensures
            0 <= start <= pos <= k@.len(),
            k@.len() - pos < d@.len(),
            split_bytes(k@, d@) =~= views_of(parts@) + split_bytes(k@.skip(start as int), d@),
            forall|j: int| start <= j < pos ==> !match_at(k@, d@, j),
        decreases k@.len() - pos,
    {
        if klen - pos < dlen {
            break ;
        }
        if delim_matches(k, d, pos) {
            let part = sub_bytes(k, start, pos);
            proof {
                let s = k@.skip(start as int);
                let rel = pos - start;
                assert forall|j: int| 0 <= j < s.len() + 1 implies match_at(s, d@, j) == match_at(
                    k@,
                    d@,
                    j + start,
                ) by {
                    if 0 <= j && j + d@.len() <= s.len() {
                        assert(s.subrange(j, j + d@.len()) =~= k@.subrange(
                            j + start,
                            j + start + d@.len(),
                        ));
                    }
                }
                assert(match_at(s, d@, rel));
                assert forall|j: int| 0 <= j < rel implies !match_at(s, d@, j) by {
                    assert(!match_at(k@, d@, j + start));
                }
                lemma_find_delim_is(s, d@, rel);
                assert(s.subrange(0, rel) =~= k@.subrange(start as int, pos as int));
                assert(s.skip(rel + d@.len() as int) =~= k@.skip(pos + d@.len()));
                assert(split_bytes(s, d@) == seq![part@] + split_bytes(
                    k@.skip(pos + d@.len()),
                    d@,
                ));
                assert(views_of(parts@.push(part)) =~= views_of(parts@).push(part@));
                assert(views_of(parts@) + (seq![part@] + split_bytes(k@.skip(pos + d@.len()), d@))
                    =~= views_of(parts@).push(part@) + split_bytes(k@.skip(pos + d@.len()), d@));
            }
            parts.push(part);
            pos = pos + d.len();
            start = pos;
        } else {
            pos = pos + 1;
        }
    }
    let last = sub_bytes(k, start, k.len());
    proof {
        let s = k@.skip(start as int);
        assert forall|j: int| !match_at(s, d@, j) by {
            if 0 <= j && j + d@.len() <= s.len() {
                assert(s.subrange(j, j + d@.len()) =~= k@.subrange(j + start, j + start + d@.len()));
                assert(j + start + d@.len() <= k@.len());
                assert(j + start < pos);
                assert(!match_at(k@, d@, j + start));
            }
        }
        lemma_find_delim_none(s, d@);
        assert(s =~= k@.subrange(start as int, k@.len() as int));
        assert(split_bytes(s, d@) == seq![last@]);
        assert(views_of(parts@.push(last)) =~= views_of(parts@) + seq![last@]);
    }
    parts.push(last);
    proof {
        assert(views_of(parts@) =~= split_bytes(k@, d@));
    }
    parts
}

/// Joining after appending one more segment appends a delimiter (unless the
/// path was empty) and the segment.
pub proof fn lemma_join_push(s: Seq<Seq<u8>>, d: Seq<u8>, p: Seq<u8>)
    ensures
        join_bytes(s.push(p), d) == if s.len() == 0 {
            p
        } else {
            join_bytes(s, d) + d + p
        },
    decreases s.len(),
{
    if s.len() == 0 {
        assert(s.push(p).len() == 1);
        assert(s.push(p)[0] == p);
    } else {
        lemma_join_push(s.skip(1), d, p);
        assert(s.push(p).skip(1) =~= s.skip(1).push(p));
        assert(s.push(p)[0] == s[0]);
        if s.len() == 1 {
            assert(s.skip(1).len() == 0);
            assert(join_bytes(s.push(p), d) == s[0] + d + p);
            assert(join_bytes(s, d) == s[0]);
        } else {
            assert(join_bytes(s.push(p), d) == s[0] + d + (join_bytes(s.skip(1), d) + d + p));
            assert(s[0] + d + (join_bytes(s.skip(1), d) + d + p) =~= (s[0] + d + join_bytes(
                s.skip(1),
                d,
            )) + d + p);
        }
    }
}

/// Appends the bytes of `a` to `r`.
pub fn append_bytes(r: &mut Vec<u8>, a: &Vec<u8>)
    ensures
        final(r)@ == old(r)@ + a@,
{
    let ghost orig = r@;
    let mut i: usize = 0;
    proof {
        assert(orig + a@.take(0) =~= orig);
    }
    while i < a.len()
        invariant
            0 <= i <= a@.len(),
            r@ == orig + a@.take(i as int),
        decreases a@.len() - i,
    {
        r.push(a[i]);
        proof {
            assert(orig + a@.take(i + 1) =~= (orig + a@.take(i as int)).push(a@[i as int]));
        }
        i += 1;
    }
    proof {
        assert(orig + a@.take(a@.len() as int) =~= orig + a@);
    }
}

/// Joins segments with the delimiter `d` into one key.
pub fn join_parts(parts: &Vec<Vec<u8>>, d: &Vec<u8>) -> (r: Vec<u8>)
    ensures
        r@ == join_bytes(views_of(parts@), d@),
{
    let ghost vs = views_of(parts@);
    let mut r: Vec<u8> = Vec::new();
    let mut i: usize = 0;
    proof {
        assert(vs.take(0) =~= Seq::<Seq<u8>>::empty());
        assert(r@ =~= Seq::<u8>::empty());
    }
    while i < parts.len()
        invariant
            0 <= i <= parts@.len(),
            vs == views_of(parts@),
            r@ == join_bytes(vs.take(i as int), d@),
        decreases parts@.len() - i,
    {
        if i > 0 {
            append_bytes(&mut r, d);
        }
        append_bytes(&mut r, &parts[i]);
        proof {
            lemma_join_push(vs.take(i as int), d@, vs[i as int]);
            assert(vs.take(i + 1) =~= vs.take(i as int).push(vs[i as int]));
        }
        i += 1;
    }
    proof {
        assert(vs.take(parts@.len() as int) =~= vs);
    }
    r
}

} // verus!
