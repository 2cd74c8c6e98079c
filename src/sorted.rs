//! Strictly increasing vectors of vertex ids and of vertex pairs, used as
//! ordered sets: iteration order is the ascending order that the writers need.
use vstd::prelude::*;

verus! {

pub open spec fn ids_sorted(s: Seq<usize>) -> bool {
    forall|i: int, j: int| 0 <= i < j < s.len() ==> s[i] < s[j]
}

/// Lexicographic order on pairs: by first component, then by second.
pub open spec fn pair_lt(a: (usize, usize), b: (usize, usize)) -> bool {
    a.0 < b.0 || (a.0 == b.0 && a.1 < b.1)
}

pub open spec fn pairs_sorted(s: Seq<(usize, usize)>) -> bool {
    forall|i: int, j: int| 0 <= i < j < s.len() ==> pair_lt(s[i], s[j])
}

/// What a sequence holds after a push.
pub proof fn lemma_push_contains<A>(s: Seq<A>, a: A)
    ensures
        forall|y: A| #[trigger] s.push(a).contains(y) <==> (s.contains(y) || y == a),
{
    assert forall|y: A| #[trigger] s.push(a).contains(y) <==> (s.contains(y) || y == a) by {
        if s.push(a).contains(y) {
            let k = choose|k: int| 0 <= k < s.len() + 1 && #[trigger] s.push(a)[k] == y;
            if k < s.len() {
                assert(s[k] == y);
            }
        }
        if s.contains(y) {
            let k = choose|k: int| 0 <= k < s.len() && #[trigger] s[k] == y;
            assert(s.push(a)[k] == y);
        }
        if y == a {
            assert(s.push(a)[s.len() as int] == y);
        }
    }
}

/// Whether `a` comes strictly before `b` in lexicographic order on pairs.
pub fn pair_less(a: (usize, usize), b: (usize, usize)) -> (r: bool)
    ensures
        r == pair_lt(a, b),
{
    a.0 < b.0 || (a.0 == b.0 && a.1 < b.1)
}

/// The position of the first element not below `x`.
fn id_position(v: &Vec<usize>, x: usize) -> (i: usize)
    requires
        ids_sorted(v@),
    ensures
        i <= v@.len(),
        forall|k: int| 0 <= k < i ==> v@[k] < x,
        forall|k: int| i <= k < v@.len() ==> v@[k] >= x,
{
    let mut i: usize = 0;
    while i < v.len() && v[i] < x
        invariant
            ids_sorted(v@),
            i <= v@.len(),
            forall|k: int| 0 <= k < i ==> v@[k] < x,
        decreases v@.len() - i,
    {
        i = i + 1;
    }
    i
}

/// Whether the sorted vector holds `x`.
pub fn ids_contain(v: &Vec<usize>, x: usize) -> (r: bool)
    requires
        ids_sorted(v@),
    ensures
        r == v@.contains(x),
{
    let i = id_position(v, x);
    i < v.len() && v[i] == x
}

/// The position of `x` in the sorted vector, if it is there.
pub fn id_index(v: &Vec<usize>, x: usize) -> (r: Option<usize>)
    requires
        ids_sorted(v@),
    ensures
        r matches Some(i) ==> i < v@.len() && v@[i as int] == x,
        r is None ==> !v@.contains(x),
{
    let i = id_position(v, x);
    if i < v.len() && v[i] == x {
        Some(i)
    } else {
        assert(!v@.contains(x)) by {
            if v@.contains(x) {
                let k = choose|k: int| 0 <= k < v@.len() && v@[k] == x;
            }
        }
        None
    }
}

/// Adds `x` to the sorted vector, keeping it strictly increasing.
pub fn ids_insert(v: &mut Vec<usize>, x: usize)
    requires
        ids_sorted(old(v)@),
    ensures
        ids_sorted(final(v)@),
        forall|y: usize| final(v)@.contains(y) <==> (old(v)@.contains(y) || y == x),
{
    let i = id_position(v, x);
    if i < v.len() && v[i] == x {
        return;
    }
    v.insert(i, x);
    assert forall|y: usize| final(v)@.contains(y) <==> (old(v)@.contains(y) || y == x) by {
        if old(v)@.contains(y) {
            let k = choose|k: int| 0 <= k < old(v)@.len() && old(v)@[k] == y;
            if k < i {
                assert(final(v)@[k] == y);
            } else {
                assert(final(v)@[k + 1] == y);
            }
        }
        if y == x {
            assert(final(v)@[i as int] == y);
        }
    }
}

/// Removes `x` from the sorted vector.
pub fn ids_remove(v: &mut Vec<usize>, x: usize)
    requires
        ids_sorted(old(v)@),
    ensures
        ids_sorted(final(v)@),
        forall|y: usize| final(v)@.contains(y) <==> (old(v)@.contains(y) && y != x),
{
    let i = id_position(v, x);
    if i < v.len() && v[i] == x {
        v.remove(i);
        assert forall|y: usize| final(v)@.contains(y) <==> (old(v)@.contains(y) && y != x) by {
            if old(v)@.contains(y) && y != x {
                let k = choose|k: int| 0 <= k < old(v)@.len() && old(v)@[k] == y;
                if k < i {
                    assert(final(v)@[k] == y);
                } else {
                    assert(final(v)@[k - 1] == y);
                }
            }
        }
    }
}

/// The position of the first pair not below `x`.
fn pair_position(v: &Vec<(usize, usize)>, x: (usize, usize)) -> (i: usize)
    requires
        pairs_sorted(v@),
    ensures
        i <= v@.len(),
        forall|k: int| 0 <= k < i ==> pair_lt(v@[k], x),
        forall|k: int| i <= k < v@.len() ==> !pair_lt(v@[k], x),
{
    let mut i: usize = 0;
    while i < v.len() && pair_less(v[i], x)
        invariant
            pairs_sorted(v@),
            i <= v@.len(),
            forall|k: int| 0 <= k < i ==> pair_lt(v@[k], x),
        decreases v@.len() - i,
    {
        i = i + 1;
    }
    assert forall|k: int| i <= k < v@.len() implies !pair_lt(v@[k], x) by {
        if k > i {
            assert(pair_lt(v@[i as int], v@[k]));
        }
    }
    i
}

/// Whether the sorted vector holds the pair `x`.
pub fn pairs_contain(v: &Vec<(usize, usize)>, x: (usize, usize)) -> (r: bool)
    requires
        pairs_sorted(v@),
    ensures
        r == v@.contains(x),
{
    let i = pair_position(v, x);
    if i < v.len() {
        let p = v[i];
        p.0 == x.0 && p.1 == x.1
    } else {
        false
    }
}

/// Adds the pair `x`, keeping the vector strictly increasing.
pub fn pairs_insert(v: &mut Vec<(usize, usize)>, x: (usize, usize))
    requires
        pairs_sorted(old(v)@),
    ensures
        pairs_sorted(final(v)@),
        forall|y: (usize, usize)| final(v)@.contains(y) <==> (old(v)@.contains(y) || y == x),
{
    let i = pair_position(v, x);
    if i < v.len() {
        let p = v[i];
        if p.0 == x.0 && p.1 == x.1 {
            return;
        }
    }
    v.insert(i, x);
    assert forall|y: (usize, usize)| final(v)@.contains(y) <==> (old(v)@.contains(y) || y == x) by {
        if old(v)@.contains(y) {
            let k = choose|k: int| 0 <= k < old(v)@.len() && old(v)@[k] == y;
            if k < i {
                assert(final(v)@[k] == y);
            } else {
                assert(final(v)@[k + 1] == y);
            }
        }
        if y == x {
            assert(final(v)@[i as int] == y);
        }
    }
}

/// Removes the pair `x`.
pub fn pairs_remove(v: &mut Vec<(usize, usize)>, x: (usize, usize))
    requires
        pairs_sorted(old(v)@),
    ensures
        pairs_sorted(final(v)@),
        forall|y: (usize, usize)| final(v)@.contains(y) <==> (old(v)@.contains(y) && y != x),
{
    let i = pair_position(v, x);
    if i < v.len() {
        let p = v[i];
        if p.0 == x.0 && p.1 == x.1 {
            v.remove(i);
            assert forall|y: (usize, usize)| final(v)@.contains(y) <==> (old(v)@.contains(y) && y != x) by {
                if old(v)@.contains(y) && y != x {
                    let k = choose|k: int| 0 <= k < old(v)@.len() && old(v)@[k] == y;
                    if k < i {
                        assert(final(v)@[k] == y);
                    } else {
                        assert(final(v)@[k - 1] == y);
                    }
                }
            }
        }
    }
}

/// A copy of a vector of pairs.
pub fn copy_pairs(v: &Vec<(usize, usize)>) -> (r: Vec<(usize, usize)>)
    ensures
        r@ == v@,
{
    let mut r: Vec<(usize, usize)> = Vec::new();
    let mut i: usize = 0;
    while i < v.len()
        invariant
            i <= v@.len(),
            r@ == v@.subrange(0, i as int),
        decreases v@.len() - i,
    {
        r.push(v[i]);
        i = i + 1;
    }
    r
}

/// Keeps the pairs that do not touch the vertex `x`.
pub fn pairs_without_vertex(v: &Vec<(usize, usize)>, x: usize) -> (r: Vec<(usize, usize)>)
    requires
        pairs_sorted(v@),
    ensures
        pairs_sorted(r@),
        forall|y: (usize, usize)| r@.contains(y) <==> (v@.contains(y) && y.0 != x && y.1 != x),
{
    let mut r: Vec<(usize, usize)> = Vec::new();
    let mut i: usize = 0;
    while i < v.len()
        invariant
            pairs_sorted(v@),
            pairs_sorted(r@),
            i <= v@.len(),
            forall|k: int, j: int| 0 <= k < r@.len() && i <= j < v@.len() ==> pair_lt(r@[k], v@[j]),
            forall|y: (usize, usize)| r@.contains(y) <==> (v@.subrange(0, i as int).contains(y) && y.0 != x && y.1 != x),
        decreases v@.len() - i,
    {
        let p = v[i];
        let ghost r0 = r@;
        if p.0 != x && p.1 != x {
            r.push(p);
            proof { lemma_push_contains(r0, p); }
        }
        assert(v@.subrange(0, i + 1) == v@.subrange(0, i as int).push(p));
        proof { lemma_push_contains(v@.subrange(0, i as int), p); }
        i = i + 1;
    }
    assert(v@.subrange(0, v@.len() as int) == v@);
    r
}

} // verus!
