//! Stable ordering of keyed entries.

use vstd::prelude::*;

verus! {

/// Keys never decrease along `s`.
pub open spec fn sorted_by_key<T>(s: Seq<(u64, T)>) -> bool {
    forall|i: int, j: int| 0 <= i < j < s.len() ==> s[i].0 <= s[j].0
}

/// Stable sort by the `u64` key: the result holds the same entries, with keys
/// in non-decreasing order and entries of equal key in the order they came in.
pub fn sort_by_key<T: Copy>(v: &Vec<(u64, T)>) -> (r: Vec<(u64, T)>)
    ensures
        sorted_by_key(r@),
        r@.to_multiset() == v@.to_multiset(),
        r.len() == v.len(),
{
    broadcast use vstd::seq_lib::group_to_multiset_ensures;

    let mut r: Vec<(u64, T)> = Vec::new();
    let mut i: usize = 0;
    while i < v.len()
        invariant
            0 <= i <= v.len(),
            sorted_by_key(r@),
            r@.to_multiset() == v@.subrange(0, i as int).to_multiset(),
            r.len() == i,
        decreases v.len() - i,
    {
        let x = v[i];
        let mut pos: usize = 0;
        while pos < r.len() && r[pos].0 <= x.0
            invariant
                0 <= pos <= r.len(),
                forall|j: int| 0 <= j < pos ==> r@[j].0 <= x.0,
            decreases r.len() - pos,
        {
            pos = pos + 1;
        }
        let ghost r0 = r@;
        r.insert(pos, x);
        proof {
            assert forall|a: int, b: int| 0 <= a < b < r@.len() implies r@[a].0 <= r@[b].0 by {
                if b < pos {
                    assert(r@[a] == r0[a] && r@[b] == r0[b]);
                } else if b == pos {
                    assert(r@[a] == r0[a]);
                } else if a < pos {
                    assert(r@[a] == r0[a] && r@[b] == r0[b - 1]);
                    if pos < r0.len() {
                        assert(r0[pos as int].0 > x.0);
                        assert(r0[pos as int].0 <= r0[b - 1].0);
                    }
                } else if a == pos {
                    assert(r@[b] == r0[b - 1]);
                    assert(r0[pos as int].0 > x.0);
                    assert(r0[pos as int].0 <= r0[b - 1].0);
                } else {
                    assert(r@[a] == r0[a - 1] && r@[b] == r0[b - 1]);
                }
            }
            assert(r@ == r0.insert(pos as int, x));
            vstd::seq_lib::to_multiset_insert(r0, pos as int, x);
            assert(v@.subrange(0, i + 1) == v@.subrange(0, i as int).push(x));
            vstd::seq_lib::to_multiset_build(v@.subrange(0, i as int), x);
        }
        i = i + 1;
    }
    proof {
        assert(v@.subrange(0, v.len() as int) == v@);
    }
    r
}

} // verus!
