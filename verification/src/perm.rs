//! Permutations of `0..m` and their inverses, as used by the reordering
//! operations on vectors and matrices.

use vstd::prelude::*;

verus! {

/// Some entry of `p[0..m]` equals `c`.
pub open spec fn in_image(p: Seq<usize>, m: int, c: int) -> bool {
    exists|k: int| 0 <= k < m && #[trigger] p[k] == c
}

/// `p` is a permutation of `0..m`: length `m`, entries below `m`, no entry
/// twice, and every value below `m` taken.
pub open spec fn is_permutation(p: Seq<usize>, m: int) -> bool {
    &&& p.len() == m
    &&& forall|k: int| 0 <= k < m ==> #[trigger] p[k] < m
    &&& forall|k1: int, k2: int| 0 <= k1 < k2 < m ==> #[trigger] p[k1] != #[trigger] p[k2]
    &&& forall|c: int| 0 <= c < m ==> #[trigger] in_image(p, m, c)
}

/// The inverse arrangement of `p`: position `c` holds the index whose entry
/// of `p` is `c`.
pub open spec fn inverse_of(p: Seq<usize>) -> Seq<usize> {
    Seq::new(p.len(), |c: int| (choose|k: int| 0 <= k < p.len() && #[trigger] p[k] == c) as usize)
}

/// The inverse of a permutation is a permutation and cancels it on both
/// sides.
pub proof fn lemma_inverse_of(p: Seq<usize>, m: int)
    requires
        is_permutation(p, m),
        m <= usize::MAX,
    ensures
        is_permutation(inverse_of(p), m),
        forall|k: int| 0 <= k < m ==> inverse_of(p)[#[trigger] p[k] as int] == k,
        forall|c: int| 0 <= c < m ==> #[trigger] inverse_of(p)[c] < m && p[inverse_of(p)[c] as int]
            == c,
{
    let q = inverse_of(p);
    assert forall|c: int| 0 <= c < m implies #[trigger] q[c] < m && p[q[c] as int] == c by {
        assert(in_image(p, m, c));
        let k0 = choose|k: int| 0 <= k < m && #[trigger] p[k] == c;
        assert(0 <= k0 < p.len() && p[k0] == c);
        let kc = choose|k: int| 0 <= k < p.len() && #[trigger] p[k] == c;
        assert(0 <= kc < p.len() && p[kc] == c);
        assert(q[c] == kc as usize);
    }
    assert forall|k: int| 0 <= k < m implies q[#[trigger] p[k] as int] == k by {
        let c = p[k] as int;
        let kc = q[c] as int;
        assert(p[kc] == p[k]);
        if kc != k {
            if kc < k {
                assert(p[kc] != p[k]);
            } else {
                assert(p[k] != p[kc]);
            }
        }
    }
    assert forall|c1: int, c2: int| 0 <= c1 < c2 < m implies q[c1] != q[c2] by {
        assert(p[q[c1] as int] == c1);
        assert(p[q[c2] as int] == c2);
    }
    assert forall|c: int| 0 <= c < m implies #[trigger] in_image(q, m, c) by {
        assert(q[p[c] as int] == c);
    }
}

/// The rearrangement sending position `i` to position `perm[i]` undone: the
/// array whose entry at `perm[i]` is `i`.
pub fn inverse_permutation(perm: &Vec<usize>) -> (r: Vec<usize>)
    requires
        is_permutation(perm@, perm@.len() as int),
    ensures
        r@ == inverse_of(perm@),
        is_permutation(r@, perm@.len() as int),
{
    let m = perm.len();
    let mut r: Vec<usize> = Vec::new();
    let mut c: usize = 0;
    while c < m
        invariant
            c <= m,
            r@.len() == c,
        decreases m - c,
    {
        r.push(usize::MAX);
        c += 1;
    }
    let mut i: usize = 0;
    while i < m
        invariant
            is_permutation(perm@, m as int),
            m == perm@.len(),
            i <= m,
            r@.len() == m,
            forall|k: int| 0 <= k < i ==> r@[#[trigger] perm@[k] as int] == k,
        decreases m - i,
    {
        let pos = perm[i];
        r[pos] = i;
        i += 1;
    }
    proof {
        lemma_inverse_of(perm@, m as int);
        assert forall|c0: int| 0 <= c0 < m implies r@[c0] == inverse_of(perm@)[c0] by {
            let k = inverse_of(perm@)[c0] as int;
            assert(perm@[k] == c0);
            assert(r@[perm@[k] as int] == k);
        }
        assert(r@ =~= inverse_of(perm@));
    }
    r
}

} // verus!
