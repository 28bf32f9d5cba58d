//! Compressed-row sparse matrix (CSR): the nonzero scalars `AA`, their column
//! indices `JA`, and per-row offsets `IA` (`IA[i]..IA[i+1]` is row `i`).
//! A matrix produced by a factorization additionally carries `UPTR`, the
//! position of each row's diagonal entry inside `AA`/`JA`.

use vstd::multiset::Multiset;
use vstd::prelude::*;
use vstd::seq_lib::group_to_multiset_ensures;

use crate::perm::{in_image, inverse_of, inverse_permutation, is_permutation, lemma_inverse_of};
use crate::scalar;
use crate::scalar::{f64_add, f64_mul};
use crate::vector::Vector;

verus! {

/// Sequences with the same multiset of entries keep the same multiset under
/// any entrywise mapping.
pub proof fn lemma_map_values_multiset<A, B>(s1: Seq<A>, s2: Seq<A>, f: spec_fn(A) -> B)
    requires
        s1.to_multiset() == s2.to_multiset(),
    ensures
        s1.map_values(f).to_multiset() == s2.map_values(f).to_multiset(),
    decreases s1.len(),
{
    broadcast use group_to_multiset_ensures;

    if s1.len() == 0 {
        assert(s1.to_multiset().len() == 0);
        assert(s2.len() == 0);
        assert(s1.map_values(f) =~= s2.map_values(f));
    } else {
        let e = s1.last();
        let s1p = s1.drop_last();
        assert(s1 =~= s1p.push(e));
        assert(s1.to_multiset() =~= s1p.to_multiset().insert(e));
        assert(s2.to_multiset().count(e) > 0);
        assert(s2.contains(e));
        let j = choose|j: int| 0 <= j < s2.len() && s2[j] == e;
        let s2p = s2.remove(j);
        assert(s2p.to_multiset() =~= s2.to_multiset().remove(e));
        assert(s1p.to_multiset() =~= s1.to_multiset().remove(e));
        assert(s1p.to_multiset() == s2p.to_multiset());
        lemma_map_values_multiset(s1p, s2p, f);
        assert(s1.map_values(f) =~= s1p.map_values(f).push(f(e)));
        assert(s2p.map_values(f) =~= s2.map_values(f).remove(j));
        assert(s2.map_values(f)[j] == f(e));
        assert(s2.map_values(f).remove(j).to_multiset() =~= s2.map_values(f).to_multiset().remove(
            f(e),
        ));
        assert(s1.map_values(f).to_multiset() =~= s1p.map_values(f).to_multiset().insert(f(e)));
        assert(s2.map_values(f).to_multiset().count(f(e)) > 0) by {
            assert(s2.map_values(f).contains(f(e)));
        }
        assert(s1.map_values(f).to_multiset() =~= s2.map_values(f).to_multiset());
    }
}

/// Selection sort of `(column, value)` pairs by column, ascending; the
/// multiset of pairs is preserved.  Among equal columns the earlier pair
/// leaves first, so the sort is stable.
#[verifier::rlimit(50)]
fn sort_pairs(v: Vec<(usize, u64)>) -> (r: Vec<(usize, u64)>)
    ensures
        r@.to_multiset() == v@.to_multiset(),
        r@.len() == v@.len(),
        forall|t1: int, t2: int| 0 <= t1 < t2 < r@.len() ==> r@[t1].0 <= r@[t2].0,
{
    broadcast use group_to_multiset_ensures;

    let mut rest = v;
    let mut r: Vec<(usize, u64)> = Vec::new();
    proof {
        assert(r@.to_multiset().add(rest@.to_multiset()) =~= v@.to_multiset());
    }
    while rest.len() > 0
        invariant
            r@.to_multiset().add(rest@.to_multiset()) == v@.to_multiset(),
            r@.len() + rest@.len() == v@.len(),
            forall|t1: int, t2: int| 0 <= t1 < t2 < r@.len() ==> r@[t1].0 <= r@[t2].0,
            forall|t: int, s: int|
                0 <= t < r@.len() && 0 <= s < rest@.len() ==> r@[t].0 <= rest@[s].0,
        decreases rest@.len(),
    {
        let mut mi: usize = 0;
        let mut k: usize = 1;
        while k < rest.len()
            invariant
                rest@.len() > 0,
                mi < k <= rest@.len(),
                forall|s: int| 0 <= s < k ==> rest@[mi as int].0 <= rest@[s].0,
            decreases rest@.len() - k,
        {
            if rest[k].0 < rest[mi].0 {
                mi = k;
            }
            k += 1;
        }
        let ghost old_r = r@;
        let ghost old_rest = rest@;
        let e = rest.remove(mi);
        r.push(e);
        proof {
            assert(rest@ == old_rest.remove(mi as int));
            assert(e == old_rest[mi as int]);
            vstd::seq_lib::to_multiset_remove(old_rest, mi as int);
            assert(r@ == old_r.push(e));
            vstd::seq_lib::to_multiset_build(old_r, e);
            vstd::seq_lib::to_multiset_contains(old_rest, e);
            assert(old_rest.contains(e));
            assert(r@.to_multiset().add(rest@.to_multiset()) =~= old_r.to_multiset().add(
                old_rest.to_multiset(),
            ));
        }
    }
    r
}

/// A sequence with the same multiset of pairs as one with pairwise-distinct
/// keys, once its keys ascend, has them ascend strictly.
proof fn lemma_sorted_distinct_keys(s1: Seq<(usize, u64)>, s2: Seq<(usize, u64)>)
    requires
        s1.to_multiset() == s2.to_multiset(),
        forall|t1: int, t2: int| 0 <= t1 < t2 < s1.len() ==> s1[t1].0 != s1[t2].0,
        forall|t1: int, t2: int| 0 <= t1 < t2 < s2.len() ==> s2[t1].0 <= s2[t2].0,
    ensures
        forall|t1: int, t2: int| 0 <= t1 < t2 < s2.len() ==> s2[t1].0 < s2[t2].0,
{
    assert(s1.no_duplicates());
    s1.lemma_multiset_has_no_duplicates();
    s2.lemma_multiset_has_no_duplicates_conv();
    assert forall|t1: int, t2: int| 0 <= t1 < t2 < s2.len() implies s2[t1].0 < s2[t2].0 by {
        if s2[t1].0 == s2[t2].0 {
            assert(s2[t1] != s2[t2]);
            vstd::seq_lib::to_multiset_contains(s2, s2[t1]);
            vstd::seq_lib::to_multiset_contains(s2, s2[t2]);
            vstd::seq_lib::to_multiset_contains(s1, s2[t1]);
            vstd::seq_lib::to_multiset_contains(s1, s2[t2]);
            assert(s1.contains(s2[t1]));
            assert(s1.contains(s2[t2]));
            let u1 = choose|u: int| 0 <= u < s1.len() && s1[u] == s2[t1];
            let u2 = choose|u: int| 0 <= u < s1.len() && s1[u] == s2[t2];
            assert(u1 != u2);
            if u1 < u2 {
                assert(s1[u1].0 != s1[u2].0);
            } else {
                assert(s1[u2].0 != s1[u1].0);
            }
        }
    }
}

/// A copy of the vector, entry for entry.
pub fn copy_vec<T: Copy>(v: &Vec<T>) -> (r: Vec<T>)
    ensures
        r@ == v@,
{
    let mut r: Vec<T> = Vec::new();
    let mut i: usize = 0;
    while i < v.len()
        invariant
            i <= v@.len(),
            r@ =~= v@.subrange(0, i as int),
        decreases v@.len() - i,
    {
        r.push(v[i]);
        i += 1;
    }
    proof {
        assert(r@ =~= v@);
    }
    r
}

/// How many entries of `s` are set.
pub open spec fn count_true(s: Seq<bool>) -> int
    decreases s.len(),
{
    if s.len() == 0 {
        0
    } else {
        count_true(s.drop_last()) + if s.last() {
            1int
        } else {
            0int
        }
    }
}

proof fn lemma_count_true_le(s: Seq<bool>)
    ensures
        0 <= count_true(s) <= s.len(),
    decreases s.len(),
{
    if s.len() > 0 {
        lemma_count_true_le(s.drop_last());
    }
}

/// Setting a clear entry raises the count by one.
proof fn lemma_count_true_update(s: Seq<bool>, i: int)
    requires
        0 <= i < s.len(),
        !s[i],
    ensures
        count_true(s.update(i, true)) == count_true(s) + 1,
    decreases s.len(),
{
    if i == s.len() - 1 {
        assert(s.update(i, true).drop_last() =~= s.drop_last());
    } else {
        assert(s.update(i, true).drop_last() =~= s.drop_last().update(i, true));
        lemma_count_true_update(s.drop_last(), i);
    }
}

/// A full count means every entry is set.
proof fn lemma_count_true_full(s: Seq<bool>)
    requires
        count_true(s) == s.len(),
    ensures
        forall|i: int| 0 <= i < s.len() ==> s[i],
    decreases s.len(),
{
    if s.len() > 0 {
        lemma_count_true_le(s.drop_last());
        lemma_count_true_full(s.drop_last());
        assert forall|i: int| 0 <= i < s.len() implies s[i] by {
            if i < s.len() - 1 {
                assert(s.drop_last()[i]);
            }
        }
    }
}

/// Ordering of nodes by ascending degree, ties by ascending index.
pub open spec fn degree_le(degs: Seq<usize>, a: usize, b: usize) -> bool {
    degs[a as int] < degs[b as int] || (degs[a as int] == degs[b as int] && a <= b)
}

/// Selection sort of nodes by ascending `(degree, index)`; the multiset of
/// nodes is preserved.
pub(crate) fn sort_nodes_by_degree(v: Vec<usize>, degs: &Vec<usize>) -> (r: Vec<usize>)
    requires
        forall|t: int| 0 <= t < v@.len() ==> #[trigger] v@[t] < degs@.len(),
    ensures
        r@.to_multiset() == v@.to_multiset(),
        r@.len() == v@.len(),
        forall|t: int| 0 <= t < r@.len() ==> #[trigger] r@[t] < degs@.len(),
        forall|t1: int, t2: int|
            0 <= t1 < t2 < r@.len() ==> degree_le(degs@, #[trigger] r@[t1], #[trigger] r@[t2]),
{
    broadcast use group_to_multiset_ensures;

    let mut rest = v;
    let mut r: Vec<usize> = Vec::new();
    proof {
        assert(r@.to_multiset().add(rest@.to_multiset()) =~= v@.to_multiset());
    }
    while rest.len() > 0
        invariant
            forall|t: int| 0 <= t < rest@.len() ==> #[trigger] rest@[t] < degs@.len(),
            forall|t: int| 0 <= t < r@.len() ==> #[trigger] r@[t] < degs@.len(),
            r@.to_multiset().add(rest@.to_multiset()) == v@.to_multiset(),
            r@.len() + rest@.len() == v@.len(),
            forall|t1: int, t2: int|
                0 <= t1 < t2 < r@.len() ==> degree_le(degs@, #[trigger] r@[t1], #[trigger] r@[t2]),
            forall|t: int, s: int|
                0 <= t < r@.len() && 0 <= s < rest@.len() ==> degree_le(
                    degs@,
                    #[trigger] r@[t],
                    #[trigger] rest@[s],
                ),
        decreases rest@.len(),
    {
        let mut mi: usize = 0;
        let mut k: usize = 1;
        while k < rest.len()
            invariant
                forall|t: int| 0 <= t < rest@.len() ==> #[trigger] rest@[t] < degs@.len(),
                rest@.len() > 0,
                mi < k <= rest@.len(),
                forall|s: int|
                    0 <= s < k ==> degree_le(degs@, rest@[mi as int], #[trigger] rest@[s]),
            decreases rest@.len() - k,
        {
            let a = rest[k];
            let b = rest[mi];
            if degs[a] < degs[b] || (degs[a] == degs[b] && a < b) {
                mi = k;
            }
            k += 1;
        }
        let ghost old_r = r@;
        let ghost old_rest = rest@;
        let e = rest.remove(mi);
        r.push(e);
        proof {
            vstd::seq_lib::to_multiset_remove(old_rest, mi as int);
            assert(r@ == old_r.push(e));
            vstd::seq_lib::to_multiset_build(old_r, e);
            vstd::seq_lib::to_multiset_contains(old_rest, e);
            assert(old_rest.contains(e));
            assert(r@.to_multiset().add(rest@.to_multiset()) =~= old_r.to_multiset().add(
                old_rest.to_multiset(),
            ));
        }
    }
    r
}

/// The `(column, value)` pairs stored at entries `lo..hi`.
pub open spec fn row_pairs(aa: Seq<u64>, ja: Seq<usize>, lo: int, hi: int) -> Seq<(usize, u64)> {
    Seq::new(if hi >= lo { (hi - lo) as nat } else { 0 }, |t: int| (ja[lo + t], aa[lo + t]))
}

/// Row `i` of a CSR matrix with every column index sent through `inv`.
pub open spec fn remapped_row(
    aa: Seq<u64>,
    ja: Seq<usize>,
    ia: Seq<usize>,
    inv: Seq<usize>,
    i: int,
) -> Seq<(usize, u64)> {
    Seq::new(
        if ia[i + 1] >= ia[i] { (ia[i + 1] - ia[i]) as nat } else { 0 },
        |t: int| (inv[ja[ia[i] + t] as int], aa[ia[i] + t]),
    )
}

/// The sum of a sequence of multisets.
pub open spec fn msum(rs: Seq<Multiset<u64>>) -> Multiset<u64>
    decreases rs.len(),
{
    if rs.len() == 0 {
        Multiset::empty()
    } else {
        msum(rs.drop_last()).add(rs.last())
    }
}

/// The sum of the multisets picked by the first `i` entries of `p`.
pub open spec fn msum_sel(rs: Seq<Multiset<u64>>, p: Seq<usize>, i: int) -> Multiset<u64>
    decreases i,
{
    if i <= 0 {
        Multiset::empty()
    } else {
        msum_sel(rs, p, i - 1).add(rs[p[i - 1] as int])
    }
}

/// Taking one multiset out of the sum leaves the sum of the rest.
proof fn lemma_msum_remove(rs: Seq<Multiset<u64>>, j: int)
    requires
        0 <= j < rs.len(),
    ensures
        msum(rs) =~= msum(rs.remove(j)).add(rs[j]),
    decreases rs.len(),
{
    if j == rs.len() - 1 {
        assert(rs.remove(j) =~= rs.drop_last());
    } else {
        let dl = rs.drop_last();
        lemma_msum_remove(dl, j);
        assert(rs.remove(j).drop_last() =~= dl.remove(j));
        assert(rs.remove(j).last() == rs.last());
        assert(msum(rs.remove(j)) =~= msum(dl.remove(j)).add(rs.last()));
    }
}

/// A selection sums like the list of the multisets it picks.
proof fn lemma_msum_sel_as_list(rs: Seq<Multiset<u64>>, p: Seq<usize>, i: int)
    requires
        0 <= i,
    ensures
        msum_sel(rs, p, i) =~= msum(Seq::new(i as nat, |k: int| rs[p[k] as int])),
    decreases i,
{
    if i > 0 {
        lemma_msum_sel_as_list(rs, p, i - 1);
        assert(Seq::new(i as nat, |k: int| rs[p[k] as int]).drop_last() =~= Seq::new(
            (i - 1) as nat,
            |k: int| rs[p[k] as int],
        ));
    }
}

/// Selecting every multiset once, in any order, gives the plain sum.
proof fn lemma_msum_sel_perm(rs: Seq<Multiset<u64>>, p: Seq<usize>)
    requires
        is_permutation(p, rs.len() as int),
        rs.len() <= usize::MAX,
    ensures
        msum_sel(rs, p, rs.len() as int) =~= msum(rs),
    decreases rs.len(),
{
    let len = rs.len() as int;
    if len > 0 {
        let lastpos = len - 1;
        let j = p[lastpos] as int;
        let rs2 = rs.remove(j);
        let p2 = Seq::new((len - 1) as nat, |k: int| if p[k] > j { (p[k] - 1) as usize } else { p[k] });
        assert forall|k: int| 0 <= k < len - 1 implies #[trigger] p[k] != j by {
            if k < lastpos {
                assert(p[k] != p[lastpos]);
            }
        }
        assert(is_permutation(p2, len - 1)) by {
            assert forall|k1: int, k2: int| 0 <= k1 < k2 < len - 1 implies #[trigger] p2[k1]
                != #[trigger] p2[k2] by {
                assert(p[k1] != p[k2]);
            }
            assert forall|c: int| 0 <= c < len - 1 implies #[trigger] in_image(p2, len - 1, c) by {
                let cprime = if c >= j {
                    c + 1
                } else {
                    c
                };
                assert(in_image(p, len, cprime));
                let k = choose|k: int| 0 <= k < len && #[trigger] p[k] == cprime;
                assert(k != lastpos);
                assert(p2[k] == c);
            }
        }
        let mapped1 = Seq::new((len - 1) as nat, |k: int| rs[p[k] as int]);
        let mapped2 = Seq::new((len - 1) as nat, |k: int| rs2[p2[k] as int]);
        assert forall|k: int| 0 <= k < len - 1 implies mapped1[k] == mapped2[k] by {
            if p[k] > j {
                assert(rs2[p[k] - 1] == rs[p[k] as int]);
            } else {
                assert(rs2[p2[k] as int] == rs[p[k] as int]);
            }
        }
        assert(mapped1 =~= mapped2);
        lemma_msum_sel_as_list(rs, p, len - 1);
        lemma_msum_sel_as_list(rs2, p2, len - 1);
        lemma_msum_sel_perm(rs2, p2);
        lemma_msum_remove(rs, j);
    }
}

/// The per-row value multisets of a CSR matrix.
pub open spec fn row_multisets(aa: Seq<u64>, ia: Seq<usize>, m: int) -> Seq<Multiset<u64>> {
    Seq::new(if m >= 0 { m as nat } else { 0 }, |i: int| aa.subrange(ia[i] as int, ia[i + 1] as int).to_multiset())
}

/// Summing the rows of a CSR matrix gives the multiset of all its values.
proof fn lemma_rows_msum(aa: Seq<u64>, ia: Seq<usize>, m: int, i: int)
    requires
        0 <= i <= m,
        ia.len() == m + 1,
        ia[0] == 0,
        forall|a: int, b: int| 0 <= a <= b <= m ==> #[trigger] ia[a] <= #[trigger] ia[b],
        ia[m] == aa.len(),
    ensures
        msum(row_multisets(aa, ia, m).take(i)) =~= aa.subrange(0, ia[i] as int).to_multiset(),
    decreases i,
{
    let rs = row_multisets(aa, ia, m);
    if i == 0 {
        assert(aa.subrange(0, 0).to_multiset() =~= Multiset::empty()) by {
            aa.subrange(0, 0).to_multiset_ensures();
            assert(aa.subrange(0, 0).to_multiset().len() == 0);
        }
        assert(rs.take(0) =~= Seq::<Multiset<u64>>::empty());
    } else {
        lemma_rows_msum(aa, ia, m, i - 1);
        assert(rs.take(i).drop_last() =~= rs.take(i - 1));
        assert(rs.take(i).last() == aa.subrange(ia[i - 1] as int, ia[i] as int).to_multiset());
        assert(aa.subrange(0, ia[i] as int) =~= aa.subrange(0, ia[i - 1] as int) + aa.subrange(
            ia[i - 1] as int,
            ia[i] as int,
        ));
        vstd::seq_lib::lemma_multiset_commutative(
            aa.subrange(0, ia[i - 1] as int),
            aa.subrange(ia[i - 1] as int, ia[i] as int),
        );
    }
}

/// Lexicographic order by row, column, then source position of two
/// 1-based triples tagged with where they stood in the source list: among
/// equal keys the earlier triple comes first, which is the stable order.
pub open spec fn tagged_le(
    a: (usize, usize, usize, u64),
    b: (usize, usize, usize, u64),
) -> bool {
    a.0 < b.0 || (a.0 == b.0 && (a.1 < b.1 || (a.1 == b.1 && a.2 <= b.2)))
}

/// The coordinate list with each triple tagged by its position.
pub open spec fn tag_seq(d: Seq<(usize, usize, u64)>) -> Seq<(usize, usize, usize, u64)> {
    Seq::new(d.len(), |i: int| (d[i].0, d[i].1, i as usize, d[i].2))
}

/// The coordinate list with, when the source is symmetric, every
/// off-diagonal triple mirrored across the diagonal and appended.
pub open spec fn mirror_seq(d: Seq<(usize, usize, u64)>, symmetric: bool) -> Seq<
    (usize, usize, u64),
> {
    if symmetric {
        d + d.filter(|t: (usize, usize, u64)| t.0 != t.1).map_values(
            |t: (usize, usize, u64)| (t.1, t.0, t.2),
        )
    } else {
        d
    }
}

/// `M` stores exactly the tagged 1-based triples `t`, row-major: values
/// and columns entry for entry, and the offsets cut `t` at the row changes.
pub open spec fn is_csr_of(M: Matrix, t: Seq<(usize, usize, usize, u64)>) -> bool {
    &&& M.AA@.len() == t.len()
    &&& (forall|k: int| 0 <= k < t.len() ==> #[trigger] M.AA@[k] == t[k].3)
    &&& (forall|k: int| 0 <= k < t.len() ==> #[trigger] M.JA@[k] == t[k].1 - 1)
    &&& (forall|i: int, k: int|
        #![trigger M.IA@[i], t[k]]
        0 <= i < M.m && 0 <= k < t.len() ==> ((M.IA@[i] <= k < M.IA@[i + 1]) <==> t[k].0 == i + 1))
}

/// Selection sort of tagged 1-based triples by row, column, then source
/// position, ascending; the multiset of tagged triples is preserved, and
/// the position tag makes the order total, so equal keys keep their source
/// order.
#[verifier::rlimit(50)]
fn sort_triples(v: Vec<(usize, usize, usize, u64)>) -> (r: Vec<(usize, usize, usize, u64)>)
    ensures
        r@.to_multiset() == v@.to_multiset(),
        r@.len() == v@.len(),
        forall|t1: int, t2: int| 0 <= t1 < t2 < r@.len() ==> tagged_le(r@[t1], r@[t2]),
{
    broadcast use group_to_multiset_ensures;

    let mut rest = v;
    let mut r: Vec<(usize, usize, usize, u64)> = Vec::new();
    proof {
        assert(r@.to_multiset().add(rest@.to_multiset()) =~= v@.to_multiset());
    }
    while rest.len() > 0
        invariant
            r@.to_multiset().add(rest@.to_multiset()) == v@.to_multiset(),
            r@.len() + rest@.len() == v@.len(),
            forall|t1: int, t2: int| 0 <= t1 < t2 < r@.len() ==> tagged_le(r@[t1], r@[t2]),
            forall|t: int, u: int|
                0 <= t < r@.len() && 0 <= u < rest@.len() ==> tagged_le(r@[t], rest@[u]),
        decreases rest@.len(),
    {
        let mut mi: usize = 0;
        let mut k: usize = 1;
        while k < rest.len()
            invariant
                rest@.len() > 0,
                mi < k <= rest@.len(),
                forall|u: int| 0 <= u < k ==> tagged_le(rest@[mi as int], #[trigger] rest@[u]),
            decreases rest@.len() - k,
        {
            let a = rest[k];
            let b = rest[mi];
            if a.0 < b.0 || (a.0 == b.0 && (a.1 < b.1 || (a.1 == b.1 && a.2 < b.2))) {
                mi = k;
            }
            k += 1;
        }
        let ghost old_r = r@;
        let ghost old_rest = rest@;
        let e = rest.remove(mi);
        r.push(e);
        proof {
            vstd::seq_lib::to_multiset_remove(old_rest, mi as int);
            assert(r@ == old_r.push(e));
            vstd::seq_lib::to_multiset_build(old_r, e);
            vstd::seq_lib::to_multiset_contains(old_rest, e);
            assert(old_rest.contains(e));
            assert(r@.to_multiset().add(rest@.to_multiset()) =~= old_r.to_multiset().add(
                old_rest.to_multiset(),
            ));
        }
    }
    r
}

/// The error conditions of the library: a matrix/vector size disagreement, a
/// missing or zero diagonal during factorization or substitution, a
/// triangular solve on a matrix that records no diagonal pointers, and a
/// requested variant that is not available.
#[derive(Clone, Copy, Debug, PartialEq, Eq, Structural)]
pub enum MatrixError {
    DimensionMismatch,
    DiagonalElement,
    NotFactored,
    NotAvailable,
}

#[derive(Debug, Clone)]
pub struct Matrix {
    pub m: usize,
    pub n: usize,
    pub AA: Vec<u64>,
    pub JA: Vec<usize>,
    pub IA: Vec<usize>,
    pub UPTR: Option<Vec<usize>>,
}

/// Product of row entries `lo..hi` with the vector `x`, accumulated left to
/// right from +0.0: the sum of `aa[k] * x[ja[k]]`.
pub open spec fn row_dot(aa: Seq<u64>, ja: Seq<usize>, x: Seq<u64>, lo: int, hi: int) -> u64
    decreases hi - lo,
{
    if hi <= lo {
        scalar::ZERO_BITS
    } else {
        f64_add(row_dot(aa, ja, x, lo, hi - 1), f64_mul(aa[hi - 1], x[ja[hi - 1] as int]))
    }
}

/// Some entry of `ja[lo..hi]` holds the column `c`.
pub open spec fn row_contains(ja: Seq<usize>, lo: int, hi: int, c: int) -> bool {
    exists|k: int| lo <= k < hi && #[trigger] ja[k] == c
}

/// Distance of an entry from the diagonal.
pub open spec fn band_of(i: int, j: int) -> int {
    if i >= j {
        i - j
    } else {
        j - i
    }
}

impl Matrix {
    /// The CSR arrays are consistent: `IA` has an offset per row plus one,
    /// starts at zero, never decreases, ends at the common length of
    /// `AA`/`JA`, and every column index is within the column count.
    pub open spec fn wf(&self) -> bool {
        &&& self.IA@.len() == self.m + 1
        &&& self.IA@[0] == 0
        &&& forall|i: int, j: int|
            0 <= i <= j <= self.m ==> #[trigger] self.IA@[i] <= #[trigger] self.IA@[j]
        &&& self.IA@[self.m as int] == self.AA@.len()
        &&& self.JA@.len() == self.AA@.len()
        &&& forall|k: int| 0 <= k < self.JA@.len() ==> #[trigger] self.JA@[k] < self.n
    }

    /// Within each row the column indices strictly ascend (so no column
    /// repeats in a row).
    pub open spec fn rows_sorted(&self) -> bool {
        forall|i: int, k1: int, k2: int|
            #![trigger self.IA@[i], self.JA@[k1], self.JA@[k2]]
            0 <= i < self.m && self.IA@[i] <= k1 < k2 < self.IA@[i + 1] ==> self.JA@[k1]
                < self.JA@[k2]
    }

    /// The matrix was produced by a factorization: it is square, and `UPTR`
    /// points at a diagonal entry inside every row.
    pub open spec fn factored_wf(&self) -> bool {
        &&& self.n == self.m
        &&& match self.UPTR {
            Some(u) => {
                &&& u@.len() == self.m
                &&& forall|i: int|
                    0 <= i < self.m ==> self.IA@[i] <= #[trigger] u@[i] < self.IA@[i + 1]
                &&& forall|i: int| 0 <= i < self.m ==> #[trigger] self.JA@[u@[i] as int] == i
            },
            None => false,
        }
    }

    /// The empty matrix.
    pub fn new() -> (r: Matrix)
        ensures
            r.wf(),
            r.m == 0,
            r.n == 0,
            r.AA@.len() == 0,
            r.UPTR is None,
    {
        let mut IA: Vec<usize> = Vec::new();
        IA.push(0);
        Matrix { m: 0, n: 0, AA: Vec::new(), JA: Vec::new(), IA, UPTR: None }
    }

    /// A matrix owning the given CSR arrays.  The row count is read off
    /// `IA`; the column count is one past the largest column index.
    pub fn from(AA: Vec<u64>, JA: Vec<usize>, IA: Vec<usize>) -> (r: Matrix)
        requires
            IA@.len() >= 1,
            IA@[0] == 0,
            forall|i: int, j: int|
                0 <= i <= j < IA@.len() ==> #[trigger] IA@[i] <= #[trigger] IA@[j],
            IA@[IA@.len() - 1] == AA@.len(),
            JA@.len() == AA@.len(),
            JA@.len() >= 1,
            forall|k: int| 0 <= k < JA@.len() ==> #[trigger] JA@[k] < usize::MAX,
        ensures
            r.wf(),
            r.m == IA@.len() - 1,
            r.AA@ == AA@,
            r.JA@ == JA@,
            r.IA@ == IA@,
            r.UPTR is None,
            forall|k: int| 0 <= k < JA@.len() ==> #[trigger] JA@[k] < r.n,
            exists|k: int| 0 <= k < JA@.len() && #[trigger] JA@[k] + 1 == r.n,
    {
        let m = IA.len() - 1;
        let mut max: usize = 0;
        let mut k: usize = 0;
        while k < JA.len()
            invariant
                JA@.len() >= 1,
                k <= JA@.len(),
                forall|j: int| 0 <= j < JA@.len() ==> #[trigger] JA@[j] < usize::MAX,
                k == 0 ==> max == 0,
                k > 0 ==> (forall|j: int| 0 <= j < k ==> #[trigger] JA@[j] <= max),
                k > 0 ==> (exists|j: int| 0 <= j < k && #[trigger] JA@[j] == max),
            decreases JA@.len() - k,
        {
            if k == 0 || JA[k] > max {
                max = JA[k];
            }
            k += 1;
        }
        let n = max + 1;
        Matrix { m, n, AA, JA, IA, UPTR: None }
    }

    pub fn num_rows(&self) -> (r: usize)
        ensures
            r == self.m,
    {
        self.m
    }

    pub fn num_cols(&self) -> (r: usize)
        ensures
            r == self.n,
    {
        self.n
    }

    pub fn AA(&self) -> (r: &Vec<u64>)
        ensures
            r@ == self.AA@,
    {
        &self.AA
    }

    pub fn JA(&self) -> (r: &Vec<usize>)
        ensures
            r@ == self.JA@,
    {
        &self.JA
    }

    pub fn IA(&self) -> (r: &Vec<usize>)
        ensures
            r@ == self.IA@,
    {
        &self.IA
    }

    pub fn UPTR(&self) -> (r: Option<&Vec<usize>>)
        ensures
            match r {
                Some(u) => self.UPTR matches Some(v) && u@ == v@,
                None => self.UPTR is None,
            },
    {
        self.UPTR.as_ref()
    }

    /// Record the diagonal-pointer array of a factorization.
    pub fn set_dia_ptr(&mut self, UPTR: Vec<usize>)
        ensures
            final(self).m == old(self).m,
            final(self).n == old(self).n,
            final(self).AA@ == old(self).AA@,
            final(self).JA@ == old(self).JA@,
            final(self).IA@ == old(self).IA@,
            final(self).UPTR matches Some(u) && u@ == UPTR@,
    {
        self.UPTR = Some(UPTR);
    }

    /// Count of off-diagonal nonzeros in row `i`: the row's entries less one
    /// when the diagonal is present.
    pub open spec fn spec_degree(&self, i: int) -> int {
        self.IA@[i + 1] - self.IA@[i] - if row_contains(
            self.JA@,
            self.IA@[i] as int,
            self.IA@[i + 1] as int,
            i,
        ) {
            1int
        } else {
            0int
        }
    }

    /// Degree of node `i`: the count of its off-diagonal row entries.
    pub fn degree(&self, i: usize) -> (r: usize)
        requires
            self.wf(),
            i < self.m,
        ensures
            r == self.spec_degree(i as int),
    {
        let j1 = self.IA[i];
        let j2 = self.IA[i + 1];
        let mut found: bool = false;
        let mut k: usize = j1;
        while k < j2
            invariant
                self.wf(),
                i < self.m,
                j1 == self.IA@[i as int],
                j2 == self.IA@[i as int + 1],
                j2 <= self.JA@.len(),
                j1 <= k <= j2,
                found == row_contains(self.JA@, j1 as int, k as int, i as int),
            decreases j2 - k,
        {
            if self.JA[k] == i {
                found = true;
            }
            k += 1;
        }
        if found {
            j2 - j1 - 1
        } else {
            j2 - j1
        }
    }

    /// The column indices of row `i`, as stored (the node itself included
    /// when the diagonal entry is present).
    pub fn neighbor(&self, i: usize) -> (r: Vec<usize>)
        requires
            self.wf(),
            i < self.m,
        ensures
            r@ == self.JA@.subrange(self.IA@[i as int] as int, self.IA@[i as int + 1] as int),
    {
        let j1 = self.IA[i];
        let j2 = self.IA[i + 1];
        let mut r: Vec<usize> = Vec::new();
        let mut k: usize = j1;
        while k < j2
            invariant
                self.wf(),
                i < self.m,
                j1 == self.IA@[i as int],
                j2 == self.IA@[i as int + 1],
                j2 <= self.JA@.len(),
                j1 <= k <= j2,
                r@ == self.JA@.subrange(j1 as int, k as int),
            decreases j2 - k,
        {
            r.push(self.JA[k]);
            proof {
                assert(r@ =~= self.JA@.subrange(j1 as int, k as int + 1));
            }
            k += 1;
        }
        r
    }

    /// Bandwidth: the largest distance of any stored entry from the
    /// diagonal.  Requires at least one row and no empty row.
    #[verifier::rlimit(100)]
    #[verifier::spinoff_prover]
    pub fn bandwidth(&self) -> (r: usize)
        requires
            self.wf(),
            self.m >= 1,
            forall|i: int|
                #![trigger self.IA@[i], self.IA@[i + 1]]
                0 <= i < self.m ==> self.IA@[i] < self.IA@[i + 1],
        ensures
            forall|i: int, k: int|
                #![trigger self.IA@[i], self.JA@[k]]
                0 <= i < self.m && self.IA@[i] <= k < self.IA@[i + 1] ==> band_of(
                    i,
                    self.JA@[k] as int,
                ) <= r,
            exists|i: int, k: int|
                #![trigger self.IA@[i], self.JA@[k]]
                0 <= i < self.m && self.IA@[i] <= k < self.IA@[i + 1] && band_of(
                    i,
                    self.JA@[k] as int,
                ) == r,
    {
        let mut bw: usize = 0;
        let mut seen: bool = false;
        let ghost mut wi: int = 0;
        let ghost mut wk: int = 0;
        let mut i: usize = 0;
        while i < self.m
            invariant
                self.wf(),
                self.m >= 1,
                forall|r0: int|
                    #![trigger self.IA@[r0], self.IA@[r0 + 1]]
                    0 <= r0 < self.m ==> self.IA@[r0] < self.IA@[r0 + 1],
                i <= self.m,
                forall|r0: int, k: int|
                    #![trigger self.IA@[r0], self.JA@[k]]
                    0 <= r0 < i && self.IA@[r0] <= k < self.IA@[r0 + 1] ==> band_of(
                        r0,
                        self.JA@[k] as int,
                    ) <= bw,
                seen == (i > 0),
                seen ==> 0 <= wi < i && self.IA@[wi] <= wk < self.IA@[wi + 1] && band_of(
                    wi,
                    self.JA@[wk] as int,
                ) == bw,
                !seen ==> bw == 0,
            decreases self.m - i,
        {
            let j1 = self.IA[i];
            let j2 = self.IA[i + 1];
            let mut k: usize = j1;
            while k < j2
                invariant
                    self.wf(),
                    i < self.m,
                    j1 == self.IA@[i as int],
                    j2 == self.IA@[i as int + 1],
                    j1 < j2,
                    j2 <= self.JA@.len(),
                    j1 <= k <= j2,
                    forall|r0: int, kk: int|
                        #![trigger self.IA@[r0], self.JA@[kk]]
                        0 <= r0 < i && self.IA@[r0] <= kk < self.IA@[r0 + 1] ==> band_of(
                            r0,
                            self.JA@[kk] as int,
                        ) <= bw,
                    forall|kk: int|
                        j1 <= kk < k ==> band_of(i as int, #[trigger] self.JA@[kk] as int) <= bw,
                    seen == (i > 0 || k > j1),
                    seen ==> 0 <= wi <= i && (wi < i || self.IA@[wi] <= wk < k) && self.IA@[wi]
                        <= wk < self.IA@[wi + 1] && band_of(wi, self.JA@[wk] as int) == bw,
                    !seen ==> bw == 0,
                decreases j2 - k,
            {
                let c = self.JA[k];
                let d = if i >= c {
                    i - c
                } else {
                    c - i
                };
                if !seen || d > bw {
                    bw = d;
                    proof {
                        wi = i as int;
                        wk = k as int;
                    }
                }
                seen = true;
                k += 1;
            }
            i += 1;
        }
        proof {
            assert(0 <= wi < self.m && self.IA@[wi] <= wk < self.IA@[wi + 1] && band_of(
                wi,
                self.JA@[wk] as int,
            ) == bw);
        }
        bw
    }

    /// The matrix reordered by `perm`: new row `i` is old row `perm[i]` with
    /// every column index sent through the inverse of `perm` and the row's
    /// entries re-sorted by the new column.  Row `i` of the result holds
    /// exactly the remapped pairs of old row `perm[i]`.
    #[verifier::rlimit(50)]
    pub fn permutate_par(self, perm: &Vec<usize>) -> (r: Matrix)
        requires
            self.wf(),
            self.rows_sorted(),
            self.n == self.m,
            perm@.len() == self.m,
            is_permutation(perm@, self.m as int),
        ensures
            r.wf(),
            r.rows_sorted(),
            r.m == self.m,
            r.n == self.n,
            r.UPTR is None,
            r.AA@.to_multiset() == self.AA@.to_multiset(),
            forall|i: int|
                0 <= i < r.m ==> #[trigger] r.IA@[i + 1] - r.IA@[i] == self.IA@[
                    perm@[i] as int + 1
                ] - self.IA@[perm@[i] as int],
            forall|i: int|
                0 <= i < r.m ==> #[trigger] row_pairs(
                    r.AA@,
                    r.JA@,
                    r.IA@[i] as int,
                    r.IA@[i + 1] as int,
                ).to_multiset() == remapped_row(
                    self.AA@,
                    self.JA@,
                    self.IA@,
                    inverse_of(perm@),
                    perm@[i] as int,
                ).to_multiset(),
    {
        let m = self.m;
        let inv = inverse_permutation(perm);
        proof {
            lemma_inverse_of(perm@, m as int);
        }
        let mut AA2: Vec<u64> = Vec::new();
        let mut JA2: Vec<usize> = Vec::new();
        let mut IA2: Vec<usize> = Vec::new();
        IA2.push(0);
        let ghost RS = row_multisets(self.AA@, self.IA@, m as int);
        proof {
            AA2@.to_multiset_ensures();
            assert(AA2@.to_multiset().len() == 0);
            assert(AA2@.to_multiset() =~= msum_sel(RS, perm@, 0));
        }
        let mut i: usize = 0;
        while i < m
            invariant
                RS == row_multisets(self.AA@, self.IA@, m as int),
                AA2@.to_multiset() =~= msum_sel(RS, perm@, i as int),
                self.wf(),
                self.rows_sorted(),
                self.n == self.m,
                m == self.m,
                perm@.len() == m,
                is_permutation(perm@, m as int),
                inv@ == inverse_of(perm@),
                is_permutation(inv@, m as int),
                forall|c: int| 0 <= c < m ==> #[trigger] inv@[c] < m && perm@[inv@[c] as int] == c,
                i <= m,
                IA2@.len() == i + 1,
                IA2@[0] == 0,
                forall|a: int, b: int|
                    0 <= a <= b <= i ==> #[trigger] IA2@[a] <= #[trigger] IA2@[b],
                IA2@[i as int] == AA2@.len(),
                JA2@.len() == AA2@.len(),
                forall|k: int| 0 <= k < JA2@.len() ==> #[trigger] JA2@[k] < self.n,
                forall|r0: int, k1: int, k2: int|
                    #![trigger IA2@[r0], JA2@[k1], JA2@[k2]]
                    0 <= r0 < i && IA2@[r0] <= k1 < k2 < IA2@[r0 + 1] ==> JA2@[k1] < JA2@[k2],
                forall|r0: int|
                    0 <= r0 < i ==> #[trigger] IA2@[r0 + 1] - IA2@[r0] == self.IA@[
                        perm@[r0] as int + 1
                    ] - self.IA@[perm@[r0] as int],
                forall|r0: int|
                    0 <= r0 < i ==> #[trigger] row_pairs(
                        AA2@,
                        JA2@,
                        IA2@[r0] as int,
                        IA2@[r0 + 1] as int,
                    ).to_multiset() == remapped_row(
                        self.AA@,
                        self.JA@,
                        self.IA@,
                        inv@,
                        perm@[r0] as int,
                    ).to_multiset(),
            decreases m - i,
        {
            let src = perm[i];
            let j1 = self.IA[src];
            let j2 = self.IA[src + 1];
            let mut pairs: Vec<(usize, u64)> = Vec::new();
            let mut k: usize = j1;
            while k < j2
                invariant
                    self.wf(),
                    self.n == self.m,
                    m == self.m,
                    src < m,
                    inv@.len() == m,
                    forall|c: int| 0 <= c < m ==> #[trigger] inv@[c] < m,
                    j1 == self.IA@[src as int],
                    j2 == self.IA@[src as int + 1],
                    j2 <= self.JA@.len(),
                    j1 <= k <= j2,
                    pairs@.len() == k - j1,
                    forall|t: int|
                        0 <= t < k - j1 ==> #[trigger] pairs@[t] == (
                            inv@[self.JA@[j1 + t] as int],
                            self.AA@[j1 + t],
                        ),
                decreases j2 - k,
            {
                pairs.push((inv[self.JA[k]], self.AA[k]));
                k += 1;
            }
            proof {
                assert(pairs@ =~= remapped_row(
                    self.AA@,
                    self.JA@,
                    self.IA@,
                    inv@,
                    src as int,
                ));
            }
            let sorted = sort_pairs(pairs);
            proof {
                // distinct columns in the source row stay distinct through the
                // inverse, so the sorted row ascends strictly
                assert forall|t1: int, t2: int|
                    0 <= t1 < t2 < remapped_row(
                        self.AA@,
                        self.JA@,
                        self.IA@,
                        inv@,
                        src as int,
                    ).len() implies remapped_row(
                    self.AA@,
                    self.JA@,
                    self.IA@,
                    inv@,
                    src as int,
                )[t1].0 != remapped_row(self.AA@, self.JA@, self.IA@, inv@, src as int)[t2].0 by {
                    let c1 = self.JA@[j1 + t1] as int;
                    let c2 = self.JA@[j1 + t2] as int;
                    assert(self.JA@[j1 + t1] < self.JA@[j1 + t2]);
                    assert(perm@[inv@[c1] as int] == c1);
                    assert(perm@[inv@[c2] as int] == c2);
                }
                lemma_sorted_distinct_keys(
                    remapped_row(self.AA@, self.JA@, self.IA@, inv@, src as int),
                    sorted@,
                );
            }
            let ghost aa_before = AA2@;
            let ghost ja_before = JA2@;
            let mut t: usize = 0;
            while t < sorted.len()
                invariant
                    self.wf(),
                    self.n == self.m,
                    m == self.m,
                    src < m,
                    inv@.len() == m,
                    forall|c: int| 0 <= c < m ==> #[trigger] inv@[c] < m,
                    sorted@.to_multiset() == remapped_row(
                        self.AA@,
                        self.JA@,
                        self.IA@,
                        inv@,
                        src as int,
                    ).to_multiset(),
                    t <= sorted@.len(),
                    forall|k: int| 0 <= k < ja_before.len() ==> #[trigger] ja_before[k] < self.n,
                    forall|k: int| 0 <= k < JA2@.len() ==> #[trigger] JA2@[k] < self.n,
                    AA2@.len() == aa_before.len() + t,
                    JA2@.len() == ja_before.len() + t,
                    AA2@ == aa_before + sorted@.map_values(|p: (usize, u64)| p.1).take(t as int),
                    JA2@ == ja_before + sorted@.map_values(|p: (usize, u64)| p.0).take(t as int),
                decreases sorted@.len() - t,
            {
                proof {
                    let e = sorted@[t as int];
                    let rr = remapped_row(self.AA@, self.JA@, self.IA@, inv@, src as int);
                    vstd::seq_lib::to_multiset_contains(sorted@, e);
                    assert(sorted@.contains(e));
                    vstd::seq_lib::to_multiset_contains(rr, e);
                    assert(rr.contains(e));
                    let s = choose|s: int| 0 <= s < rr.len() && rr[s] == e;
                    assert(rr[s].0 < self.n);
                }
                JA2.push(sorted[t].0);
                AA2.push(sorted[t].1);
                proof {
                    assert(AA2@ =~= aa_before + sorted@.map_values(|p: (usize, u64)| p.1).take(
                        t as int + 1,
                    ));
                    assert(JA2@ =~= ja_before + sorted@.map_values(|p: (usize, u64)| p.0).take(
                        t as int + 1,
                    ));
                }
                t += 1;
            }
            IA2.push(AA2.len());
            proof {
                let li = i as int;
                // the appended values are exactly the source row's, re-sorted
                let mapped = sorted@.map_values(|pr: (usize, u64)| pr.1);
                let rr = remapped_row(self.AA@, self.JA@, self.IA@, inv@, src as int);
                assert(AA2@ =~= aa_before + mapped) by {
                    assert(mapped.take(sorted@.len() as int) =~= mapped);
                }
                lemma_map_values_multiset(sorted@, rr, |pr: (usize, u64)| pr.1);
                assert(rr.map_values(|pr: (usize, u64)| pr.1) =~= self.AA@.subrange(
                    self.IA@[src as int] as int,
                    self.IA@[src as int + 1] as int,
                ));
                vstd::seq_lib::lemma_multiset_commutative(aa_before, mapped);
                assert(RS[src as int] == self.AA@.subrange(
                    self.IA@[src as int] as int,
                    self.IA@[src as int + 1] as int,
                ).to_multiset());
                assert(AA2@.to_multiset() =~= msum_sel(RS, perm@, li + 1));
                assert(row_pairs(AA2@, JA2@, IA2@[li] as int, IA2@[li + 1] as int) =~= sorted@);
                // earlier rows are untouched by the append
                assert forall|r0: int| 0 <= r0 < li implies #[trigger] row_pairs(
                    AA2@,
                    JA2@,
                    IA2@[r0] as int,
                    IA2@[r0 + 1] as int,
                ) =~= row_pairs(aa_before, ja_before, IA2@[r0] as int, IA2@[r0 + 1] as int) by {
                }
            }
            i += 1;
        }
        proof {
            lemma_msum_sel_perm(RS, perm@);
            lemma_rows_msum(self.AA@, self.IA@, m as int, m as int);
            assert(RS.take(m as int) =~= RS);
            assert(self.AA@.subrange(0, self.IA@[m as int] as int) =~= self.AA@);
        }
        Matrix { m: self.m, n: self.n, AA: AA2, JA: JA2, IA: IA2, UPTR: None }
    }

    /// Build a matrix from an unordered 1-based coordinate list, mirroring
    /// the off-diagonal triples first when the source declares symmetry,
    /// then sorting stably by row and column and cutting rows where the row
    /// index changes (rows with no triple get empty spans).  The result
    /// stores exactly some row-major arrangement of the mirrored list.
    #[verifier::rlimit(100)]
    pub fn construct(data: Vec<(usize, usize, u64)>, symmetric: bool) -> (r: Matrix)
        requires
            data@.len() >= 1,
            forall|k: int|
                0 <= k < data@.len() ==> (#[trigger] data@[k]).0 >= 1 && data@[k].1 >= 1,
        ensures
            r.wf(),
            r.UPTR is None,
            exists|t: Seq<(usize, usize, usize, u64)>|
                {
                    &&& #[trigger] t.to_multiset() == tag_seq(
                        mirror_seq(data@, symmetric),
                    ).to_multiset()
                    &&& (forall|k1: int, k2: int|
                        0 <= k1 < k2 < t.len() ==> tagged_le(t[k1], t[k2]))
                    &&& is_csr_of(r, t)
                },
    {
        let mut work: Vec<(usize, usize, u64)> = Vec::new();
        let mut k: usize = 0;
        while k < data.len()
            invariant
                forall|t: int|
                    0 <= t < data@.len() ==> (#[trigger] data@[t]).0 >= 1 && data@[t].1 >= 1,
                k <= data@.len(),
                work@ == data@.take(k as int),
                forall|t: int|
                    0 <= t < work@.len() ==> (#[trigger] work@[t]).0 >= 1 && work@[t].1 >= 1,
            decreases data@.len() - k,
        {
            work.push(data[k]);
            k += 1;
        }
        proof {
            assert(work@ =~= data@);
        }
        if symmetric {
            let ghost base = data@;
            let pred = |t: (usize, usize, u64)| t.0 != t.1;
            let mut k: usize = 0;
            while k < data.len()
                invariant
                    forall|t: int|
                        0 <= t < data@.len() ==> (#[trigger] data@[t]).0 >= 1 && data@[t].1 >= 1,
                    k <= data@.len(),
                    forall|t: int|
                        0 <= t < work@.len() ==> (#[trigger] work@[t]).0 >= 1 && work@[t].1 >= 1,
                    work@ == data@ + data@.take(k as int).filter(
                        |t: (usize, usize, u64)| t.0 != t.1,
                    ).map_values(|t: (usize, usize, u64)| (t.1, t.0, t.2)),
                decreases data@.len() - k,
            {
                let ghost pre = work@;
                let trip = data[k];
                if trip.0 != trip.1 {
                    work.push((trip.1, trip.0, trip.2));
                }
                proof {
                    let f = |t: (usize, usize, u64)| t.0 != t.1;
                    let g = |t: (usize, usize, u64)| (t.1, t.0, t.2);
                    assert(data@.take(k as int + 1) =~= data@.take(k as int).push(data@[k as int]));
                    assert(data@.take(k as int + 1).filter(f) =~= if f(data@[k as int]) {
                        data@.take(k as int).filter(f).push(data@[k as int])
                    } else {
                        data@.take(k as int).filter(f)
                    }) by {
                        reveal_with_fuel(Seq::filter, 2);
                        assert(data@.take(k as int).push(data@[k as int]).drop_last() =~= data@
                            .take(k as int));
                    }
                    assert(work@ =~= data@ + data@.take(k as int + 1).filter(f).map_values(g));
                }
                k += 1;
            }
            proof {
                assert(data@.take(data@.len() as int) =~= data@);
            }
        }
        let ghost workview = work@;
        let mut tagged: Vec<(usize, usize, usize, u64)> = Vec::new();
        let mut k: usize = 0;
        while k < work.len()
            invariant
                k <= work@.len(),
                workview == work@,
                forall|t: int|
                    0 <= t < work@.len() ==> (#[trigger] work@[t]).0 >= 1 && work@[t].1 >= 1,
                tagged@.len() == k,
                forall|t: int| 0 <= t < k ==> #[trigger] tagged@[t] == tag_seq(workview)[t],
            decreases work@.len() - k,
        {
            let trip = work[k];
            tagged.push((trip.0, trip.1, k, trip.2));
            k += 1;
        }
        proof {
            assert(tagged@ =~= tag_seq(workview));
        }
        let sorted = sort_triples(tagged);
        proof {
            broadcast use group_to_multiset_ensures;

            assert forall|t: int| 0 <= t < sorted@.len() implies (#[trigger] sorted@[t]).0 >= 1
                && sorted@[t].1 >= 1 by {
                vstd::seq_lib::to_multiset_contains(sorted@, sorted@[t]);
                vstd::seq_lib::to_multiset_contains(tag_seq(workview), sorted@[t]);
                assert(sorted@.contains(sorted@[t]));
                assert(tag_seq(workview).contains(sorted@[t]));
                let u = choose|u: int|
                    0 <= u < tag_seq(workview).len() && tag_seq(workview)[u] == sorted@[t];
                assert(workview[u].0 >= 1 && workview[u].1 >= 1);
            }
        }
        let mut AA: Vec<u64> = Vec::new();
        let mut JA: Vec<usize> = Vec::new();
        let mut IA: Vec<usize> = Vec::new();
        let mut k: usize = 0;
        while k < sorted.len()
            invariant
                sorted@.len() >= 1,
                forall|t1: int, t2: int|
                    0 <= t1 < t2 < sorted@.len() ==> tagged_le(sorted@[t1], sorted@[t2]),
                forall|t: int|
                    0 <= t < sorted@.len() ==> (#[trigger] sorted@[t]).0 >= 1 && sorted@[t].1 >= 1,
                k <= sorted@.len(),
                AA@.len() == k,
                JA@.len() == k,
                forall|t: int| 0 <= t < k ==> #[trigger] AA@[t] == sorted@[t].3,
                forall|t: int| 0 <= t < k ==> #[trigger] JA@[t] == sorted@[t].1 - 1,
                IA@.len() == (if k == 0 {
                    0int
                } else {
                    sorted@[k - 1].0 as int
                }),
                forall|a: int| 0 <= a < IA@.len() ==> #[trigger] IA@[a] <= k,
                forall|a: int, b: int|
                    0 <= a <= b < IA@.len() ==> #[trigger] IA@[a] <= #[trigger] IA@[b],
                IA@.len() >= 1 ==> IA@[0] == 0,
                forall|i: int, t: int|
                    #![trigger IA@[i], sorted@[t]]
                    0 <= i < IA@.len() && 0 <= t < k ==> ((t < IA@[i]) <==> (sorted@[t].0 <= i)),
            decreases sorted@.len() - k,
        {
            let trip = sorted[k];
            proof {
                if k > 0 {
                    assert(tagged_le(sorted@[k as int - 1], sorted@[k as int]));
                }
            }
            while IA.len() < trip.0
                invariant
                    sorted@.len() >= 1,
                    k < sorted@.len(),
                    trip == sorted@[k as int],
                    trip.0 >= 1,
                    forall|t: int|
                        0 <= t < sorted@.len() ==> (#[trigger] sorted@[t]).0 >= 1 && sorted@[t].1
                            >= 1,
                    AA@.len() == k,
                    JA@.len() == k,
                    IA@.len() <= trip.0,
                    k > 0 ==> IA@.len() >= sorted@[k as int - 1].0,
                    forall|t1: int, t2: int|
                        0 <= t1 < t2 < sorted@.len() ==> tagged_le(sorted@[t1], sorted@[t2]),
                    forall|a: int| 0 <= a < IA@.len() ==> #[trigger] IA@[a] <= k,
                    forall|a: int, b: int|
                        0 <= a <= b < IA@.len() ==> #[trigger] IA@[a] <= #[trigger] IA@[b],
                    IA@.len() >= 1 ==> IA@[0] == 0,
                    forall|i: int, t: int|
                        #![trigger IA@[i], sorted@[t]]
                        0 <= i < IA@.len() && 0 <= t < k ==> ((t < IA@[i]) <==> (sorted@[t].0
                            <= i)),
                decreases trip.0 - IA@.len(),
            {
                proof {
                    assert forall|t: int| 0 <= t < k implies (#[trigger] sorted@[t]).0
                        <= IA@.len() by {
                        assert(tagged_le(sorted@[t], sorted@[k as int]));
                        if k > 0 {
                            assert(tagged_le(sorted@[t], sorted@[k as int - 1]) || t == k - 1);
                        }
                    }
                }
                IA.push(AA.len());
            }
            AA.push(trip.3);
            JA.push(trip.1 - 1);
            k += 1;
        }
        let ghost ia_before = IA@;
        IA.push(AA.len());
        proof {
            assert forall|i: int, t: int|
                #![trigger IA@[i], sorted@[t]]
                0 <= i < IA@.len() && 0 <= t < sorted@.len() implies ((t < IA@[i]) <==> (
            sorted@[t].0 <= i)) by {
                if i < ia_before.len() {
                    assert(IA@[i] == ia_before[i]);
                    assert((t < ia_before[i]) <==> (sorted@[t].0 <= i));
                } else {
                    assert(IA@[i] == sorted@.len());
                    assert(i == ia_before.len());
                    assert(ia_before.len() == sorted@[sorted@.len() - 1].0);
                    if t < sorted@.len() - 1 {
                        assert(tagged_le(sorted@[t], sorted@[sorted@.len() - 1]));
                    }
                }
            }
        }
        let r = Matrix::from(AA, JA, IA);
        proof {
            let t = sorted@;
            assert(t.to_multiset() == tag_seq(mirror_seq(data@, symmetric)).to_multiset());
            assert(is_csr_of(r, t)) by {
                assert forall|i: int, k2: int|
                    #![trigger r.IA@[i], t[k2]]
                    0 <= i < r.m && 0 <= k2 < t.len() implies ((r.IA@[i] <= k2 < r.IA@[i + 1])
                    <==> t[k2].0 == i + 1) by {
                    assert((k2 < r.IA@[i]) <==> (t[k2].0 <= i));
                    assert((k2 < r.IA@[i + 1]) <==> (t[k2].0 <= i + 1));
                }
            }
        }
        r
    }

    /// Every entry of `s` is placed somewhere in `p[0..next]`.
    pub open spec fn all_placed(p: Seq<usize>, next: int, s: Seq<usize>) -> bool {
        forall|ls: int|
            #![trigger s[ls]]
            0 <= ls < s.len() ==> exists|t2: int| 0 <= t2 < next && #[trigger] p[t2] == s[ls]
    }

    /// Vertices `a` and `b` are adjacent: `b` occurs among the stored
    /// columns of `a`'s row.
    pub open spec fn adjacent(&self, a: int, b: int) -> bool {
        row_contains(self.JA@, self.IA@[a] as int, self.IA@[a + 1] as int, b)
    }

    /// Position `t` of the order holds a neighbour of some earlier position.
    pub open spec fn discovered_from_earlier(&self, p: Seq<usize>, t: int) -> bool {
        exists|t2: int| 0 <= t2 < t && #[trigger] self.adjacent(p[t2] as int, p[t] as int)
    }

    /// Every placed vertex after the first neighbours one placed earlier:
    /// the order is a breadth-first discovery order from the root.
    pub open spec fn discovery_order(&self, p: Seq<usize>, hi: int) -> bool {
        forall|t: int| 1 <= t < hi ==> #[trigger] self.discovered_from_earlier(p, t)
    }

    /// Placing a neighbour `nb` of an already-placed vertex `j` at the end
    /// of a discovery order keeps it a discovery order.
    proof fn lemma_discovery_extend(&self, p0: Seq<usize>, p1: Seq<usize>, nn: int, j: usize, nb: usize)
        requires
            self.discovery_order(p0, nn),
            1 <= nn < p0.len(),
            p1 == p0.update(nn, nb),
            exists|t2: int| 0 <= t2 < nn && #[trigger] p0[t2] == j,
            self.adjacent(j as int, nb as int),
        ensures
            self.discovery_order(p1, nn + 1),
    {
        assert forall|t: int| 1 <= t < nn + 1 implies #[trigger] self.discovered_from_earlier(
            p1,
            t,
        ) by {
            if t < nn {
                assert(self.discovered_from_earlier(p0, t));
                let t2 = choose|t2: int|
                    0 <= t2 < t && #[trigger] self.adjacent(p0[t2] as int, p0[t] as int);
                assert(p1[t2] == p0[t2]);
                assert(p1[t] == p0[t]);
                assert(self.adjacent(p1[t2] as int, p1[t] as int));
            } else {
                let t2 = choose|t2: int| 0 <= t2 < nn && #[trigger] p0[t2] == j;
                assert(p1[t2] == j);
                assert(p1[nn] == nb);
                assert(self.adjacent(p1[t2] as int, p1[nn] as int));
            }
        }
    }

    /// `root` is the vertex the walk starts from: globally minimum degree,
    /// ties broken by the lowest index.
    pub open spec fn is_min_degree_root(&self, root: int) -> bool {
        &&& 0 <= root < self.m
        &&& forall|i: int|
            0 <= i < self.m ==> (self.spec_degree(root) < #[trigger] self.spec_degree(i) || (
            self.spec_degree(root) == self.spec_degree(i) && root <= i))
    }

    /// The running state of the reordering walk: `next` nodes are placed, in
    /// the filled prefix of `iperm`, each exactly once, and the marks agree
    /// with placement.
    pub open spec fn rcm_inv(m: int, marker: Seq<bool>, iperm: Seq<usize>, next: int) -> bool {
        &&& marker.len() == m
        &&& iperm.len() == m
        &&& 0 <= next <= m
        &&& count_true(marker) == next
        &&& forall|t: int| 0 <= t < next ==> #[trigger] iperm[t] < m
        &&& forall|t: int| 0 <= t < next ==> marker[#[trigger] iperm[t] as int]
        &&& forall|t: int| next <= t < m ==> #[trigger] iperm[t] == usize::MAX
        &&& forall|t1: int, t2: int|
            0 <= t1 < t2 < next ==> #[trigger] iperm[t1] != #[trigger] iperm[t2]
        &&& forall|c: int|
            0 <= c < m && marker[c] ==> exists|t: int|
                0 <= t < next && #[trigger] iperm[t] == c as usize
    }

    /// Reverse Cuthill-McKee ordering of a square matrix: a breadth-first
    /// walk from a minimum-degree root, levels visited by ascending
    /// `(degree, index)`, reversed at the end.  The result maps new position
    /// to original index; positions the walk never reached (a disconnected
    /// graph, or the safety cap) keep the sentinel `usize::MAX`.  Entries
    /// other than the sentinel never repeat, and when every position was
    /// reached the result is a permutation.
    #[verifier::rlimit(100)]
    #[verifier::spinoff_prover]
    pub fn RCM(&self) -> (r: Vec<usize>)
        requires
            self.wf(),
            self.n == self.m,
            self.m >= 1,
        ensures
            r@.len() == self.m,
            forall|k: int| 0 <= k < r@.len() ==> #[trigger] r@[k] == usize::MAX || r@[k] < self.m,
            forall|k1: int, k2: int|
                0 <= k1 < k2 < r@.len() && #[trigger] r@[k1] != usize::MAX && #[trigger] r@[k2]
                    != usize::MAX ==> r@[k1] != r@[k2],
            (forall|k: int| 0 <= k < r@.len() ==> #[trigger] r@[k] != usize::MAX)
                ==> is_permutation(r@, self.m as int),
            self.is_min_degree_root(r@[r@.len() - 1] as int),
            (forall|k: int| 0 <= k < r@.len() ==> #[trigger] r@[k] != usize::MAX)
                ==> self.discovery_order(r@.reverse(), self.m as int),
    {
        let m = self.m;
        let mut degs: Vec<usize> = Vec::new();
        let mut i: usize = 0;
        while i < m
            invariant
                self.wf(),
                self.n == self.m,
                m == self.m,
                i <= m,
                degs@.len() == i,
                forall|t: int| 0 <= t < i ==> #[trigger] degs@[t] == self.spec_degree(t),
            decreases m - i,
        {
            degs.push(self.degree(i));
            i += 1;
        }
        let mut root: usize = 0;
        let mut i: usize = 1;
        while i < m
            invariant
                m >= 1,
                root < i <= m,
                degs@.len() == m,
                forall|t: int|
                    0 <= t < i ==> (degs@[root as int] < #[trigger] degs@[t] || (degs@[root as int]
                        == degs@[t] && root <= t)),
            decreases m - i,
        {
            if degs[i] < degs[root] {
                root = i;
            }
            i += 1;
        }
        let mut marker: Vec<bool> = Vec::new();
        let mut iperm: Vec<usize> = Vec::new();
        let mut i: usize = 0;
        while i < m
            invariant
                i <= m,
                marker@.len() == i,
                iperm@.len() == i,
                count_true(marker@) == 0,
                forall|t: int| 0 <= t < i ==> !marker@[t],
                forall|t: int| 0 <= t < i ==> #[trigger] iperm@[t] == usize::MAX,
            decreases m - i,
        {
            proof {
                assert(marker@.push(false).drop_last() =~= marker@);
            }
            marker.push(false);
            iperm.push(usize::MAX);
            i += 1;
        }
        let ghost marker0 = marker@;
        marker[root] = true;
        iperm[0] = root;
        proof {
            lemma_count_true_update(marker0, root as int);
            assert(Self::rcm_inv(m as int, marker@, iperm@, 1)) by {
                assert forall|c: int| 0 <= c < m && marker@[c] implies exists|t: int|
                    0 <= t < 1 && #[trigger] iperm@[t] == c as usize by {
                    assert(c == root as int);
                    assert(iperm@[0] == c as usize);
                }
            }
        }
        let mut levset: Vec<usize> = Vec::new();
        levset.push(root);
        proof {
            assert forall|ls: int|
                #![trigger levset@[ls]]
                0 <= ls < levset@.len() implies exists|t2: int|
                0 <= t2 < 1 && #[trigger] iperm@[t2] == levset@[ls] by {
                assert(iperm@[0] == levset@[ls]);
            }
        }
        let mut next: usize = 1;
        let mut iter: usize = 0;
        while next < m && iter < m
            invariant
                self.wf(),
                self.n == self.m,
                m == self.m,
                m >= 1,
                degs@.len() == m,
                iter <= m,
                Self::rcm_inv(m as int, marker@, iperm@, next as int),
                1 <= next,
                iperm@[0] == root,
                self.discovery_order(iperm@, next as int),
                Self::all_placed(iperm@, next as int, levset@),
                forall|t: int| 0 <= t < levset@.len() ==> #[trigger] levset@[t] < m,
            decreases m - iter,
        {
            let mut next_levset: Vec<usize> = Vec::new();
            let ghost lv = levset@;
            let nodes = sort_nodes_by_degree(levset, &degs);
            proof {
                assert forall|nd: int|
                    #![trigger nodes@[nd]]
                    0 <= nd < nodes@.len() implies exists|t2: int|
                    0 <= t2 < next && #[trigger] iperm@[t2] == nodes@[nd] by {
                    vstd::seq_lib::to_multiset_contains(nodes@, nodes@[nd]);
                    vstd::seq_lib::to_multiset_contains(lv, nodes@[nd]);
                    assert(nodes@.contains(nodes@[nd]));
                    assert(lv.contains(nodes@[nd]));
                    let ls = choose|ls: int| 0 <= ls < lv.len() && lv[ls] == nodes@[nd];
                    assert(lv[ls] == nodes@[nd]);
                }
            }
            let mut jn: usize = 0;
            while jn < nodes.len()
                invariant
                    self.wf(),
                    self.n == self.m,
                    m == self.m,
                    degs@.len() == m,
                    jn <= nodes@.len(),
                    forall|t: int| 0 <= t < nodes@.len() ==> #[trigger] nodes@[t] < m,
                    Self::rcm_inv(m as int, marker@, iperm@, next as int),
                    1 <= next,
                    iperm@[0] == root,
                    self.discovery_order(iperm@, next as int),
                    Self::all_placed(iperm@, next as int, nodes@),
                    Self::all_placed(iperm@, next as int, next_levset@),
                    forall|t: int| 0 <= t < next_levset@.len() ==> #[trigger] next_levset@[t] < m,
                decreases nodes@.len() - jn,
            {
                let j = nodes[jn];
                let neigh = self.neighbor(j);
                proof {
                    assert forall|t: int| 0 <= t < neigh@.len() implies #[trigger] neigh@[t]
                        < degs@.len() by {
                        assert(neigh@[t] == self.JA@[self.IA@[j as int] + t]);
                    }
                }
                let ghost nv = neigh@;
                let sneigh = sort_nodes_by_degree(neigh, &degs);
                proof {
                    assert(nodes@[jn as int] == j);
                    assert(exists|t2: int| 0 <= t2 < next && #[trigger] iperm@[t2] == j);
                    assert forall|t: int|
                        #![trigger sneigh@[t]]
                        0 <= t < sneigh@.len() implies self.adjacent(
                        j as int,
                        sneigh@[t] as int,
                    ) by {
                        vstd::seq_lib::to_multiset_contains(sneigh@, sneigh@[t]);
                        vstd::seq_lib::to_multiset_contains(nv, sneigh@[t]);
                        assert(sneigh@.contains(sneigh@[t]));
                        assert(nv.contains(sneigh@[t]));
                        let ix = choose|ix: int| 0 <= ix < nv.len() && nv[ix] == sneigh@[t];
                        assert(nv[ix] == self.JA@[self.IA@[j as int] + ix]);
                    }
                }
                let mut tn: usize = 0;
                while tn < sneigh.len()
                    invariant
                        m == self.m,
                        m >= 1,
                        tn <= sneigh@.len(),
                        forall|t: int| 0 <= t < sneigh@.len() ==> #[trigger] sneigh@[t] < m,
                        Self::rcm_inv(m as int, marker@, iperm@, next as int),
                        1 <= next,
                        iperm@[0] == root,
                        j < m,
                        self.discovery_order(iperm@, next as int),
                        Self::all_placed(iperm@, next as int, nodes@),
                        Self::all_placed(iperm@, next as int, next_levset@),
                        exists|t2: int| 0 <= t2 < next && #[trigger] iperm@[t2] == j,
                        forall|t: int|
                            #![trigger sneigh@[t]]
                            0 <= t < sneigh@.len() ==> self.adjacent(j as int, sneigh@[t] as int),
                        forall|t: int|
                            0 <= t < next_levset@.len() ==> #[trigger] next_levset@[t] < m,
                    decreases sneigh@.len() - tn,
                {
                    let nb = sneigh[tn];
                    if !marker[nb] {
                        proof {
                            if next == m {
                                lemma_count_true_full(marker@);
                            }
                        }
                        let ghost marker_before = marker@;
                        let ghost iperm_before = iperm@;
                        marker[nb] = true;
                        iperm[next] = nb;
                        next_levset.push(nb);
                        proof {
                            lemma_count_true_update(marker_before, nb as int);
                            let nn = next as int;
                            // the new vertex was found among j's stored columns
                            assert(self.adjacent(j as int, nb as int)) by {
                                assert(sneigh@[tn as int] == nb);
                            }
                            assert(exists|t2: int|
                                0 <= t2 < nn + 1 && #[trigger] iperm@[t2] == j) by {
                                let t2 = choose|t2: int|
                                    0 <= t2 < nn && #[trigger] iperm_before[t2] == j;
                                assert(iperm@[t2] == j);
                            }
                            self.lemma_discovery_extend(iperm_before, iperm@, nn, j, nb);
                            assert(self.discovery_order(iperm@, nn + 1));
                            assert forall|nd: int|
                                #![trigger nodes@[nd]]
                                0 <= nd < nodes@.len() implies exists|t2: int|
                                0 <= t2 < nn + 1 && #[trigger] iperm@[t2] == nodes@[nd] by {
                                let t2 = choose|t2: int|
                                    0 <= t2 < nn && #[trigger] iperm_before[t2] == nodes@[nd];
                                assert(iperm@[t2] == nodes@[nd]);
                            }
                            assert forall|ls: int|
                                #![trigger next_levset@[ls]]
                                0 <= ls < next_levset@.len() implies exists|t2: int|
                                0 <= t2 < nn + 1 && #[trigger] iperm@[t2] == next_levset@[ls] by {
                                if ls < next_levset@.len() - 1 {
                                    let t2 = choose|t2: int|
                                        0 <= t2 < nn && #[trigger] iperm_before[t2]
                                            == next_levset@[ls];
                                    assert(iperm@[t2] == next_levset@[ls]);
                                } else {
                                    assert(iperm@[nn] == next_levset@[ls]);
                                }
                            }
                            assert forall|t1: int, t2: int| 0 <= t1 < t2 < nn + 1 implies #[trigger] iperm@[t1]
                                != #[trigger] iperm@[t2] by {
                                if t2 == nn {
                                    if iperm@[t1] == nb {
                                        assert(marker_before[iperm_before[t1] as int]);
                                    }
                                }
                            }
                            assert forall|c: int| 0 <= c < m && marker@[c] implies exists|t: int|
                                0 <= t < nn + 1 && #[trigger] iperm@[t] == c as usize by {
                                if c == nb as int {
                                    assert(iperm@[nn] == c as usize);
                                } else {
                                    assert(marker_before[c]);
                                    let t0 = choose|t: int|
                                        0 <= t < nn && #[trigger] iperm_before[t] == c as usize;
                                    assert(iperm@[t0] == c as usize);
                                }
                            }
                            assert(Self::rcm_inv(m as int, marker@, iperm@, nn + 1));
                        }
                        next += 1;
                    }
                    tn += 1;
                }
                jn += 1;
            }
            levset = next_levset;
            iter += 1;
        }
        let mut rev: Vec<usize> = Vec::new();
        let mut k: usize = 0;
        while k < m
            invariant
                m == self.m,
                iperm@.len() == m,
                k <= m,
                rev@.len() == k,
                forall|t: int| 0 <= t < k ==> #[trigger] rev@[t] == iperm@[m - 1 - t],
            decreases m - k,
        {
            rev.push(iperm[m - 1 - k]);
            k += 1;
        }
        proof {
            let mi = m as int;
            let nn = next as int;
            assert(rev@[mi - 1] == iperm@[0]);
            assert(self.is_min_degree_root(rev@[mi - 1] as int)) by {
                assert forall|i0: int|
                    0 <= i0 < self.m implies (self.spec_degree(root as int)
                    < #[trigger] self.spec_degree(i0) || (self.spec_degree(root as int)
                    == self.spec_degree(i0) && root <= i0)) by {
                    assert(degs@[root as int] < degs@[i0] || (degs@[root as int] == degs@[i0]
                        && root <= i0));
                    assert(degs@[i0] == self.spec_degree(i0));
                    assert(degs@[root as int] == self.spec_degree(root as int));
                }
            }
            if forall|t: int| 0 <= t < mi ==> #[trigger] rev@[t] != usize::MAX {
                assert(nn == mi) by {
                    if nn < mi {
                        assert(iperm@[nn] == usize::MAX);
                        assert(rev@[mi - 1 - nn] == usize::MAX);
                    }
                }
                assert(rev@.reverse() =~= iperm@);
                assert(self.discovery_order(rev@.reverse(), mi));
                lemma_count_true_full(marker@);
                assert forall|c: int| 0 <= c < mi implies #[trigger] in_image(rev@, mi, c) by {
                    assert(marker@[c]);
                    let t0 = choose|t: int| 0 <= t < nn && #[trigger] iperm@[t] == c as usize;
                    assert(rev@[mi - 1 - t0] == c as usize);
                }
                assert(is_permutation(rev@, mi));
            }
        }
        rev
    }

    /// Matrix-vector product.  Requires the column count to agree with the
    /// vector length; each output entry is the product of the matching row
    /// with the vector.
    pub fn multiply(&self, rhs: &Vector) -> (r: Result<Vector, MatrixError>)
        requires
            self.wf(),
            rhs.wf(),
        ensures
            match r {
                Ok(v) => {
                    &&& self.n == rhs.m
                    &&& v.wf()
                    &&& v.m == self.m
                    &&& v@.len() == self.m
                    &&& forall|i: int|
                        0 <= i < self.m ==> v@[i] == row_dot(
                            self.AA@,
                            self.JA@,
                            rhs@,
                            self.IA@[i] as int,
                            self.IA@[i + 1] as int,
                        )
                },
                Err(e) => e == MatrixError::DimensionMismatch && self.n != rhs.m,
            },
    {
        if self.n != rhs.num_rows() {
            return Err(MatrixError::DimensionMismatch);
        }
        let mut AA: Vec<u64> = Vec::new();
        let mut i: usize = 0;
        while i < self.m
            invariant
                self.wf(),
                rhs.wf(),
                self.n == rhs.m,
                i <= self.m,
                AA@.len() == i,
                forall|r0: int|
                    0 <= r0 < i ==> AA@[r0] == row_dot(
                        self.AA@,
                        self.JA@,
                        rhs@,
                        self.IA@[r0] as int,
                        self.IA@[r0 + 1] as int,
                    ),
            decreases self.m - i,
        {
            let j1 = self.IA[i];
            let j2 = self.IA[i + 1];
            let mut acc: u64 = scalar::ZERO_BITS;
            let mut k: usize = j1;
            while k < j2
                invariant
                    self.wf(),
                    rhs.wf(),
                    self.n == rhs.m,
                    i < self.m,
                    j1 == self.IA@[i as int],
                    j2 == self.IA@[i as int + 1],
                    j2 <= self.AA@.len(),
                    j1 <= k <= j2,
                    acc == row_dot(self.AA@, self.JA@, rhs@, j1 as int, k as int),
                decreases j2 - k,
            {
                acc = scalar::fadd(acc, scalar::fmul(self.AA[k], rhs.AA[self.JA[k]]));
                k += 1;
            }
            AA.push(acc);
            i += 1;
        }
        Ok(Vector { m: self.m, AA })
    }
}

} // verus!
