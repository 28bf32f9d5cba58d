//! Dense vector of binary64 scalars (carried as bit patterns), with
//! elementwise arithmetic, dot product, Euclidean norm and permutation.

use vstd::prelude::*;

use crate::perm::is_permutation;
use crate::scalar;
use crate::scalar::{f64_add, f64_sub, f64_mul, f64_div, f64_neg, f64_sqrt};

verus! {

/// Dense vector: `m` scalars, stored as binary64 bit patterns.
#[derive(Debug, Clone)]
pub struct Vector {
    pub m: usize,
    pub AA: Vec<u64>,
}

/// Dot product of the first `n` entries of `a` and `b`, accumulated left to
/// right from +0.0, as the executable reduction computes it.
pub open spec fn dot_prefix(a: Seq<u64>, b: Seq<u64>, n: int) -> u64
    decreases n,
{
    if n <= 0 {
        scalar::ZERO_BITS
    } else {
        f64_add(dot_prefix(a, b, n - 1), f64_mul(a[n - 1], b[n - 1]))
    }
}

/// Dot product of two equal-length scalar sequences.
pub open spec fn spec_dot(a: Seq<u64>, b: Seq<u64>) -> u64 {
    dot_prefix(a, b, a.len() as int)
}

/// Euclidean norm: square root of the accumulated sum of squares.
pub open spec fn spec_l2_norm(a: Seq<u64>) -> u64 {
    f64_sqrt(spec_dot(a, a))
}

/// `s` rearranged by `p`: entry `k` of the result is entry `p[k]` of `s`.
pub open spec fn permute_seq(s: Seq<u64>, p: Seq<usize>) -> Seq<u64> {
    Seq::new(p.len(), |k: int| s[p[k] as int])
}

impl View for Vector {
    type V = Seq<u64>;

    open spec fn view(&self) -> Seq<u64> {
        self.AA@
    }
}

impl Vector {
    /// The recorded length agrees with the storage.
    pub open spec fn wf(&self) -> bool {
        self.m == self.AA@.len()
    }

    /// The empty vector.
    pub fn new() -> (v: Vector)
        ensures
            v.wf(),
            v@ =~= Seq::<u64>::empty(),
            v.m == 0,
    {
        Vector { m: 0, AA: Vec::new() }
    }

    /// A vector owning the given scalars.
    pub fn from(AA: Vec<u64>) -> (v: Vector)
        ensures
            v.wf(),
            v@ == AA@,
            v.m == AA@.len(),
    {
        let m = AA.len();
        Vector { m, AA }
    }

    /// A vector of `m` zeros.
    pub fn zeros(m: usize) -> (v: Vector)
        ensures
            v.wf(),
            v.m == m,
            v@.len() == m,
            forall|i: int| 0 <= i < m ==> v@[i] == scalar::ZERO_BITS,
    {
        let mut AA: Vec<u64> = Vec::new();
        let mut i: usize = 0;
        while i < m
            invariant
                i <= m,
                AA@.len() == i,
                forall|k: int| 0 <= k < i ==> AA@[k] == scalar::ZERO_BITS,
            decreases m - i,
        {
            AA.push(scalar::ZERO_BITS);
            i += 1;
        }
        Vector { m, AA }
    }

    pub fn num_rows(&self) -> (r: usize)
        ensures
            r == self.m,
    {
        self.m
    }

    pub fn AA(&self) -> (r: &Vec<u64>)
        ensures
            r@ == self@,
    {
        &self.AA
    }

    /// Euclidean norm of the vector.
    pub fn l2_norm(&self) -> (r: u64)
        requires
            self.wf(),
        ensures
            r == spec_l2_norm(self@),
    {
        let s = self.dot(self);
        scalar::fsqrt(s)
    }

    /// The vector rearranged by `perm`: entry `k` of the result is entry
    /// `perm[k]` of the input.
    pub fn permutate(&self, perm: &Vec<usize>) -> (r: Vector)
        requires
            self.wf(),
            forall|k: int| 0 <= k < perm@.len() ==> perm@[k] < self.m,
        ensures
            r.wf(),
            r.m == perm@.len(),
            r@ =~= permute_seq(self@, perm@),
    {
        let mut AA: Vec<u64> = Vec::new();
        let mut k: usize = 0;
        while k < perm.len()
            invariant
                self.wf(),
                k <= perm@.len(),
                forall|j: int| 0 <= j < perm@.len() ==> perm@[j] < self.m,
                AA@.len() == k,
                forall|j: int| 0 <= j < k ==> AA@[j] == self@[perm@[j] as int],
            decreases perm@.len() - k,
        {
            AA.push(self.AA[perm[k]]);
            k += 1;
        }
        let m = AA.len();
        Vector { m, AA }
    }

    /// Elementwise sum.
    pub fn add(&self, rhs: &Vector) -> (r: Vector)
        requires
            self.wf(),
            rhs.wf(),
            self.m == rhs.m,
        ensures
            r.wf(),
            r.m == self.m,
            r@.len() == self@.len(),
            forall|i: int| 0 <= i < self@.len() ==> r@[i] == f64_add(self@[i], rhs@[i]),
    {
        let mut AA: Vec<u64> = Vec::new();
        let mut i: usize = 0;
        while i < self.m
            invariant
                self.wf(),
                rhs.wf(),
                self.m == rhs.m,
                i <= self.m,
                AA@.len() == i,
                forall|k: int| 0 <= k < i ==> AA@[k] == f64_add(self@[k], rhs@[k]),
            decreases self.m - i,
        {
            AA.push(scalar::fadd(self.AA[i], rhs.AA[i]));
            i += 1;
        }
        Vector { m: self.m, AA }
    }

    /// Elementwise difference.
    pub fn sub(&self, rhs: &Vector) -> (r: Vector)
        requires
            self.wf(),
            rhs.wf(),
            self.m == rhs.m,
        ensures
            r.wf(),
            r.m == self.m,
            r@.len() == self@.len(),
            forall|i: int| 0 <= i < self@.len() ==> r@[i] == f64_sub(self@[i], rhs@[i]),
    {
        let mut AA: Vec<u64> = Vec::new();
        let mut i: usize = 0;
        while i < self.m
            invariant
                self.wf(),
                rhs.wf(),
                self.m == rhs.m,
                i <= self.m,
                AA@.len() == i,
                forall|k: int| 0 <= k < i ==> AA@[k] == f64_sub(self@[k], rhs@[k]),
            decreases self.m - i,
        {
            AA.push(scalar::fsub(self.AA[i], rhs.AA[i]));
            i += 1;
        }
        Vector { m: self.m, AA }
    }

    /// In-place elementwise sum.
    pub fn add_assign(&mut self, rhs: &Vector)
        requires
            old(self).wf(),
            rhs.wf(),
            old(self).m == rhs.m,
        ensures
            final(self).wf(),
            final(self).m == old(self).m,
            final(self)@.len() == old(self)@.len(),
            forall|i: int|
                0 <= i < old(self)@.len() ==> final(self)@[i] == f64_add(
                    old(self)@[i],
                    rhs@[i],
                ),
    {
        let r = self.add(rhs);
        *self = r;
    }

    /// In-place elementwise difference.
    pub fn sub_assign(&mut self, rhs: &Vector)
        requires
            old(self).wf(),
            rhs.wf(),
            old(self).m == rhs.m,
        ensures
            final(self).wf(),
            final(self).m == old(self).m,
            final(self)@.len() == old(self)@.len(),
            forall|i: int|
                0 <= i < old(self)@.len() ==> final(self)@[i] == f64_sub(
                    old(self)@[i],
                    rhs@[i],
                ),
    {
        let r = self.sub(rhs);
        *self = r;
    }

    /// Dot product, accumulated left to right.
    pub fn dot(&self, rhs: &Vector) -> (r: u64)
        requires
            self.wf(),
            rhs.wf(),
            self.m == rhs.m,
        ensures
            r == spec_dot(self@, rhs@),
    {
        let mut sum: u64 = scalar::ZERO_BITS;
        let mut i: usize = 0;
        while i < self.m
            invariant
                self.wf(),
                rhs.wf(),
                self.m == rhs.m,
                i <= self.m,
                sum == dot_prefix(self@, rhs@, i as int),
            decreases self.m - i,
        {
            sum = scalar::fadd(sum, scalar::fmul(self.AA[i], rhs.AA[i]));
            i += 1;
        }
        sum
    }

    /// The vector scaled by `k`: entry `i` of the result is `k * self[i]`.
    pub fn scale(&self, k: u64) -> (r: Vector)
        requires
            self.wf(),
        ensures
            r.wf(),
            r.m == self.m,
            r@.len() == self@.len(),
            forall|i: int| 0 <= i < self@.len() ==> r@[i] == f64_mul(k, self@[i]),
    {
        let mut AA: Vec<u64> = Vec::new();
        let mut i: usize = 0;
        while i < self.m
            invariant
                self.wf(),
                i <= self.m,
                AA@.len() == i,
                forall|j: int| 0 <= j < i ==> AA@[j] == f64_mul(k, self@[j]),
            decreases self.m - i,
        {
            AA.push(scalar::fmul(k, self.AA[i]));
            i += 1;
        }
        Vector { m: self.m, AA }
    }

    /// The vector divided elementwise by `k`.
    pub fn div_scalar(&self, k: u64) -> (r: Vector)
        requires
            self.wf(),
        ensures
            r.wf(),
            r.m == self.m,
            r@.len() == self@.len(),
            forall|i: int| 0 <= i < self@.len() ==> r@[i] == f64_div(self@[i], k),
    {
        let mut AA: Vec<u64> = Vec::new();
        let mut i: usize = 0;
        while i < self.m
            invariant
                self.wf(),
                i <= self.m,
                AA@.len() == i,
                forall|j: int| 0 <= j < i ==> AA@[j] == f64_div(self@[j], k),
            decreases self.m - i,
        {
            AA.push(scalar::fdiv(self.AA[i], k));
            i += 1;
        }
        Vector { m: self.m, AA }
    }

    /// The elementwise negation.
    pub fn neg(&self) -> (r: Vector)
        requires
            self.wf(),
        ensures
            r.wf(),
            r.m == self.m,
            r@.len() == self@.len(),
            forall|i: int| 0 <= i < self@.len() ==> r@[i] == f64_neg(self@[i]),
    {
        let mut AA: Vec<u64> = Vec::new();
        let mut i: usize = 0;
        while i < self.m
            invariant
                self.wf(),
                i <= self.m,
                AA@.len() == i,
                forall|j: int| 0 <= j < i ==> AA@[j] == f64_neg(self@[j]),
            decreases self.m - i,
        {
            AA.push(scalar::fneg(self.AA[i]));
            i += 1;
        }
        Vector { m: self.m, AA }
    }
}

/// Permuting by `p` and then by the inverse of `p` restores every entry:
/// the two rearrangements compose to the identity.
pub proof fn lemma_permute_inverse(s: Seq<u64>, p: Seq<usize>, q: Seq<usize>)
    requires
        is_permutation(p, s.len() as int),
        is_permutation(q, s.len() as int),
        forall|k: int| 0 <= k < s.len() ==> q[p[k] as int] == k,
    ensures
        permute_seq(permute_seq(s, p), q) =~= s,
{
    let sp = permute_seq(s, p);
    let spq = permute_seq(sp, q);
    assert forall|k: int| 0 <= k < s.len() implies spq[k] == s[k] by {
        // q[k] picks the position whose p-image is k
        let j = q[k] as int;
        assert(spq[k] == sp[j]);
        assert(sp[j] == s[p[j] as int]);
        lemma_inverse_flip(p, q, s.len() as int, k);
    }
}

/// If `q` inverts `p` from the left on a full permutation, it also inverts it
/// from the right: `p[q[k]] == k`.
proof fn lemma_inverse_flip(p: Seq<usize>, q: Seq<usize>, m: int, k: int)
    requires
        is_permutation(p, m),
        is_permutation(q, m),
        forall|j: int| 0 <= j < m ==> q[p[j] as int] == j,
        0 <= k < m,
    ensures
        p[q[k] as int] == k,
{
    // k and p[q[k]] have the same image under q; a permutation repeats no value
    let j = q[k] as int;
    if p[j] != k {
        let k2 = p[j] as int;
        assert(q[k2] == j);
        assert(q[k as int] == j);
        if k < k2 {
            assert(q[k as int] != q[k2]);
        } else {
            assert(q[k2] != q[k as int]);
        }
    }
}

} // verus!
