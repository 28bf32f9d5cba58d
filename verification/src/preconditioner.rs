//! Preconditioner factory: Gauss-Seidel, symmetric Gauss-Seidel and
//! no-fill incomplete LU factorizations of a CSR matrix, the associated
//! forward/backward triangular solve, and the Jacobi diagonal solve.  A
//! factored matrix reuses or reduces the sparsity pattern of its source and
//! records, per row, where its diagonal entry lives (`UPTR`).

use vstd::prelude::*;

use crate::matrix::{copy_vec, row_contains, row_pairs, Matrix, MatrixError};
use crate::scalar;
use crate::scalar::{f64_div, f64_mul, f64_sub};
use crate::vector::Vector;

verus! {

/// The variants of the preconditioner selector.  `GS`, `SGS` and `ILU` map
/// to factorizations; `NoPrecon` asks for none; `Jacobi`, `SOR` and `SSOR`
/// have no factorization here and are refused.
#[derive(Clone, Copy, Debug, PartialEq, Eq, Structural)]
pub enum Preconditioner {
    Jacobi,
    GS,
    SGS,
    SOR,
    SSOR,
    ILU,
    NoPrecon,
}

/// Row `i` holds a diagonal entry.
pub open spec fn has_diag(A: Matrix, i: int) -> bool {
    row_contains(A.JA@, A.IA@[i] as int, A.IA@[i + 1] as int, i)
}

/// The position of row `i`'s diagonal entry (meaningful when one exists and
/// columns in the row are distinct).
pub open spec fn diag_index(A: Matrix, i: int) -> int {
    choose|k: int| A.IA@[i] <= k < A.IA@[i + 1] && #[trigger] A.JA@[k] == i
}

/// Row `i` holds a diagonal entry whose value is not zero.
pub open spec fn good_diag(A: Matrix, i: int) -> bool {
    has_diag(A, i) && !scalar::is_zero(A.AA@[diag_index(A, i)])
}

/// The reciprocal of row `c`'s diagonal value.
pub open spec fn recip_diag(A: Matrix, c: int) -> u64 {
    f64_div(scalar::ONE_BITS, A.AA@[diag_index(A, c)])
}

/// In a row with ascending columns and a diagonal entry, the diagonal
/// position is unique: strictly lower columns precede it, strictly upper
/// ones follow it.
pub proof fn lemma_diag_index(A: Matrix, i: int)
    requires
        A.wf(),
        A.rows_sorted(),
        0 <= i < A.m,
        has_diag(A, i),
    ensures
        A.IA@[i] <= diag_index(A, i) < A.IA@[i + 1],
        A.JA@[diag_index(A, i)] == i,
        forall|k: int|
            A.IA@[i] <= k < diag_index(A, i) ==> #[trigger] A.JA@[k] < i,
        forall|k: int|
            diag_index(A, i) < k < A.IA@[i + 1] ==> #[trigger] A.JA@[k] > i,
{
    let d = diag_index(A, i);
    assert(A.IA@[i] <= d < A.IA@[i + 1] && A.JA@[d] == i);
    assert forall|k: int| A.IA@[i] <= k < d implies #[trigger] A.JA@[k] < i by {
        assert(A.JA@[k] < A.JA@[d]);
    }
    assert forall|k: int| d < k < A.IA@[i + 1] implies #[trigger] A.JA@[k] > i by {
        assert(A.JA@[d] < A.JA@[k]);
    }
}


/// Row `i` of the Gauss-Seidel factor of `A`, as `(column, value)` pairs:
/// the strictly lower entries of `A`'s row, each scaled by the reciprocal
/// diagonal of its column's row, then the reciprocal diagonal itself.
pub open spec fn gs_row_spec(A: Matrix, i: int) -> Seq<(usize, u64)> {
    let d = diag_index(A, i);
    let lo = A.IA@[i] as int;
    Seq::new(
        (d - lo + 1) as nat,
        |t: int|
            if lo + t == d {
                (i as usize, recip_diag(A, i))
            } else {
                (A.JA@[lo + t], f64_mul(A.AA@[lo + t], recip_diag(A, A.JA@[lo + t] as int)))
            },
    )
}

/// Row `i` of `M` holds exactly the Gauss-Seidel factor row of `A`, and the
/// recorded diagonal pointer sits where the source row's diagonal sat.
pub open spec fn gs_row_ok(A: Matrix, M: Matrix, i: int) -> bool {
    &&& row_pairs(M.AA@, M.JA@, M.IA@[i] as int, M.IA@[i + 1] as int) == gs_row_spec(A, i)
    &&& M.UPTR->Some_0@[i] == M.IA@[i] + diag_index(A, i) - A.IA@[i]
}

/// Gauss-Seidel factorization: the factor keeps, per row, the strictly
/// lower entries scaled by the already-finalized reciprocal diagonals, and
/// the reciprocal diagonal itself; upper entries are dropped.  A missing or
/// zero diagonal in some row is the structural error, and the only one.
#[verifier::rlimit(100)]
pub fn GS(A: &Matrix) -> (r: Result<Matrix, MatrixError>)
    requires
        A.wf(),
        A.rows_sorted(),
        A.n == A.m,
    ensures
        match r {
            Ok(M) => {
                &&& forall|i: int| 0 <= i < A.m ==> good_diag(*A, i)
                &&& M.wf()
                &&& M.rows_sorted()
                &&& M.factored_wf()
                &&& M.m == A.m
                &&& M.n == A.n
                &&& forall|i: int| 0 <= i < A.m ==> gs_row_ok(*A, M, i)
            },
            Err(e) => {
                &&& e == MatrixError::DiagonalElement
                &&& exists|i: int| 0 <= i < A.m && !good_diag(*A, i)
            },
        },
{
    let m = A.num_rows();
    let mut AA2: Vec<u64> = Vec::new();
    let mut JA2: Vec<usize> = Vec::new();
    let mut IA2: Vec<usize> = Vec::new();
    let mut UPTR2: Vec<usize> = Vec::new();
    IA2.push(0);
    let mut i: usize = 0;
    while i < m
        invariant
            A.wf(),
            A.rows_sorted(),
            A.n == A.m,
            m == A.m,
            i <= m,
            forall|r0: int| 0 <= r0 < i ==> good_diag(*A, r0),
            IA2@.len() == i + 1,
            IA2@[0] == 0,
            forall|a: int, b: int| 0 <= a <= b <= i ==> #[trigger] IA2@[a] <= #[trigger] IA2@[b],
            IA2@[i as int] == AA2@.len(),
            JA2@.len() == AA2@.len(),
            UPTR2@.len() == i,
            forall|r0: int| 0 <= r0 < i ==> IA2@[r0] <= #[trigger] UPTR2@[r0] < IA2@[r0 + 1],
            forall|r0: int|
                0 <= r0 < i ==> #[trigger] UPTR2@[r0] == IA2@[r0] + diag_index(*A, r0) - A.IA@[r0],
            forall|r0: int|
                0 <= r0 < i ==> #[trigger] AA2@[UPTR2@[r0] as int] == recip_diag(*A, r0),
            forall|k: int| 0 <= k < JA2@.len() ==> #[trigger] JA2@[k] < A.n,
            forall|r0: int|
                0 <= r0 < i ==> #[trigger] row_pairs(AA2@, JA2@, IA2@[r0] as int, IA2@[r0 + 1] as int)
                    == gs_row_spec(*A, r0),
        decreases m - i,
    {
        let j1 = A.IA[i];
        let j2 = A.IA[i + 1];
        let ghost aa_start = AA2@;
        let ghost ja_start = JA2@;
        let mut j = j1;
        while j < j2 && A.JA[j] < i
            invariant
                A.wf(),
                A.rows_sorted(),
                A.n == A.m,
                m == A.m,
                i < m,
                j1 == A.IA@[i as int],
                j2 == A.IA@[i as int + 1],
                j2 <= A.JA@.len(),
                j1 <= j <= j2,
                forall|k: int| j1 <= k < j ==> #[trigger] A.JA@[k] < i,
                UPTR2@.len() == i,
                aa_start.len() == IA2@[i as int],
                IA2@.len() == i + 1,
                forall|r0: int| 0 <= r0 < i ==> IA2@[r0] <= #[trigger] UPTR2@[r0] < IA2@[r0 + 1],
                forall|a: int, b: int|
                    0 <= a <= b <= i ==> #[trigger] IA2@[a] <= #[trigger] IA2@[b],
                forall|r0: int|
                    0 <= r0 < i ==> #[trigger] AA2@[UPTR2@[r0] as int] == recip_diag(*A, r0),
                AA2@.len() == aa_start.len() + j - j1,
                JA2@.len() == AA2@.len(),
                ja_start.len() == aa_start.len(),
                forall|t: int| 0 <= t < aa_start.len() ==> #[trigger] AA2@[t] == aa_start[t],
                forall|t: int| 0 <= t < ja_start.len() ==> #[trigger] JA2@[t] == ja_start[t],
                forall|k: int| 0 <= k < JA2@.len() ==> #[trigger] JA2@[k] < A.n,
                forall|t: int|
                    0 <= t < j - j1 ==> #[trigger] JA2@[aa_start.len() + t] == A.JA@[j1 + t]
                        && AA2@[aa_start.len() + t] == f64_mul(
                        A.AA@[j1 + t],
                        recip_diag(*A, A.JA@[j1 + t] as int),
                    ),
            decreases j2 - j,
        {
            let jrow = A.JA[j];
            proof {
                // jrow < i has a finalized reciprocal diagonal at UPTR2[jrow]
                assert(AA2@[UPTR2@[jrow as int] as int] == recip_diag(*A, jrow as int));
            }
            AA2.push(scalar::fmul(A.AA[j], AA2[UPTR2[jrow]]));
            JA2.push(jrow);
            proof {
                assert forall|t: int| 0 <= t < j + 1 - j1 implies #[trigger] JA2@[aa_start.len()
                    + t] == A.JA@[j1 + t] && AA2@[aa_start.len() + t] == f64_mul(
                    A.AA@[j1 + t],
                    recip_diag(*A, A.JA@[j1 + t] as int),
                ) by {
                    if t < j - j1 {
                        assert(JA2@[aa_start.len() + t] == A.JA@[j1 + t]);
                    }
                }
            }
            j += 1;
        }
        if j == j2 || A.JA[j] != i {
            proof {
                // every entry of the row misses the diagonal
                assert(!has_diag(*A, i as int)) by {
                    if has_diag(*A, i as int) {
                        let k = choose|k: int|
                            A.IA@[i as int] <= k < A.IA@[i as int + 1] && #[trigger] A.JA@[k]
                                == i as int;
                        if k < j {
                            assert(A.JA@[k] < i);
                        } else {
                            if j < j2 && k > j {
                                assert(A.JA@[j as int] < A.JA@[k]);
                            }
                        }
                    }
                }
            }
            proof {
                assert(!good_diag(*A, i as int));
            }
            return Err(MatrixError::DiagonalElement);
        }
        proof {
            assert(has_diag(*A, i as int)) by {
                assert(A.JA@[j as int] == i as int);
            }
            lemma_diag_index(*A, i as int);
            assert(diag_index(*A, i as int) == j as int) by {
                if diag_index(*A, i as int) < j {
                    assert(A.JA@[diag_index(*A, i as int)] < i);
                }
            }
        }
        if scalar::fis_zero(A.AA[j]) {
            proof {
                assert(!good_diag(*A, i as int));
            }
            return Err(MatrixError::DiagonalElement);
        }
        UPTR2.push(AA2.len());
        AA2.push(scalar::fdiv(scalar::ONE_BITS, A.AA[j]));
        JA2.push(i);
        IA2.push(AA2.len());
        proof {
            let li = i as int;
            assert(row_pairs(AA2@, JA2@, IA2@[li] as int, IA2@[li + 1] as int) =~= gs_row_spec(
                *A,
                li,
            ));
            assert forall|r0: int| 0 <= r0 < li implies #[trigger] row_pairs(
                AA2@,
                JA2@,
                IA2@[r0] as int,
                IA2@[r0 + 1] as int,
            ) == gs_row_spec(*A, r0) by {
                assert(row_pairs(AA2@, JA2@, IA2@[r0] as int, IA2@[r0 + 1] as int) =~= row_pairs(
                    aa_start,
                    ja_start,
                    IA2@[r0] as int,
                    IA2@[r0 + 1] as int,
                ));
            }
        }
        i += 1;
    }
    let M = Matrix { m: A.m, n: A.n, AA: AA2, JA: JA2, IA: IA2, UPTR: Some(UPTR2) };
    proof {
        lemma_gs_sorted(*A, M);
        lemma_gs_factored(*A, M);
    }
    Ok(M)
}

/// A matrix whose rows each hold a Gauss-Seidel factor row, with sound
/// offsets and diagonal pointers, is well formed, sorted and factored.
/// The shared shape assumptions of the assembly lemmas below.
pub open spec fn gs_shape_ok(A: Matrix, M: Matrix) -> bool {
    &&& A.wf()
    &&& A.rows_sorted()
    &&& A.n == A.m
    &&& (forall|r0: int| 0 <= r0 < A.m ==> good_diag(A, r0))
    &&& M.m == A.m
    &&& M.n == A.n
    &&& M.IA@.len() == M.m + 1
    &&& M.IA@[0] == 0
    &&& (forall|a: int, b: int| 0 <= a <= b <= M.m ==> #[trigger] M.IA@[a] <= #[trigger] M.IA@[b])
    &&& M.IA@[M.m as int] == M.AA@.len()
    &&& M.JA@.len() == M.AA@.len()
    &&& (forall|k: int| 0 <= k < M.JA@.len() ==> #[trigger] M.JA@[k] < M.n)
    &&& M.UPTR matches Some(u) && u@.len() == M.m
    &&& (forall|r0: int|
        0 <= r0 < M.m ==> M.IA@[r0] <= #[trigger] M.UPTR->Some_0@[r0] < M.IA@[r0 + 1])
    &&& (forall|r0: int|
        0 <= r0 < M.m ==> #[trigger] M.UPTR->Some_0@[r0] == M.IA@[r0] + diag_index(A, r0)
            - A.IA@[r0])
    &&& (forall|r0: int|
        0 <= r0 < M.m ==> #[trigger] row_pairs(M.AA@, M.JA@, M.IA@[r0] as int, M.IA@[r0 + 1] as int)
            == gs_row_spec(A, r0))
}

#[verifier::rlimit(100)]
proof fn lemma_gs_sorted(A: Matrix, M: Matrix)
    requires
        gs_shape_ok(A, M),
    ensures
        M.rows_sorted(),
{
    assert forall|r0: int, k1: int, k2: int|
        #![trigger M.IA@[r0], M.JA@[k1], M.JA@[k2]]
        0 <= r0 < M.m && M.IA@[r0] <= k1 < k2 < M.IA@[r0 + 1] implies M.JA@[k1] < M.JA@[k2] by {
        assert(good_diag(A, r0));
        lemma_diag_index(A, r0);
        let lo = M.IA@[r0] as int;
        let rp = row_pairs(M.AA@, M.JA@, lo, M.IA@[r0 + 1] as int);
        let d = diag_index(A, r0);
        let lo_a = A.IA@[r0] as int;
        assert(rp == gs_row_spec(A, r0));
        assert(rp[k1 - lo] == gs_row_spec(A, r0)[k1 - lo]);
        assert(rp[k2 - lo] == gs_row_spec(A, r0)[k2 - lo]);
        assert(rp[k1 - lo].0 == M.JA@[k1]);
        assert(rp[k2 - lo].0 == M.JA@[k2]);
        if lo_a + (k2 - lo) == d {
            assert(gs_row_spec(A, r0)[k1 - lo].0 == A.JA@[lo_a + (k1 - lo)]);
            assert(A.JA@[lo_a + (k1 - lo)] < r0);
        } else {
            assert(gs_row_spec(A, r0)[k1 - lo].0 == A.JA@[lo_a + (k1 - lo)]);
            assert(gs_row_spec(A, r0)[k2 - lo].0 == A.JA@[lo_a + (k2 - lo)]);
        }
    }
}

#[verifier::rlimit(100)]
proof fn lemma_gs_factored(A: Matrix, M: Matrix)
    requires
        gs_shape_ok(A, M),
    ensures
        M.wf(),
        M.factored_wf(),
        forall|i: int| 0 <= i < A.m ==> gs_row_ok(A, M, i),
{
    assert forall|i: int| 0 <= i < M.m implies #[trigger] M.JA@[M.UPTR->Some_0@[i] as int]
        == i by {
        assert(good_diag(A, i));
        lemma_diag_index(A, i);
        let lo = M.IA@[i] as int;
        let rp = row_pairs(M.AA@, M.JA@, lo, M.IA@[i + 1] as int);
        let d = diag_index(A, i);
        let lo_a = A.IA@[i] as int;
        assert(rp == gs_row_spec(A, i));
        assert(rp.len() == gs_row_spec(A, i).len());
        assert(rp[d - lo_a] == gs_row_spec(A, i)[d - lo_a]);
        assert(gs_row_spec(A, i)[d - lo_a].0 == i);
        assert(rp[d - lo_a].0 == M.JA@[lo + (d - lo_a)]);
    }
    assert forall|i: int| 0 <= i < A.m implies gs_row_ok(A, M, i) by {
        assert(good_diag(A, i));
        lemma_diag_index(A, i);
    }
}

/// The value at entry `k` of row `i` in the symmetric Gauss-Seidel factor:
/// strictly lower entries are scaled by the reciprocal diagonal of their
/// column's row, the diagonal becomes its reciprocal, upper entries are
/// copied unchanged.
pub open spec fn sgs_val(A: Matrix, i: int, k: int) -> u64 {
    let d = diag_index(A, i);
    if k < d {
        f64_mul(A.AA@[k], recip_diag(A, A.JA@[k] as int))
    } else if k == d {
        recip_diag(A, i)
    } else {
        A.AA@[k]
    }
}

/// Row `i` of the symmetric Gauss-Seidel factor, as stored values.
pub open spec fn sgs_row_seq(A: Matrix, i: int) -> Seq<u64> {
    Seq::new(
        if A.IA@[i + 1] >= A.IA@[i] {
            (A.IA@[i + 1] - A.IA@[i]) as nat
        } else {
            0
        },
        |t: int| sgs_val(A, i, A.IA@[i] + t),
    )
}

/// The first `i` rows of the symmetric Gauss-Seidel factor are built:
/// entries so far match the factor rows, and each finished row's diagonal
/// position is recorded.
pub open spec fn sgs_prefix_ok(A: Matrix, aa2: Seq<u64>, uptr2: Seq<usize>, i: int) -> bool {
    &&& aa2.len() == A.IA@[i]
    &&& uptr2.len() == i
    &&& (forall|r0: int| 0 <= r0 < i ==> #[trigger] uptr2[r0] == diag_index(A, r0))
    &&& (forall|r0: int|
        0 <= r0 < i ==> A.IA@[r0] <= #[trigger] uptr2[r0] < A.IA@[r0 + 1] && A.JA@[uptr2[r0] as int]
            == r0)
    &&& (forall|r0: int|
        0 <= r0 < i ==> #[trigger] aa2.subrange(A.IA@[r0] as int, A.IA@[r0 + 1] as int)
            == sgs_row_seq(A, r0))
}

/// One row of the symmetric Gauss-Seidel factorization: scale the strictly
/// lower entries, store the reciprocal diagonal, copy the upper entries.
#[verifier::rlimit(100)]
fn sgs_row(A: &Matrix, i: usize, AA2: &mut Vec<u64>, UPTR2: &mut Vec<usize>) -> (r: Result<
    (),
    MatrixError,
>)
    requires
        A.wf(),
        A.rows_sorted(),
        A.n == A.m,
        i < A.m,
        forall|r0: int| 0 <= r0 < i ==> good_diag(*A, r0),
        sgs_prefix_ok(*A, old(AA2)@, old(UPTR2)@, i as int),
    ensures
        match r {
            Ok(_) => {
                &&& good_diag(*A, i as int)
                &&& sgs_prefix_ok(*A, final(AA2)@, final(UPTR2)@, i as int + 1)
            },
            Err(e) => e == MatrixError::DiagonalElement && !good_diag(*A, i as int),
        },
{
    let j1 = A.IA[i];
    let j2 = A.IA[i + 1];
    let ghost aa_start = AA2@;
    let mut j = j1;
    while j < j2 && A.JA[j] < i
        invariant
            A.wf(),
            A.rows_sorted(),
            A.n == A.m,
            i < A.m,
            j1 == A.IA@[i as int],
            j2 == A.IA@[i as int + 1],
            j2 <= A.JA@.len(),
            j1 <= j <= j2,
            forall|k: int| j1 <= k < j ==> #[trigger] A.JA@[k] < i,
            forall|r0: int| 0 <= r0 < i ==> good_diag(*A, r0),
            aa_start == old(AA2)@,
            UPTR2@ == old(UPTR2)@,
            sgs_prefix_ok(*A, aa_start, UPTR2@, i as int),
            AA2@.len() == j,
            forall|t: int| 0 <= t < j1 ==> #[trigger] AA2@[t] == aa_start[t],
            forall|k: int|
                j1 <= k < j ==> #[trigger] AA2@[k] == f64_mul(
                    A.AA@[k],
                    recip_diag(*A, A.JA@[k] as int),
                ),
        decreases j2 - j,
    {
        let jrow = A.JA[j];
        proof {
            assert(good_diag(*A, jrow as int));
            lemma_diag_index(*A, jrow as int);
            let d = diag_index(*A, jrow as int);
            let lo = A.IA@[jrow as int] as int;
            let hi = A.IA@[jrow as int + 1] as int;
            assert(aa_start.subrange(lo, hi) == sgs_row_seq(*A, jrow as int));
            assert(aa_start.subrange(lo, hi)[d - lo] == sgs_row_seq(*A, jrow as int)[d - lo]);
            assert(aa_start[d] == recip_diag(*A, jrow as int));
            assert(AA2@[d] == recip_diag(*A, jrow as int));
            assert(UPTR2@[jrow as int] == d);
        }
        AA2.push(scalar::fmul(A.AA[j], AA2[UPTR2[jrow]]));
        j += 1;
    }
    if j == j2 || A.JA[j] != i {
        proof {
            assert(!has_diag(*A, i as int)) by {
                if has_diag(*A, i as int) {
                    let k = choose|k: int|
                        A.IA@[i as int] <= k < A.IA@[i as int + 1] && #[trigger] A.JA@[k]
                            == i as int;
                    if k < j {
                        assert(A.JA@[k] < i);
                    } else {
                        if j < j2 && k > j {
                            assert(A.JA@[j as int] < A.JA@[k]);
                        }
                    }
                }
            }
            assert(!good_diag(*A, i as int));
        }
        return Err(MatrixError::DiagonalElement);
    }
    proof {
        assert(has_diag(*A, i as int)) by {
            assert(A.JA@[j as int] == i as int);
        }
        lemma_diag_index(*A, i as int);
        assert(diag_index(*A, i as int) == j as int) by {
            if diag_index(*A, i as int) < j {
                assert(A.JA@[diag_index(*A, i as int)] < i);
            }
        }
    }
    if scalar::fis_zero(A.AA[j]) {
        proof {
            assert(!good_diag(*A, i as int));
        }
        return Err(MatrixError::DiagonalElement);
    }
    UPTR2.push(j);
    AA2.push(scalar::fdiv(scalar::ONE_BITS, A.AA[j]));
    j += 1;
    while j < j2
        invariant
            A.wf(),
            A.rows_sorted(),
            A.n == A.m,
            i < A.m,
            j1 == A.IA@[i as int],
            j2 == A.IA@[i as int + 1],
            j2 <= A.JA@.len(),
            j1 <= j <= j2,
            good_diag(*A, i as int),
            diag_index(*A, i as int) < j,
            forall|r0: int| 0 <= r0 < i ==> good_diag(*A, r0),
            aa_start == old(AA2)@,
            UPTR2@ == old(UPTR2)@.push(diag_index(*A, i as int) as usize),
            sgs_prefix_ok(*A, aa_start, old(UPTR2)@, i as int),
            AA2@.len() == j,
            forall|t: int| 0 <= t < j1 ==> #[trigger] AA2@[t] == aa_start[t],
            forall|k: int| j1 <= k < j ==> #[trigger] AA2@[k] == sgs_val(*A, i as int, k),
        decreases j2 - j,
    {
        AA2.push(A.AA[j]);
        j += 1;
    }
    proof {
        let li = i as int;
        assert forall|r0: int| 0 <= r0 < li + 1 implies #[trigger] AA2@.subrange(
            A.IA@[r0] as int,
            A.IA@[r0 + 1] as int,
        ) == sgs_row_seq(*A, r0) by {
            if r0 < li {
                assert(AA2@.subrange(A.IA@[r0] as int, A.IA@[r0 + 1] as int) =~= aa_start.subrange(
                    A.IA@[r0] as int,
                    A.IA@[r0 + 1] as int,
                ));
            } else {
                assert(AA2@.subrange(j1 as int, j2 as int) =~= sgs_row_seq(*A, li));
            }
        }
    }
    Ok(())
}

/// Symmetric Gauss-Seidel factorization: the sparsity pattern of `A` is
/// kept whole; per row the strictly lower entries are scaled, the diagonal
/// is replaced by its reciprocal, and upper entries are copied.  A missing
/// or zero diagonal in some row is the structural error, and the only one.
#[verifier::rlimit(100)]
pub fn SGS(A: &Matrix) -> (r: Result<Matrix, MatrixError>)
    requires
        A.wf(),
        A.rows_sorted(),
        A.n == A.m,
    ensures
        match r {
            Ok(M) => {
                &&& forall|i: int| 0 <= i < A.m ==> good_diag(*A, i)
                &&& M.wf()
                &&& M.rows_sorted()
                &&& M.factored_wf()
                &&& M.m == A.m
                &&& M.n == A.n
                &&& M.JA@ == A.JA@
                &&& M.IA@ == A.IA@
                &&& forall|i: int|
                    0 <= i < A.m ==> #[trigger] M.UPTR->Some_0@[i] == diag_index(*A, i)
                &&& forall|i: int|
                    0 <= i < A.m ==> #[trigger] M.AA@.subrange(
                        M.IA@[i] as int,
                        M.IA@[i + 1] as int,
                    ) == sgs_row_seq(*A, i)
            },
            Err(e) => {
                &&& e == MatrixError::DiagonalElement
                &&& exists|i: int| 0 <= i < A.m && !good_diag(*A, i)
            },
        },
{
    let m = A.num_rows();
    let mut AA2: Vec<u64> = Vec::new();
    let mut UPTR2: Vec<usize> = Vec::new();
    let mut i: usize = 0;
    while i < m
        invariant
            A.wf(),
            A.rows_sorted(),
            A.n == A.m,
            m == A.m,
            i <= m,
            forall|r0: int| 0 <= r0 < i ==> good_diag(*A, r0),
            sgs_prefix_ok(*A, AA2@, UPTR2@, i as int),
        decreases m - i,
    {
        match sgs_row(A, i, &mut AA2, &mut UPTR2) {
            Ok(_) => {},
            Err(e) => {
                return Err(e);
            },
        }
        i += 1;
    }
    let JA2 = copy_vec(&A.JA);
    let IA2 = copy_vec(&A.IA);
    let M = Matrix { m: A.m, n: A.n, AA: AA2, JA: JA2, IA: IA2, UPTR: Some(UPTR2) };
    proof {
        assert(M.wf());
        lemma_same_pattern_sorted(*A, M);
    }
    Ok(M)
}

/// A matrix with `A`'s pattern whose diagonal pointers sit at `A`'s
/// diagonal positions is well formed, sorted and factored.
/// A matrix sharing the offsets and column indices of a sorted matrix has
/// sorted rows itself.
#[verifier::rlimit(100)]
proof fn lemma_same_pattern_sorted(A: Matrix, M: Matrix)
    requires
        A.wf(),
        A.rows_sorted(),
        M.m == A.m,
        M.JA@ == A.JA@,
        M.IA@ == A.IA@,
    ensures
        M.rows_sorted(),
{
    assert forall|i: int, k1: int, k2: int|
        #![trigger M.IA@[i], M.JA@[k1], M.JA@[k2]]
        0 <= i < M.m && M.IA@[i] <= k1 < k2 < M.IA@[i + 1] implies M.JA@[k1] < M.JA@[k2] by {
        assert(A.IA@[i] <= k1 < k2 < A.IA@[i + 1]);
        assert(A.JA@[k1] < A.JA@[k2]);
    }
}

/// Entry `i` of the Jacobi application: the right-hand side divided by the
/// diagonal of row `i`.
pub open spec fn jacobi_val(A: Matrix, b: Seq<u64>, i: int) -> u64 {
    f64_div(b[i], A.AA@[diag_index(A, i)])
}

/// Jacobi: divide each right-hand-side entry by the matching diagonal.  A
/// row without a diagonal entry is the structural error, and the only one;
/// a zero diagonal merely divides by zero.
pub fn Jacobi(A: &Matrix, b: &Vector) -> (r: Result<Vector, MatrixError>)
    requires
        A.wf(),
        A.rows_sorted(),
        b.wf(),
    ensures
        match r {
            Ok(x) => {
                &&& b.m == A.m
                &&& forall|i: int| 0 <= i < A.m ==> has_diag(*A, i)
                &&& x.wf()
                &&& x.m == A.m
                &&& forall|i: int| 0 <= i < A.m ==> x@[i] == jacobi_val(*A, b@, i)
            },
            Err(e) => match e {
                MatrixError::DimensionMismatch => b.m != A.m,
                MatrixError::DiagonalElement => b.m == A.m && exists|i: int|
                    0 <= i < A.m && !has_diag(*A, i),
                _ => false,
            },
        },
{
    let m = A.num_rows();
    if b.num_rows() != m {
        return Err(MatrixError::DimensionMismatch);
    }
    let mut x: Vec<u64> = Vec::new();
    let mut i: usize = 0;
    while i < m
        invariant
            A.wf(),
            A.rows_sorted(),
            b.wf(),
            b.m == A.m,
            m == A.m,
            i <= m,
            x@.len() == i,
            forall|r0: int| 0 <= r0 < i ==> has_diag(*A, r0),
            forall|r0: int| 0 <= r0 < i ==> #[trigger] x@[r0] == jacobi_val(*A, b@, r0),
        decreases m - i,
    {
        let j1 = A.IA[i];
        let j2 = A.IA[i + 1];
        let mut found: usize = 0;
        let mut ok: bool = false;
        let mut k = j1;
        while k < j2 && !ok
            invariant
                A.wf(),
                A.rows_sorted(),
                i < m,
                m == A.m,
                j1 == A.IA@[i as int],
                j2 == A.IA@[i as int + 1],
                j2 <= A.JA@.len(),
                j1 <= k <= j2,
                !ok ==> forall|t: int| j1 <= t < k ==> #[trigger] A.JA@[t] != i,
                ok ==> j1 <= found < j2 && A.JA@[found as int] == i as int,
            decreases j2 - k + if ok {
                0int
            } else {
                1int
            },
        {
            if A.JA[k] == i {
                found = k;
                ok = true;
            } else {
                k += 1;
            }
        }
        if !ok {
            proof {
                assert(!has_diag(*A, i as int));
            }
            return Err(MatrixError::DiagonalElement);
        }
        proof {
            assert(has_diag(*A, i as int)) by {
                assert(A.JA@[found as int] == i as int);
            }
            lemma_diag_index(*A, i as int);
            assert(diag_index(*A, i as int) == found as int) by {
                let d = diag_index(*A, i as int);
                if d < found {
                    assert(A.JA@[d] < A.JA@[found as int]);
                }
                if d > found {
                    assert(A.JA@[found as int] < A.JA@[d]);
                }
            }
        }
        x.push(scalar::fdiv(b.AA[i], A.AA[found]));
        i += 1;
    }
    Ok(Vector { m, AA: x })
}

/// The successive-overrelaxation factorization is not implemented: asking
/// for it always fails fast with the not-available error.
pub fn SOR(A: &Matrix) -> (r: Result<Matrix, MatrixError>)
    ensures
        r == Err::<Matrix, MatrixError>(MatrixError::NotAvailable),
{
    let _ = A.num_rows();
    Err(MatrixError::NotAvailable)
}

/// The identity preconditioner: the right-hand side passes through.
pub fn none<'a>(_A: &Matrix, b: &'a Vector) -> (r: &'a Vector)
    ensures
        r == b,
{
    b
}

/// A fold subtracting `aa[k] * x[ja[k]]` from `acc` over entries `lo..hi`,
/// left to right.
pub open spec fn lu_fold(
    aa: Seq<u64>,
    ja: Seq<usize>,
    x: Seq<u64>,
    acc: u64,
    lo: int,
    hi: int,
) -> u64
    decreases hi - lo,
{
    if hi <= lo {
        acc
    } else {
        f64_sub(lu_fold(aa, ja, x, acc, lo, hi - 1), f64_mul(aa[hi - 1], x[ja[hi - 1] as int]))
    }
}

/// A sequence of `m` zero scalars.
pub open spec fn zeros_seq(m: int) -> Seq<u64> {
    Seq::new(if m >= 0 { m as nat } else { 0 }, |t: int| scalar::ZERO_BITS)
}

/// The state of the forward sweep after rows `0..i`: row `i-1` holds the
/// right-hand side less the strictly-lower products against the rows
/// already swept.
pub open spec fn fwd_state(M: Matrix, v: Seq<u64>, i: int) -> Seq<u64>
    decreases i,
{
    if i <= 0 {
        zeros_seq(M.m as int)
    } else {
        let s = fwd_state(M, v, i - 1);
        s.update(
            i - 1,
            lu_fold(
                M.AA@,
                M.JA@,
                s,
                v[i - 1],
                M.IA@[i - 1] as int,
                M.UPTR->Some_0@[i - 1] as int,
            ),
        )
    }
}

/// The state of the backward sweep once rows `i..m` are finished: each such
/// row has its upper products removed and is scaled by the stored
/// reciprocal diagonal.
pub open spec fn bwd_state(M: Matrix, v: Seq<u64>, i: int) -> Seq<u64>
    decreases M.m - i,
{
    if i >= M.m {
        fwd_state(M, v, M.m as int)
    } else {
        let s = bwd_state(M, v, i + 1);
        s.update(
            i,
            f64_mul(
                lu_fold(
                    M.AA@,
                    M.JA@,
                    s,
                    s[i],
                    M.UPTR->Some_0@[i] + 1,
                    M.IA@[i + 1] as int,
                ),
                M.AA@[M.UPTR->Some_0@[i] as int],
            ),
        )
    }
}

/// Triangular solve against a factored matrix: a forward sweep through the
/// strictly lower entries, then a backward sweep through the upper entries
/// with the stored reciprocal diagonals.  A matrix that records no diagonal
/// pointers is refused.
pub fn LU_solve(M: &Matrix, v: &Vector) -> (r: Result<Vector, MatrixError>)
    requires
        M.wf(),
        v.wf(),
        M.UPTR is Some ==> M.factored_wf(),
    ensures
        match r {
            Ok(x) => {
                &&& M.UPTR is Some
                &&& v.m == M.m
                &&& x.wf()
                &&& x.m == M.m
                &&& x@ == bwd_state(*M, v@, 0)
            },
            Err(e) => match e {
                MatrixError::NotFactored => M.UPTR is None,
                MatrixError::DimensionMismatch => M.UPTR is Some && v.m != M.m,
                _ => false,
            },
        },
{
    let m = M.num_rows();
    let uptr = match &M.UPTR {
        Some(u) => u,
        None => {
            return Err(MatrixError::NotFactored);
        },
    };
    if v.num_rows() != m {
        return Err(MatrixError::DimensionMismatch);
    }
    let mut x: Vec<u64> = Vec::new();
    let mut i: usize = 0;
    while i < m
        invariant
            i <= m,
            m == M.m,
            x@.len() == i,
            forall|t: int| 0 <= t < i ==> #[trigger] x@[t] == scalar::ZERO_BITS,
        decreases m - i,
    {
        x.push(scalar::ZERO_BITS);
        i += 1;
    }
    proof {
        assert(x@ =~= zeros_seq(m as int));
    }
    // forward sweep
    let mut i: usize = 0;
    while i < m
        invariant
            M.wf(),
            M.factored_wf(),
            v.wf(),
            v.m == M.m,
            m == M.m,
            M.UPTR matches Some(u) && u@ == uptr@,
            i <= m,
            x@.len() == m,
            x@ == fwd_state(*M, v@, i as int),
        decreases m - i,
    {
        let j1 = M.IA[i];
        let hi = uptr[i];
        let mut acc = v.AA[i];
        let mut j = j1;
        while j < hi
            invariant
                M.wf(),
                M.factored_wf(),
                m == M.m,
                i < m,
                M.UPTR matches Some(u) && u@ == uptr@,
                j1 == M.IA@[i as int],
                hi == uptr@[i as int],
                hi < M.AA@.len(),
                x@.len() == m,
                j1 <= j <= hi,
                acc == lu_fold(M.AA@, M.JA@, x@, v@[i as int], j1 as int, j as int),
            decreases hi - j,
        {
            acc = scalar::fsub(acc, scalar::fmul(M.AA[j], x[M.JA[j]]));
            j += 1;
        }
        x[i] = acc;
        i += 1;
    }
    // backward sweep
    let mut idx: usize = m;
    while idx > 0
        invariant
            M.wf(),
            M.factored_wf(),
            v.wf(),
            v.m == M.m,
            m == M.m,
            M.UPTR matches Some(u) && u@ == uptr@,
            idx <= m,
            x@.len() == m,
            x@ == bwd_state(*M, v@, idx as int),
        decreases idx,
    {
        let i = idx - 1;
        let d = uptr[i];
        let j2 = M.IA[i + 1];
        let mut acc = x[i];
        let mut j = d + 1;
        while j < j2
            invariant
                M.wf(),
                M.factored_wf(),
                m == M.m,
                i < m,
                M.UPTR matches Some(u) && u@ == uptr@,
                d == uptr@[i as int],
                j2 == M.IA@[i as int + 1],
                j2 <= M.AA@.len(),
                x@.len() == m,
                d + 1 <= j <= j2,
                acc == lu_fold(M.AA@, M.JA@, x@, x@[i as int], d as int + 1, j as int),
            decreases j2 - j,
        {
            acc = scalar::fsub(acc, scalar::fmul(M.AA[j], x[M.JA[j]]));
            j += 1;
        }
        x[i] = scalar::fmul(acc, M.AA[d]);
        idx -= 1;
    }
    Ok(Vector { m, AA: x })
}

/// The position of column `c` inside row `k` (meaningful when the column
/// occurs there and the row's columns are distinct).
pub open spec fn col_index(A: Matrix, k: int, c: int) -> int {
    choose|w: int| A.IA@[k] <= w < A.IA@[k + 1] && #[trigger] A.JA@[w] == c
}

/// Apply pivot row `jrow`'s upper entries `..hi` to the working array:
/// wherever the upper entry's column also occurs in row `k`, subtract the
/// multiplier times the pivot entry from row `k`'s matching slot.
pub open spec fn ilu_pivot(A: Matrix, s: Seq<u64>, k: int, tl: u64, jrow: int, hi: int) -> Seq<
    u64,
>
    decreases hi - diag_index(A, jrow) - 1,
{
    if hi <= diag_index(A, jrow) + 1 {
        s
    } else {
        let s0 = ilu_pivot(A, s, k, tl, jrow, hi - 1);
        let c = A.JA@[hi - 1] as int;
        if row_contains(A.JA@, A.IA@[k] as int, A.IA@[k + 1] as int, c) {
            let w = col_index(A, k, c);
            s0.update(w, f64_sub(s0[w], f64_mul(tl, s0[hi - 1])))
        } else {
            s0
        }
    }
}

/// Row `k` of the no-fill elimination after its lower entries `..t`: each
/// becomes the multiplier against its column's settled reciprocal
/// diagonal, and that pivot row's uppers are folded into the row's own
/// pattern.
pub open spec fn ilu_elim(A: Matrix, s: Seq<u64>, k: int, t: int) -> Seq<u64>
    decreases t - A.IA@[k],
{
    if t <= A.IA@[k] {
        s
    } else {
        let s0 = ilu_elim(A, s, k, t - 1);
        let jrow = A.JA@[t - 1] as int;
        let tl = f64_mul(s0[t - 1], s0[diag_index(A, jrow)]);
        let s1 = s0.update(t - 1, tl);
        ilu_pivot(A, s1, k, tl, jrow, A.IA@[jrow + 1] as int)
    }
}

/// The working array once pivot row `k` is finished: lower entries
/// eliminated, the diagonal slot holding the reciprocal of the source
/// diagonal.
pub open spec fn ilu_row_state(A: Matrix, s: Seq<u64>, k: int) -> Seq<u64> {
    let d = diag_index(A, k);
    ilu_elim(A, s, k, d).update(d, recip_diag(A, k))
}

/// The working array once pivot rows `0..k` are finished, starting from
/// the source values.
pub open spec fn ilu_state(A: Matrix, k: int) -> Seq<u64>
    decreases k,
{
    if k <= 0 {
        A.AA@
    } else {
        ilu_row_state(A, ilu_state(A, k - 1), k - 1)
    }
}

/// Every stored value of the no-fill incomplete LU factor of `A`.
pub open spec fn ilu_values(A: Matrix) -> Seq<u64> {
    ilu_state(A, A.m as int)
}

/// The first `i` rows of the no-fill incomplete LU factor are finished:
/// each has its diagonal position recorded and holds the reciprocal of the
/// source diagonal there.
pub open spec fn ilu_prefix_ok(A: Matrix, aa2: Seq<u64>, uptr2: Seq<usize>, i: int) -> bool {
    &&& aa2.len() == A.AA@.len()
    &&& uptr2.len() == i
    &&& (forall|r0: int|
        0 <= r0 < i ==> #[trigger] uptr2[r0] == diag_index(A, r0) && A.IA@[r0] <= uptr2[r0]
            < A.IA@[r0 + 1] && A.JA@[uptr2[r0] as int] == r0 && aa2[uptr2[r0] as int] == recip_diag(
            A,
            r0,
        ))
}

/// Every slot of the column workspace holds the sentinel.
pub open spec fn iw_clear(iw: Seq<usize>, m: int) -> bool {
    iw.len() == m && forall|c: int| 0 <= c < m ==> #[trigger] iw[c] == usize::MAX
}

/// Fold pivot row `jrow`'s upper entries into row `k` of the working
/// array: wherever an upper entry's column also occurs in row `k` (located
/// through the workspace `IW`), subtract the multiplier times the pivot
/// entry from row `k`'s slot.  Positions before row `k` are untouched.
#[verifier::rlimit(100)]
#[verifier::spinoff_prover]
fn ilu_apply_pivot(
    A: &Matrix,
    k: usize,
    jrow: usize,
    d: usize,
    tl: u64,
    AA2: &mut Vec<u64>,
    IW: &Vec<usize>,
)
    requires
        d as int == diag_index(*A, jrow as int),
        A.wf(),
        A.rows_sorted(),
        A.n == A.m,
        k < A.m,
        jrow < k,
        old(AA2)@.len() == A.AA@.len(),
        IW@.len() == A.m,
        forall|c: int|
            0 <= c < A.m ==> #[trigger] IW@[c] == usize::MAX || (A.IA@[k as int] <= IW@[c]
                < A.IA@[k as int + 1] && A.JA@[IW@[c] as int] == c),
        forall|tt: int|
            A.IA@[k as int] <= tt < A.IA@[k as int + 1] ==> IW@[#[trigger] A.JA@[tt] as int] == tt,
        A.IA@[jrow as int] <= diag_index(*A, jrow as int) < A.IA@[jrow as int + 1],
        A.JA@[diag_index(*A, jrow as int)] == jrow as int,
    ensures
        final(AA2)@ == ilu_pivot(
            *A,
            old(AA2)@,
            k as int,
            tl,
            jrow as int,
            A.IA@[jrow as int + 1] as int,
        ),
        final(AA2)@.len() == old(AA2)@.len(),
        forall|p: int| 0 <= p < A.IA@[k as int] ==> final(AA2)@[p] == old(AA2)@[p],
{
    let j1 = A.IA[k];
    let j2 = A.IA[k + 1];
    let hi = A.IA[jrow + 1];
    let mut jj = d + 1;
    while jj < hi
        invariant
            A.wf(),
            A.rows_sorted(),
            A.n == A.m,
            k < A.m,
            jrow < k,
            j1 == A.IA@[k as int],
            j2 == A.IA@[k as int + 1],
            hi == A.IA@[jrow as int + 1],
            hi <= j1,
            d as int == diag_index(*A, jrow as int),
            d < jj <= hi,
            AA2@.len() == A.AA@.len(),
            IW@.len() == A.m,
            forall|c: int|
                0 <= c < A.m ==> #[trigger] IW@[c] == usize::MAX || (j1 <= IW@[c] < j2
                    && A.JA@[IW@[c] as int] == c),
            forall|tt: int| j1 <= tt < j2 ==> IW@[#[trigger] A.JA@[tt] as int] == tt,
            AA2@ == ilu_pivot(*A, old(AA2)@, k as int, tl, jrow as int, jj as int),
            forall|p: int| 0 <= p < j1 ==> AA2@[p] == old(AA2)@[p],
        decreases hi - jj,
    {
        let c = A.JA[jj];
        let jw = IW[c];
        let ghost sp = AA2@;
        if jw != usize::MAX {
            proof {
                // the hit is the unique slot of this column in row k
                assert(row_contains(A.JA@, j1 as int, j2 as int, c as int)) by {
                    assert(A.JA@[jw as int] == c as int);
                }
                let w = col_index(*A, k as int, c as int);
                assert(A.IA@[k as int] <= w < A.IA@[k as int + 1] && A.JA@[w] == c as int);
                assert(w == jw as int) by {
                    if w < jw as int {
                        assert(A.JA@[w] < A.JA@[jw as int]);
                    }
                    if w > jw as int {
                        assert(A.JA@[jw as int] < A.JA@[w]);
                    }
                }
            }
            AA2[jw] = scalar::fsub(AA2[jw], scalar::fmul(tl, AA2[jj]));
            proof {
                let w = col_index(*A, k as int, c as int);
                assert(AA2@ == sp.update(w, f64_sub(sp[w], f64_mul(tl, sp[jj as int]))));
                assert(AA2@ == ilu_pivot(*A, old(AA2)@, k as int, tl, jrow as int, jj as int + 1));
            }
        } else {
            proof {
                assert(!row_contains(A.JA@, j1 as int, j2 as int, c as int)) by {
                    if row_contains(A.JA@, j1 as int, j2 as int, c as int) {
                        let tt = choose|tt: int|
                            j1 <= tt < j2 && #[trigger] A.JA@[tt] == c as int;
                        assert(IW@[A.JA@[tt] as int] == tt);
                    }
                }
                assert(AA2@ == ilu_pivot(*A, old(AA2)@, k as int, tl, jrow as int, jj as int + 1));
            }
        }
        jj += 1;
    }
}

/// One pivot row of the no-fill incomplete LU factorization: lower entries
/// become multipliers against finished rows, matching upper entries of
/// those rows are subtracted inside the row's own pattern (located through
/// the sentinel-cleared workspace `IW`), and the reciprocal of the source
/// diagonal is stored at the diagonal.
#[verifier::rlimit(100)]
#[verifier::spinoff_prover]
fn ilu_row(A: &Matrix, k: usize, AA2: &mut Vec<u64>, UPTR2: &mut Vec<usize>, IW: &mut Vec<usize>)
    -> (r: Result<(), MatrixError>)
    requires
        A.wf(),
        A.rows_sorted(),
        A.n == A.m,
        k < A.m,
        forall|r0: int| 0 <= r0 < k ==> good_diag(*A, r0),
        ilu_prefix_ok(*A, old(AA2)@, old(UPTR2)@, k as int),
        iw_clear(old(IW)@, A.m as int),
    ensures
        match r {
            Ok(_) => {
                &&& good_diag(*A, k as int)
                &&& ilu_prefix_ok(*A, final(AA2)@, final(UPTR2)@, k as int + 1)
                &&& iw_clear(final(IW)@, A.m as int)
                &&& final(AA2)@ == ilu_row_state(*A, old(AA2)@, k as int)
            },
            Err(e) => e == MatrixError::DiagonalElement && !good_diag(*A, k as int),
        },
{
    let j1 = A.IA[k];
    let j2 = A.IA[k + 1];
    // record where each column of the row lives
    let mut t: usize = j1;
    while t < j2
        invariant
            A.wf(),
            A.rows_sorted(),
            A.n == A.m,
            k < A.m,
            j1 == A.IA@[k as int],
            j2 == A.IA@[k as int + 1],
            j2 <= A.JA@.len(),
            j1 <= t <= j2,
            IW@.len() == A.m,
            forall|c: int|
                0 <= c < A.m ==> #[trigger] IW@[c] == usize::MAX || (j1 <= IW@[c] < j2
                    && A.JA@[IW@[c] as int] == c),
            forall|tt: int| j1 <= tt < t ==> IW@[#[trigger] A.JA@[tt] as int] == tt,
        decreases j2 - t,
    {
        let ghost iw_before = IW@;
        IW[A.JA[t]] = t;
        proof {
            assert forall|tt: int| j1 <= tt < t + 1 implies IW@[#[trigger] A.JA@[tt] as int]
                == tt by {
                if tt < t {
                    assert(A.JA@[tt] < A.JA@[t as int]);
                    assert(IW@[A.JA@[tt] as int] == iw_before[A.JA@[tt] as int]);
                }
            }
        }
        t += 1;
    }
    // lower sweep with in-pattern elimination
    let ghost aa_in = AA2@;
    let mut j = j1;
    while j < j2 && A.JA[j] < k
        invariant
            A.wf(),
            A.rows_sorted(),
            A.n == A.m,
            k < A.m,
            j1 == A.IA@[k as int],
            j2 == A.IA@[k as int + 1],
            j2 <= A.JA@.len(),
            j1 <= j <= j2,
            forall|kk: int| j1 <= kk < j ==> #[trigger] A.JA@[kk] < k,
            forall|r0: int| 0 <= r0 < k ==> good_diag(*A, r0),
            UPTR2@ == old(UPTR2)@,
            aa_in == old(AA2)@,
            ilu_prefix_ok(*A, AA2@, UPTR2@, k as int),
            AA2@ == ilu_elim(*A, aa_in, k as int, j as int),
            IW@.len() == A.m,
            forall|c: int|
                0 <= c < A.m ==> #[trigger] IW@[c] == usize::MAX || (j1 <= IW@[c] < j2
                    && A.JA@[IW@[c] as int] == c),
            forall|tt: int| j1 <= tt < j2 ==> IW@[#[trigger] A.JA@[tt] as int] == tt,
        decreases j2 - j,
    {
        let jrow = A.JA[j];
        proof {
            assert(UPTR2@[jrow as int] == diag_index(*A, jrow as int));
            assert(AA2@[UPTR2@[jrow as int] as int] == recip_diag(*A, jrow as int));
        }
        let ghost s0 = AA2@;
        let tl = scalar::fmul(AA2[j], AA2[UPTR2[jrow]]);
        AA2[j] = tl;
        proof {
            // the write lands inside row k, past every finished row
            assert(A.IA@[jrow as int + 1] <= j1);
            assert(tl == f64_mul(s0[j as int], s0[diag_index(*A, jrow as int)]));
            assert(AA2@ == s0.update(j as int, tl));
        }
        let ghost s1 = AA2@;
        ilu_apply_pivot(A, k, jrow, UPTR2[jrow], tl, AA2, IW);
        proof {
            // the finished rows sit before this row's span and kept their
            // reciprocal diagonals through the in-row writes
            assert forall|r0: int| 0 <= r0 < k implies AA2@[#[trigger] UPTR2@[r0] as int]
                == recip_diag(*A, r0) by {
                assert(A.IA@[r0 + 1] <= A.IA@[k as int]);
                assert(UPTR2@[r0] < j1);
                assert(AA2@[UPTR2@[r0] as int] == s1[UPTR2@[r0] as int]);
                assert(s1[UPTR2@[r0] as int] == s0[UPTR2@[r0] as int]);
            }
            assert(ilu_prefix_ok(*A, AA2@, UPTR2@, k as int));
            assert(AA2@ == ilu_elim(*A, aa_in, k as int, j as int + 1)) by {
                assert(s0 == ilu_elim(*A, aa_in, k as int, j as int));
                assert(jrow as int == A.JA@[j as int]);
                assert(AA2@ == ilu_pivot(
                    *A,
                    s1,
                    k as int,
                    tl,
                    jrow as int,
                    A.IA@[jrow as int + 1] as int,
                ));
            }
        }
        j += 1;
    }
    if j == j2 || A.JA[j] != k {
        proof {
            assert(!has_diag(*A, k as int)) by {
                if has_diag(*A, k as int) {
                    let kk = choose|kk: int|
                        A.IA@[k as int] <= kk < A.IA@[k as int + 1] && #[trigger] A.JA@[kk]
                            == k as int;
                    if kk < j {
                        assert(A.JA@[kk] < k);
                    } else {
                        if j < j2 && kk > j {
                            assert(A.JA@[j as int] < A.JA@[kk]);
                        }
                    }
                }
            }
            assert(!good_diag(*A, k as int));
        }
        return Err(MatrixError::DiagonalElement);
    }
    proof {
        assert(has_diag(*A, k as int)) by {
            assert(A.JA@[j as int] == k as int);
        }
        lemma_diag_index(*A, k as int);
        assert(diag_index(*A, k as int) == j as int) by {
            if diag_index(*A, k as int) < j {
                assert(A.JA@[diag_index(*A, k as int)] < k);
            }
        }
    }
    if scalar::fis_zero(A.AA[j]) {
        proof {
            assert(!good_diag(*A, k as int));
        }
        return Err(MatrixError::DiagonalElement);
    }
    UPTR2.push(j);
    let ghost s_low = AA2@;
    AA2[j] = scalar::fdiv(scalar::ONE_BITS, A.AA[j]);
    proof {
        assert(s_low == ilu_elim(*A, aa_in, k as int, diag_index(*A, k as int)));
        assert(AA2@ == s_low.update(diag_index(*A, k as int), recip_diag(*A, k as int)));
        assert(AA2@ == ilu_row_state(*A, aa_in, k as int));
    }
    // clear the workspace for the next row
    let mut t: usize = j1;
    while t < j2
        invariant
            A.wf(),
            A.rows_sorted(),
            A.n == A.m,
            k < A.m,
            j1 == A.IA@[k as int],
            j2 == A.IA@[k as int + 1],
            j2 <= A.JA@.len(),
            j1 <= t <= j2,
            IW@.len() == A.m,
            forall|c: int|
                0 <= c < A.m ==> #[trigger] IW@[c] == usize::MAX || (t <= IW@[c] < j2
                    && A.JA@[IW@[c] as int] == c),
        decreases j2 - t,
    {
        IW[A.JA[t]] = usize::MAX;
        proof {
            assert forall|c: int| 0 <= c < A.m implies #[trigger] IW@[c] == usize::MAX || (t + 1
                <= IW@[c] < j2 && A.JA@[IW@[c] as int] == c) by {
                if IW@[c] != usize::MAX && IW@[c] == t as int {
                    assert(A.JA@[t as int] == c);
                }
            }
        }
        t += 1;
    }
    Ok(())
}

/// No-fill incomplete LU factorization on the pattern of `A`: per pivot
/// row, lower entries become multipliers and matching upper entries of the
/// referenced rows are subtracted within the row's own pattern; each
/// diagonal stores the reciprocal of the source diagonal.  A missing or
/// zero diagonal in some row of the source is the structural error, and
/// the only one.
#[verifier::rlimit(100)]
#[verifier::spinoff_prover]
pub fn ILU(A: &Matrix) -> (r: Result<Matrix, MatrixError>)
    requires
        A.wf(),
        A.rows_sorted(),
        A.n == A.m,
    ensures
        match r {
            Ok(M) => {
                &&& forall|i: int| 0 <= i < A.m ==> good_diag(*A, i)
                &&& M.wf()
                &&& M.rows_sorted()
                &&& M.factored_wf()
                &&& M.m == A.m
                &&& M.n == A.n
                &&& M.JA@ == A.JA@
                &&& M.IA@ == A.IA@
                &&& M.AA@.len() == A.AA@.len()
                &&& M.AA@ == ilu_values(*A)
                &&& forall|i: int|
                    0 <= i < A.m ==> #[trigger] M.UPTR->Some_0@[i] == diag_index(*A, i)
                        && M.AA@[M.UPTR->Some_0@[i] as int] == recip_diag(*A, i)
            },
            Err(e) => {
                &&& e == MatrixError::DiagonalElement
                &&& exists|i: int| 0 <= i < A.m && !good_diag(*A, i)
            },
        },
{
    let m = A.num_rows();
    let mut AA2 = copy_vec(&A.AA);
    let mut UPTR2: Vec<usize> = Vec::new();
    let mut IW: Vec<usize> = Vec::new();
    let mut c: usize = 0;
    while c < m
        invariant
            c <= m,
            IW@.len() == c,
            forall|t: int| 0 <= t < c ==> #[trigger] IW@[t] == usize::MAX,
        decreases m - c,
    {
        IW.push(usize::MAX);
        c += 1;
    }
    let mut k: usize = 0;
    while k < m
        invariant
            A.wf(),
            A.rows_sorted(),
            A.n == A.m,
            m == A.m,
            k <= m,
            forall|r0: int| 0 <= r0 < k ==> good_diag(*A, r0),
            ilu_prefix_ok(*A, AA2@, UPTR2@, k as int),
            AA2@ == ilu_state(*A, k as int),
            iw_clear(IW@, m as int),
        decreases m - k,
    {
        match ilu_row(A, k, &mut AA2, &mut UPTR2, &mut IW) {
            Ok(_) => {},
            Err(e) => {
                return Err(e);
            },
        }
        k += 1;
    }
    let JA2 = copy_vec(&A.JA);
    let IA2 = copy_vec(&A.IA);
    let M = Matrix { m: A.m, n: A.n, AA: AA2, JA: JA2, IA: IA2, UPTR: Some(UPTR2) };
    proof {
        assert(M.wf());
        lemma_same_pattern_sorted(*A, M);
        assert(M.factored_wf()) by {
            assert(ilu_prefix_ok(*A, M.AA@, M.UPTR->Some_0@, A.m as int));
        }
        assert forall|i: int| 0 <= i < A.m implies #[trigger] M.UPTR->Some_0@[i] == diag_index(
            *A,
            i,
        ) && M.AA@[M.UPTR->Some_0@[i] as int] == recip_diag(*A, i) by {
            assert(ilu_prefix_ok(*A, M.AA@, M.UPTR->Some_0@, A.m as int));
        }
    }
    Ok(M)
}

/// Build the factored matrix that the selector asks for: `GS`, `SGS` and
/// `ILU` run their factorizations, `NoPrecon` yields none, and the
/// remaining variants are not available.
impl Preconditioner {
    #[verifier::rlimit(100)]
    #[verifier::spinoff_prover]
    pub fn from(&self, A: &Matrix) -> (r: Result<Option<Matrix>, MatrixError>)
        requires
            A.wf(),
            A.rows_sorted(),
            A.n == A.m,
        ensures
            match r {
                Ok(o) => match o {
                    Some(M) => {
                        &&& (self is GS || self is SGS || self is ILU)
                        &&& (forall|i: int| 0 <= i < A.m ==> good_diag(*A, i))
                        &&& M.wf()
                        &&& M.rows_sorted()
                        &&& M.factored_wf()
                        &&& M.m == A.m
                        &&& M.n == A.n
                        &&& (self is GS ==> forall|i: int| 0 <= i < A.m ==> gs_row_ok(*A, M, i))
                        &&& (self is SGS ==> M.JA@ == A.JA@ && M.IA@ == A.IA@ && (forall|i: int|
                            0 <= i < A.m ==> #[trigger] M.UPTR->Some_0@[i] == diag_index(*A, i))
                            && (forall|i: int|
                            0 <= i < A.m ==> #[trigger] M.AA@.subrange(
                                M.IA@[i] as int,
                                M.IA@[i + 1] as int,
                            ) == sgs_row_seq(*A, i)))
                        &&& (self is ILU ==> M.JA@ == A.JA@ && M.IA@ == A.IA@ && M.AA@
                            == ilu_values(*A) && (forall|i: int|
                            0 <= i < A.m ==> #[trigger] M.UPTR->Some_0@[i] == diag_index(*A, i)))
                    },
                    None => self is NoPrecon,
                },
                Err(e) => match e {
                    MatrixError::DiagonalElement => (self is GS || self is SGS || self is ILU)
                        && exists|i: int| 0 <= i < A.m && !good_diag(*A, i),
                    MatrixError::NotAvailable => self is Jacobi || self is SOR || self is SSOR,
                    _ => false,
                },
            },
    {
        match self {
            Preconditioner::GS => match GS(A) {
                Ok(M) => Ok(Some(M)),
                Err(e) => Err(e),
            },
            Preconditioner::SGS => match SGS(A) {
                Ok(M) => Ok(Some(M)),
                Err(e) => Err(e),
            },
            Preconditioner::ILU => match ILU(A) {
                Ok(M) => Ok(Some(M)),
                Err(e) => Err(e),
            },
            Preconditioner::NoPrecon => Ok(None),
            _ => Err(MatrixError::NotAvailable),
        }
    }
}

/// The ascending forward solve on the lower part of `A` after rows
/// `0..i`: each row takes the right-hand side less its strictly-lower
/// products against the finished rows, over its diagonal value.
pub open spec fn level_solve_state(A: Matrix, b: Seq<u64>, i: int) -> Seq<u64>
    decreases i,
{
    if i <= 0 {
        zeros_seq(A.m as int)
    } else {
        let s = level_solve_state(A, b, i - 1);
        s.update(
            i - 1,
            f64_div(
                lu_fold(A.AA@, A.JA@, s, b[i - 1], A.IA@[i - 1] as int, diag_index(A, i - 1)),
                A.AA@[diag_index(A, i - 1)],
            ),
        )
    }
}

/// The forward-solve state keeps its length.
proof fn lemma_level_state_len(A: Matrix, b: Seq<u64>, i: int)
    requires
        i <= A.m,
    ensures
        level_solve_state(A, b, i).len() == A.m,
    decreases i,
{
    if i > 0 {
        lemma_level_state_len(A, b, i - 1);
    } else {
        assert(level_solve_state(A, b, i) == zeros_seq(A.m as int));
        assert(zeros_seq(A.m as int).len() == A.m);
    }
}

/// Rows already settled by the forward solve never move again.
proof fn lemma_level_state_stable(A: Matrix, b: Seq<u64>, i: int, j: int)
    requires
        0 <= i <= j,
        j <= A.m,
    ensures
        forall|c: int|
            0 <= c < i && c < A.m ==> level_solve_state(A, b, i)[c] == #[trigger] level_solve_state(
                A,
                b,
                j,
            )[c],
    decreases j - i,
{
    if i < j {
        lemma_level_state_stable(A, b, i, j - 1);
        lemma_level_state_len(A, b, j - 1);
        assert forall|c: int|
            0 <= c < i && c < A.m implies level_solve_state(A, b, i)[c]
            == #[trigger] level_solve_state(A, b, j)[c] by {
            assert(level_solve_state(A, b, j)[c] == level_solve_state(A, b, j - 1)[c]);
        }
    }
}

/// The row fold reads the solution only through the row's own columns.
proof fn lemma_lu_fold_agree(
    aa: Seq<u64>,
    ja: Seq<usize>,
    x1: Seq<u64>,
    x2: Seq<u64>,
    acc: u64,
    lo: int,
    hi: int,
)
    requires
        forall|t: int| lo <= t < hi ==> x1[#[trigger] ja[t] as int] == x2[ja[t] as int],
    ensures
        lu_fold(aa, ja, x1, acc, lo, hi) == lu_fold(aa, ja, x2, acc, lo, hi),
    decreases hi - lo,
{
    if hi > lo {
        lemma_lu_fold_agree(aa, ja, x1, x2, acc, lo, hi - 1);
    }
}

/// Forward solve of the lower part of `A` by level scheduling: each row's
/// dependency depth is computed, rows are ordered by ascending depth (rows
/// of one depth are independent of each other), and each row takes the
/// right-hand side less its strictly-lower products, over its diagonal.
/// The result equals the ascending forward-substitution recurrence, which
/// the depth order reproduces.  A row without a diagonal entry is the
/// structural error.
#[verifier::rlimit(100)]
pub fn level_schduling(A: &Matrix, b: &Vector) -> (r: Result<Vector, MatrixError>)
    requires
        A.wf(),
        A.rows_sorted(),
        A.n == A.m,
        A.m < usize::MAX,
        b.wf(),
    ensures
        match r {
            Ok(x) => {
                &&& b.m == A.m
                &&& forall|i: int| 0 <= i < A.m ==> has_diag(*A, i)
                &&& x.wf()
                &&& x.m == A.m
                &&& x@ == level_solve_state(*A, b@, A.m as int)
            },
            Err(e) => match e {
                MatrixError::DimensionMismatch => b.m != A.m,
                MatrixError::DiagonalElement => b.m == A.m && exists|i: int|
                    0 <= i < A.m && !has_diag(*A, i),
                _ => false,
            },
        },
{
    let m = A.num_rows();
    if b.num_rows() != m {
        return Err(MatrixError::DimensionMismatch);
    }
    let mut depth: Vec<usize> = Vec::new();
    let mut uptr: Vec<usize> = Vec::new();
    let mut i: usize = 0;
    while i < m
        invariant
            A.wf(),
            A.rows_sorted(),
            A.n == A.m,
            b.wf(),
            b.m == A.m,
            m == A.m,
            m < usize::MAX,
            i <= m,
            depth@.len() == i,
            uptr@.len() == i,
            forall|c: int| 0 <= c < i ==> #[trigger] depth@[c] <= c + 1,
            forall|r0: int| 0 <= r0 < i ==> has_diag(*A, r0),
            forall|r0: int|
                0 <= r0 < i ==> A.IA@[r0] <= #[trigger] uptr@[r0] < A.IA@[r0 + 1]
                    && A.JA@[uptr@[r0] as int] == r0,
            forall|r0: int| 0 <= r0 < i ==> #[trigger] uptr@[r0] == diag_index(*A, r0),
            forall|r0: int, t: int|
                #![trigger uptr@[r0], A.JA@[t]]
                0 <= r0 < i && A.IA@[r0] <= t < uptr@[r0] ==> depth@[A.JA@[t] as int]
                    < depth@[r0],
        decreases m - i,
    {
        let j1 = A.IA[i];
        let j2 = A.IA[i + 1];
        let mut j = j1;
        while j < j2 && A.JA[j] < i
            invariant
                A.wf(),
                A.rows_sorted(),
                m == A.m,
                i < m,
                j1 == A.IA@[i as int],
                j2 == A.IA@[i as int + 1],
                j2 <= A.JA@.len(),
                j1 <= j <= j2,
                forall|k: int| j1 <= k < j ==> #[trigger] A.JA@[k] < i,
            decreases j2 - j,
        {
            j += 1;
        }
        if j == j2 || A.JA[j] != i {
            proof {
                assert(!has_diag(*A, i as int)) by {
                    if has_diag(*A, i as int) {
                        let k = choose|k: int|
                            A.IA@[i as int] <= k < A.IA@[i as int + 1] && #[trigger] A.JA@[k]
                                == i as int;
                        if k < j {
                            assert(A.JA@[k] < i);
                        } else {
                            if j < j2 && k > j {
                                assert(A.JA@[j as int] < A.JA@[k]);
                            }
                        }
                    }
                }
                assert(exists|i0: int| 0 <= i0 < A.m && !has_diag(*A, i0)) by {
                    assert(0 <= (i as int) && (i as int) < A.m && !has_diag(*A, i as int));
                }
            }
            return Err(MatrixError::DiagonalElement);
        }
        proof {
            assert(has_diag(*A, i as int)) by {
                assert(A.JA@[j as int] == i as int);
            }
            lemma_diag_index(*A, i as int);
            assert(diag_index(*A, i as int) == j as int) by {
                if diag_index(*A, i as int) < j {
                    assert(A.JA@[diag_index(*A, i as int)] < i);
                }
            }
        }
        uptr.push(j);
        // depth: one past the deepest of the columns up to the diagonal
        let mut dmax: usize = 0;
        let mut t = j1;
        while t <= j
            invariant
                A.wf(),
                m == A.m,
                i < m,
                j1 <= t <= j + 1,
                j < A.JA@.len(),
                j < A.IA@[i as int + 1],
                A.JA@[j as int] == i as int,
                A.IA@[i as int] == j1,
                depth@.len() == i,
                forall|c: int| 0 <= c < i ==> #[trigger] depth@[c] <= c + 1,
                forall|k: int| j1 <= k < j ==> #[trigger] A.JA@[k] < i,
                forall|tt: int|
                    j1 <= tt < t && tt < j ==> depth@[#[trigger] A.JA@[tt] as int] <= dmax,
                dmax <= i,
            decreases j + 1 - t,
        {
            let c = A.JA[t];
            let dc = if c < i {
                depth[c]
            } else {
                0
            };
            proof {
                if (c as int) < i {
                    assert(depth@[c as int] <= c + 1);
                }
            }
            if dc > dmax {
                dmax = dc;
            }
            t += 1;
        }
        depth.push(dmax + 1);
        proof {
            assert forall|r0: int, t0: int|
                #![trigger uptr@[r0], A.JA@[t0]]
                0 <= r0 < i + 1 && A.IA@[r0] <= t0 < uptr@[r0] implies depth@[A.JA@[t0] as int]
                < depth@[r0] by {
                if r0 == i as int {
                    assert(A.JA@[t0] < i);
                    assert(depth@[A.JA@[t0] as int] <= dmax);
                    assert(depth@[r0] == dmax + 1);
                }
            }
        }
        i += 1;
    }
    let mut q0: Vec<usize> = Vec::new();
    let mut i: usize = 0;
    while i < m
        invariant
            i <= m,
            q0@.len() == i,
            forall|t: int| 0 <= t < i ==> #[trigger] q0@[t] == t,
        decreases m - i,
    {
        q0.push(i);
        i += 1;
    }
    let ghost identv = q0@;
    let q = crate::matrix::sort_nodes_by_degree(q0, &depth);
    proof {
        // the sorted order keeps every row exactly once
        assert(identv.no_duplicates());
        identv.lemma_multiset_has_no_duplicates();
        q@.lemma_multiset_has_no_duplicates_conv();
        assert forall|c: int| 0 <= c < m implies #[trigger] q@.contains(c as usize) by {
            assert(identv[c] == c as usize);
            assert(identv.contains(c as usize));
            vstd::seq_lib::to_multiset_contains(identv, c as usize);
            vstd::seq_lib::to_multiset_contains(q@, c as usize);
        }
    }
    let ghost xfinal = level_solve_state(*A, b@, m as int);
    proof {
        lemma_level_state_len(*A, b@, m as int);
    }
    let mut x = crate::vector::Vector::zeros(m);
    let mut k: usize = 0;
    while k < m
        invariant
            A.wf(),
            A.rows_sorted(),
            A.n == A.m,
            b.wf(),
            b.m == A.m,
            m == A.m,
            k <= m,
            q@.len() == m,
            depth@.len() == m,
            forall|t: int| 0 <= t < m ==> #[trigger] q@[t] < m,
            q@.no_duplicates(),
            forall|c: int| 0 <= c < m ==> #[trigger] q@.contains(c as usize),
            forall|t1: int, t2: int|
                0 <= t1 < t2 < m ==> crate::matrix::degree_le(
                    depth@,
                    #[trigger] q@[t1],
                    #[trigger] q@[t2],
                ),
            uptr@.len() == m,
            forall|r0: int| 0 <= r0 < m ==> has_diag(*A, r0),
            forall|r0: int|
                0 <= r0 < m ==> A.IA@[r0] <= #[trigger] uptr@[r0] < A.IA@[r0 + 1]
                    && A.JA@[uptr@[r0] as int] == r0,
            forall|r0: int| 0 <= r0 < m ==> #[trigger] uptr@[r0] == diag_index(*A, r0),
            forall|r0: int, t: int|
                #![trigger uptr@[r0], A.JA@[t]]
                0 <= r0 < m && A.IA@[r0] <= t < uptr@[r0] ==> depth@[A.JA@[t] as int]
                    < depth@[r0],
            x.wf(),
            x.m == m,
            xfinal == level_solve_state(*A, b@, m as int),
            xfinal.len() == m,
            forall|k2: int| 0 <= k2 < k ==> x@[#[trigger] q@[k2] as int] == xfinal[q@[k2] as int],
            forall|k2: int| k <= k2 < m ==> x@[#[trigger] q@[k2] as int] == scalar::ZERO_BITS,
        decreases m - k,
    {
        let i = q[k];
        let j1 = A.IA[i];
        let d = uptr[i];
        proof {
            lemma_diag_index(*A, i as int);
            // every strictly-lower column of this row sits at a smaller
            // depth, hence earlier in the order, hence already settled
            assert forall|t: int| j1 <= t < d implies x@[#[trigger] A.JA@[t] as int] == xfinal[
                A.JA@[t] as int
            ] by {
                let c = A.JA@[t] as int;
                assert(depth@[c] < depth@[i as int]);
                assert(q@.contains(c as usize));
                let k2 = choose|k2: int| 0 <= k2 < q@.len() && q@[k2] == c as usize;
                assert(q@[k as int] == i);
                if k2 == k as int {
                    assert(A.JA@[t] < i);
                }
                if k2 > k as int {
                    assert(crate::matrix::degree_le(depth@, q@[k as int], q@[k2]));
                }
            }
        }
        let mut value = b.AA[i];
        let mut j = j1;
        while j < d
            invariant
                A.wf(),
                A.n == A.m,
                m == A.m,
                i < m,
                b.wf(),
                b.m == m,
                j1 == A.IA@[i as int],
                d == uptr@[i as int],
                d < A.AA@.len(),
                j1 <= j <= d,
                x.wf(),
                x.m == m,
                value == lu_fold(A.AA@, A.JA@, x@, b@[i as int], j1 as int, j as int),
            decreases d - j,
        {
            value = scalar::fsub(value, scalar::fmul(A.AA[j], x.AA[A.JA[j]]));
            j += 1;
        }
        proof {
            let li = i as int;
            let si = level_solve_state(*A, b@, li);
            lemma_level_state_len(*A, b@, li);
            lemma_level_state_stable(*A, b@, li, m as int);
            assert forall|t: int| j1 <= t < d implies x@[#[trigger] A.JA@[t] as int] == si[
                A.JA@[t] as int
            ] by {
                assert(A.JA@[t] < i);
                assert(si[A.JA@[t] as int] == xfinal[A.JA@[t] as int]);
            }
            lemma_lu_fold_agree(A.AA@, A.JA@, x@, si, b@[li], j1 as int, d as int);
        }
        let ghost x_before = x@;
        x.AA[i] = scalar::fdiv(value, A.AA[d]);
        proof {
            let li = i as int;
            let si = level_solve_state(*A, b@, li);
            assert(x@[li] == level_solve_state(*A, b@, li + 1)[li]) by {
                assert(d as int == diag_index(*A, li));
                lemma_level_state_len(*A, b@, li);
            }
            lemma_level_state_stable(*A, b@, li + 1, m as int);
            assert(x@[li] == xfinal[li]);
            assert forall|k2: int| 0 <= k2 < k + 1 implies x@[#[trigger] q@[k2] as int] == xfinal[
                q@[k2] as int
            ] by {
                if k2 < k as int {
                    assert(q@[k2] != q@[k as int]);
                    assert(x@[q@[k2] as int] == x_before[q@[k2] as int]);
                }
            }
            assert forall|k2: int| k + 1 <= k2 < m implies x@[#[trigger] q@[k2] as int]
                == scalar::ZERO_BITS by {
                assert(q@[k2] != q@[k as int]);
                assert(x@[q@[k2] as int] == x_before[q@[k2] as int]);
            }
        }
        k += 1;
    }
    proof {
        assert forall|c: int| 0 <= c < m implies x@[c] == xfinal[c] by {
            assert(q@.contains(c as usize));
            let k2 = choose|k2: int| 0 <= k2 < q@.len() && q@[k2] == c as usize;
            assert(x@[q@[k2] as int] == xfinal[q@[k2] as int]);
        }
        assert(x@ =~= xfinal);
    }
    Ok(x)
}

} // verus!
