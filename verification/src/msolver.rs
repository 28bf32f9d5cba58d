//! Iterative solvers for `Ax = b`: conjugate gradient, Gauss-Seidel sweeps,
//! and restarted GMRES in the modified Gram-Schmidt and Householder
//! variants, with optional right preconditioning.  Each returns the
//! approximate solution with its convergence log: iterations used, final
//! relative residual, and whether the tolerance was met.

use vstd::prelude::*;

use crate::matrix::{row_dot, Matrix, MatrixError};
use crate::preconditioner;
use crate::preconditioner::{zeros_seq, Preconditioner};
use crate::scalar;
use crate::scalar::{f64_add, f64_div, f64_le, f64_lt, f64_mul, f64_neg, f64_signum, f64_sqrt, f64_sub};
use crate::vector::{dot_prefix, spec_dot, spec_l2_norm, Vector};

verus! {

/// What a solver hands back: the approximate solution, the iterations
/// spent, the last relative residual, and whether it fell under the
/// tolerance (callers distinguish converged from capped runs by this flag).
#[derive(Debug)]
pub struct SolveResult {
    pub x: Vector,
    pub iter: usize,
    pub residual: u64,
    pub converged: bool,
}

/// The matrix-vector product, row by row.
pub open spec fn mat_vec(A: Matrix, x: Seq<u64>) -> Seq<u64> {
    Seq::new(A.m as nat, |i: int| row_dot(A.AA@, A.JA@, x, A.IA@[i] as int, A.IA@[i + 1] as int))
}

/// Elementwise difference of two scalar sequences.
pub open spec fn seq_sub(a: Seq<u64>, b: Seq<u64>) -> Seq<u64> {
    Seq::new(a.len(), |i: int| f64_sub(a[i], b[i]))
}

/// The relative residual of `x` for the system `Ax = b`.
pub open spec fn rel_residual(A: Matrix, b: Seq<u64>, x: Seq<u64>) -> u64 {
    f64_div(spec_l2_norm(seq_sub(b, mat_vec(A, x))), spec_l2_norm(b))
}

/// The dimensions a solver accepts: a square matrix matching the
/// right-hand side.
pub open spec fn solver_dims_ok(A: Matrix, b: Vector) -> bool {
    A.n == A.m && A.m == b.m
}

/// The shared shape of every solver's answer.  The convergence flag is the
/// IEEE `residual <= tol`, which a NaN residual never satisfies; the loop
/// itself stops on IEEE not-greater, so an early stop guarantees only
/// `!(residual > tol)` (the two differ exactly on NaN).  Before the first
/// pass the solution is the zero initial guess and the residual carries the
/// largest-finite-value sentinel.
pub open spec fn solve_result_ok(A: Matrix, b: Vector, iMax: int, tol: u64, r: SolveResult) -> bool {
    &&& r.x.wf()
    &&& r.x.m == b.m
    &&& r.iter <= iMax
    &&& r.converged == f64_le(r.residual, tol)
    &&& (r.iter < iMax ==> !f64_lt(tol, r.residual))
    &&& (r.iter == 0 ==> r.residual == scalar::MAX_BITS && r.x@ == zeros_seq(b.m as int))
}

/// The true relative residual of the returned solution, recomputed from it,
/// is what the log reports (once at least one pass ran).
pub open spec fn residual_reported(A: Matrix, b: Vector, r: SolveResult) -> bool {
    r.iter > 0 ==> r.residual == rel_residual(A, b@, r.x@)
}

/// The rolling state of the conjugate-gradient recurrence: the iterate,
/// the recurrence residual vector, the search direction, and the previous
/// residual dot product.
pub struct CgState {
    pub x: Seq<u64>,
    pub r: Seq<u64>,
    pub p: Seq<u64>,
    pub rsold: u64,
}

/// The state entering the first step: zero iterate, residual `b - A*0`,
/// the residual copied as the first direction.
pub open spec fn cg_init(A: Matrix, b: Seq<u64>) -> CgState {
    let x0 = zeros_seq(A.m as int);
    let r0 = seq_sub(b, mat_vec(A, x0));
    CgState { x: x0, r: r0, p: r0, rsold: spec_dot(r0, r0) }
}

/// One conjugate-gradient step from `s`, with the relative residual it
/// reports: `alpha = rsold / (p . Ap)`, iterate and residual updated along
/// `p` and `Ap`, the new direction from the new residual and
/// `beta = rsnew / rsold`.
pub open spec fn cg_step(A: Matrix, b: Seq<u64>, s: CgState) -> (CgState, u64) {
    let ap = mat_vec(A, s.p);
    let alpha = f64_div(s.rsold, spec_dot(s.p, ap));
    let x2 = Seq::new(s.x.len(), |i: int| f64_add(s.x[i], f64_mul(alpha, s.p[i])));
    let r2 = Seq::new(s.r.len(), |i: int| f64_sub(s.r[i], f64_mul(alpha, ap[i])));
    let rsnew = spec_dot(r2, r2);
    let beta = f64_div(rsnew, s.rsold);
    let p2 = Seq::new(r2.len(), |i: int| f64_add(r2[i], f64_mul(beta, s.p[i])));
    (CgState { x: x2, r: r2, p: p2, rsold: rsnew }, f64_div(f64_sqrt(rsnew), spec_l2_norm(b)))
}

/// The conjugate-gradient state and reported residual after `k` steps.
pub open spec fn cg_run(A: Matrix, b: Seq<u64>, k: int) -> (CgState, u64)
    decreases k,
{
    if k <= 0 {
        (cg_init(A, b), scalar::MAX_BITS)
    } else {
        cg_step(A, b, cg_run(A, b, k - 1).0)
    }
}

/// Compute the relative residual of `x`: the norm of `b - A x` over the
/// norm of `b`.
fn compute_residual(A: &Matrix, b: &Vector, x: &Vector, bl: u64) -> (r: u64)
    requires
        A.wf(),
        b.wf(),
        x.wf(),
        solver_dims_ok(*A, *b),
        x.m == b.m,
        bl == spec_l2_norm(b@),
    ensures
        r == rel_residual(*A, b@, x@),
{
    let ax = match A.multiply(x) {
        Ok(v) => v,
        Err(e) => {
            proof {
                assert(false);
            }
            return 0;
        },
    };
    proof {
        assert(ax@ =~= mat_vec(*A, x@));
    }
    let rv = b.sub(&ax);
    proof {
        assert(rv@ =~= seq_sub(b@, mat_vec(*A, x@)));
    }
    scalar::fdiv(rv.l2_norm(), bl)
}

/// Conjugate gradient: the standard unpreconditioned recurrence.  The
/// returned solution and reported residual are exactly the recurrence
/// state after the reported number of steps, and every earlier step's
/// residual stayed above the tolerance.
#[verifier::rlimit(100)]
pub fn CG(iMax: usize, tol: u64, A: &Matrix, b: &Vector) -> (r: Result<SolveResult, MatrixError>)
    requires
        A.wf(),
        b.wf(),
    ensures
        match r {
            Ok(res) => {
                &&& solver_dims_ok(*A, *b)
                &&& solve_result_ok(*A, *b, iMax as int, tol, res)
                &&& res.x@ == cg_run(*A, b@, res.iter as int).0.x
                &&& res.residual == cg_run(*A, b@, res.iter as int).1
                &&& forall|k: int| 0 <= k < res.iter ==> f64_lt(tol, #[trigger] cg_run(*A, b@, k).1)
            },
            Err(e) => e == MatrixError::DimensionMismatch && !solver_dims_ok(*A, *b),
        },
{
    if A.num_cols() != A.num_rows() || A.num_rows() != b.num_rows() {
        return Err(MatrixError::DimensionMismatch);
    }
    let m = b.num_rows();
    let bl = b.l2_norm();
    let mut iter: usize = 0;
    let mut residual: u64 = scalar::MAX_BITS;
    let mut x = Vector::zeros(m);
    let ax = match A.multiply(&x) {
        Ok(v) => v,
        Err(e) => {
            proof {
                assert(false);
            }
            return Err(MatrixError::DimensionMismatch);
        },
    };
    let mut r0 = b.sub(&ax);
    let mut p = Vector::from(crate::matrix::copy_vec(&r0.AA));
    let mut rsold = r0.dot(&r0);
    proof {
        assert(x@ =~= zeros_seq(m as int));
        assert(ax@ =~= mat_vec(*A, x@));
        assert(r0@ =~= seq_sub(b@, mat_vec(*A, x@)));
        assert(x@ == cg_run(*A, b@, 0).0.x);
        assert(r0@ == cg_run(*A, b@, 0).0.r);
        assert(p@ == cg_run(*A, b@, 0).0.p);
        assert(rsold == cg_run(*A, b@, 0).0.rsold);
    }
    while iter < iMax && scalar::fgt(residual, tol)
        invariant
            A.wf(),
            b.wf(),
            solver_dims_ok(*A, *b),
            m == b.m,
            bl == spec_l2_norm(b@),
            x.wf(),
            x.m == m,
            r0.wf(),
            r0.m == m,
            p.wf(),
            p.m == m,
            iter <= iMax,
            x@ == cg_run(*A, b@, iter as int).0.x,
            r0@ == cg_run(*A, b@, iter as int).0.r,
            p@ == cg_run(*A, b@, iter as int).0.p,
            rsold == cg_run(*A, b@, iter as int).0.rsold,
            residual == cg_run(*A, b@, iter as int).1,
            forall|k: int| 0 <= k < iter ==> f64_lt(tol, #[trigger] cg_run(*A, b@, k).1),
        decreases iMax - iter,
    {
        let ghost prev = cg_run(*A, b@, iter as int).0;
        let ap = match A.multiply(&p) {
            Ok(v) => v,
            Err(e) => {
                proof {
                    assert(false);
                }
                return Err(MatrixError::DimensionMismatch);
            },
        };
        proof {
            assert(ap@ =~= mat_vec(*A, prev.p));
        }
        let alpha = scalar::fdiv(rsold, p.dot(&ap));
        x.add_assign(&p.scale(alpha));
        r0.sub_assign(&ap.scale(alpha));
        let rsnew = r0.dot(&r0);
        residual = scalar::fdiv(scalar::fsqrt(rsnew), bl);
        let ghost p_old = p@;
        p = r0.add(&p.scale(scalar::fdiv(rsnew, rsold)));
        proof {
            let st = cg_step(*A, b@, prev);
            assert(x@ =~= st.0.x);
            assert(r0@ =~= st.0.r);
            assert(p@ =~= st.0.p);
            assert(cg_run(*A, b@, iter as int + 1) == st);
        }
        rsold = rsnew;
        iter += 1;
    }
    let converged = scalar::fle(residual, tol);
    Ok(SolveResult { x, iter, residual, converged })
}

/// Accumulator of one Gauss-Seidel row scan over entries `lo..hi`: the
/// running value loses each off-diagonal product against the current
/// solution, and the diagonal entry, where stored, becomes the divisor.
pub open spec fn gs_row_fold(
    A: Matrix,
    x: Seq<u64>,
    acc: u64,
    den: u64,
    i: int,
    lo: int,
    hi: int,
) -> (u64, u64)
    decreases hi - lo,
{
    if hi <= lo {
        (acc, den)
    } else {
        let p = gs_row_fold(A, x, acc, den, i, lo, hi - 1);
        if A.JA@[hi - 1] != i {
            (f64_sub(p.0, f64_mul(A.AA@[hi - 1], x[A.JA@[hi - 1] as int])), p.1)
        } else {
            (p.0, A.AA@[hi - 1])
        }
    }
}

/// The solution after the first `i` rows of an in-place sweep: each row
/// takes the right-hand side less its off-diagonal products (rows already
/// swept contribute their new values), over its stored diagonal (zero
/// divisor when none is stored).
pub open spec fn gs_sweep_state(A: Matrix, b: Seq<u64>, x0: Seq<u64>, i: int) -> Seq<u64>
    decreases i,
{
    if i <= 0 {
        x0
    } else {
        let s = gs_sweep_state(A, b, x0, i - 1);
        let f = gs_row_fold(
            A,
            s,
            b[i - 1],
            scalar::ZERO_BITS,
            i - 1,
            A.IA@[i - 1] as int,
            A.IA@[i] as int,
        );
        s.update(i - 1, f64_div(f.0, f.1))
    }
}

/// The solution after `k` full sweeps from the zero initial guess.
pub open spec fn gs_iterate(A: Matrix, b: Seq<u64>, k: int) -> Seq<u64>
    decreases k,
{
    if k <= 0 {
        zeros_seq(A.m as int)
    } else {
        gs_sweep_state(A, b, gs_iterate(A, b, k - 1), A.m as int)
    }
}

/// The residual the solver reports after `k` sweeps: the sentinel before
/// the first, the true relative residual of the sweep result after.
pub open spec fn gs_resid(A: Matrix, b: Seq<u64>, k: int) -> u64 {
    if k <= 0 {
        scalar::MAX_BITS
    } else {
        rel_residual(A, b, gs_iterate(A, b, k))
    }
}

/// Gauss-Seidel sweeps: each pass rewrites the solution row by row, using
/// the rows already rewritten, and the true relative residual of the new
/// solution decides convergence.  The returned solution is exactly the
/// sweep recurrence after the reported number of passes, and every earlier
/// pass's residual stayed above the tolerance.
pub fn Gauss_Seidel(iMax: usize, tol: u64, A: &Matrix, b: &Vector) -> (r: Result<
    SolveResult,
    MatrixError,
>)
    requires
        A.wf(),
        b.wf(),
    ensures
        match r {
            Ok(res) => {
                &&& solver_dims_ok(*A, *b)
                &&& solve_result_ok(*A, *b, iMax as int, tol, res)
                &&& residual_reported(*A, *b, res)
                &&& res.x@ == gs_iterate(*A, b@, res.iter as int)
                &&& res.residual == gs_resid(*A, b@, res.iter as int)
                &&& forall|k: int| 0 <= k < res.iter ==> f64_lt(tol, #[trigger] gs_resid(*A, b@, k))
            },
            Err(e) => e == MatrixError::DimensionMismatch && !solver_dims_ok(*A, *b),
        },
{
    if A.num_cols() != A.num_rows() || A.num_rows() != b.num_rows() {
        return Err(MatrixError::DimensionMismatch);
    }
    let m = b.num_rows();
    let bl = b.l2_norm();
    let mut iter: usize = 0;
    let mut residual: u64 = scalar::MAX_BITS;
    let mut x = Vector::zeros(m);
    proof {
        assert(x@ =~= zeros_seq(m as int));
    }
    while iter < iMax && scalar::fgt(residual, tol)
        invariant
            A.wf(),
            b.wf(),
            solver_dims_ok(*A, *b),
            m == b.m,
            bl == spec_l2_norm(b@),
            x.wf(),
            x.m == m,
            iter <= iMax,
            iter == 0 ==> residual == scalar::MAX_BITS && x@ == zeros_seq(m as int),
            iter > 0 ==> residual == rel_residual(*A, b@, x@),
            x@ == gs_iterate(*A, b@, iter as int),
            residual == gs_resid(*A, b@, iter as int),
            forall|k: int| 0 <= k < iter ==> f64_lt(tol, #[trigger] gs_resid(*A, b@, k)),
        decreases iMax - iter,
    {
        let ghost x_prev = x@;
        let mut i: usize = 0;
        while i < m
            invariant
                A.wf(),
                b.wf(),
                solver_dims_ok(*A, *b),
                m == b.m,
                i <= m,
                x.wf(),
                x.m == m,
                x@ == gs_sweep_state(*A, b@, x_prev, i as int),
            decreases m - i,
        {
            let ghost srow = x@;
            let j1 = A.IA[i];
            let j2 = A.IA[i + 1];
            let mut acc = b.AA[i];
            let mut denominator: u64 = scalar::ZERO_BITS;
            let mut j = j1;
            while j < j2
                invariant
                    A.wf(),
                    b.wf(),
                    solver_dims_ok(*A, *b),
                    m == b.m,
                    i < m,
                    j1 == A.IA@[i as int],
                    j2 == A.IA@[i as int + 1],
                    j2 <= A.AA@.len(),
                    j1 <= j <= j2,
                    x.wf(),
                    x.m == m,
                    x@ == srow,
                    (acc, denominator) == gs_row_fold(
                        *A,
                        srow,
                        b@[i as int],
                        scalar::ZERO_BITS,
                        i as int,
                        j1 as int,
                        j as int,
                    ),
                decreases j2 - j,
            {
                if i != A.JA[j] {
                    acc = scalar::fsub(acc, scalar::fmul(A.AA[j], x.AA[A.JA[j]]));
                } else {
                    denominator = A.AA[j];
                }
                j += 1;
            }
            x.AA[i] = scalar::fdiv(acc, denominator);
            proof {
                assert(x@ =~= gs_sweep_state(*A, b@, x_prev, i as int + 1));
            }
            i += 1;
        }
        residual = compute_residual(A, b, &x, bl);
        proof {
            assert(x@ == gs_iterate(*A, b@, iter as int + 1));
            assert(residual == gs_resid(*A, b@, iter as int + 1));
        }
        iter += 1;
    }
    let converged = scalar::fle(residual, tol);
    Ok(SolveResult { x, iter, residual, converged })
}

/// The Householder vector for the tail `v[i..]`: the tail with its leading
/// entry pushed away from zero by the tail's norm, normalized.  `None` when
/// the tail is empty.
pub fn Householder_vec(i: usize, v: &Vector) -> (r: Option<Vector>)
    requires
        v.wf(),
    ensures
        match r {
            Some(w) => {
                &&& i < v.m
                &&& w.wf()
                &&& w.m == v.m - i
                &&& {
                    let s = v@.subrange(i as int, v.m as int);
                    let head = f64_add(
                        s[0],
                        f64_mul(f64_signum(s[0]), spec_l2_norm(s)),
                    );
                    let t = s.update(0, head);
                    w@ =~= Seq::new(t.len(), |k: int| f64_div(t[k], spec_l2_norm(t)))
                }
            },
            None => i >= v.m,
        },
{
    let n = v.num_rows();
    if i >= n {
        return None;
    }
    let mut aa: Vec<u64> = Vec::new();
    let mut k: usize = i;
    while k < n
        invariant
            v.wf(),
            v.m == n,
            i <= k <= n,
            aa@.len() == k - i,
            forall|t: int| 0 <= t < k - i ==> #[trigger] aa@[t] == v@[i + t],
        decreases n - k,
    {
        aa.push(v.AA[k]);
        k += 1;
    }
    proof {
        assert(aa@ =~= v@.subrange(i as int, n as int));
    }
    let mut w = Vector::from(aa);
    let norm = w.l2_norm();
    let head = scalar::fadd(v.AA[i], scalar::fmul(scalar::fsignum(v.AA[i]), norm));
    w.AA[i - i] = head;
    proof {
        let s = v@.subrange(i as int, n as int);
        assert(s[0] == v@[i as int]);
        assert(w@ =~= s.update(0, f64_add(s[0], f64_mul(f64_signum(s[0]), spec_l2_norm(s)))));
    }
    let wl = w.l2_norm();
    let r = w.div_scalar(wl);
    Some(r)
}

/// Every stored Hessenberg column `k` holds `k + 2` scalars.
pub open spec fn hessenberg_ok(h: Seq<Vec<u64>>) -> bool {
    forall|k: int| 0 <= k < h.len() ==> #[trigger] h[k]@.len() == k + 2
}

/// The inner views of a stored Hessenberg column list.
pub open spec fn hview(h: Seq<Vec<u64>>) -> Seq<Seq<u64>> {
    h.map_values(|v: Vec<u64>| v@)
}

/// Fold subtracting `H[j][i] * y[j]` from `acc` over columns `lo..hi`,
/// left to right.
pub open spec fn uts_fold(
    H: Seq<Seq<u64>>,
    y: Seq<u64>,
    acc: u64,
    i: int,
    lo: int,
    hi: int,
) -> u64
    decreases hi - lo,
{
    if hi <= lo {
        acc
    } else {
        f64_sub(uts_fold(H, y, acc, i, lo, hi - 1), f64_mul(H[hi - 1][i], y[hi - 1]))
    }
}

/// The back-substitution state once coefficients `i..` are final: each is
/// its projection entry less the later coefficients' contributions, over
/// its diagonal; the not-yet-touched prefix holds zeros.
pub open spec fn uts_state(H: Seq<Seq<u64>>, g: Seq<u64>, i: int) -> Seq<u64>
    decreases H.len() - i,
{
    if i >= H.len() {
        zeros_seq(H.len() as int)
    } else {
        let s = uts_state(H, g, i + 1);
        s.update(i, f64_div(uts_fold(H, s, g[i], i, i + 1, H.len() as int), H[i][i]))
    }
}

/// The hypotenuse of column `j`'s diagonal and subdiagonal entries.
pub open spec fn givens_l(H: Seq<Seq<u64>>, j: int) -> u64 {
    f64_sqrt(f64_add(f64_mul(H[j][j], H[j][j]), f64_mul(H[j][j + 1], H[j][j + 1])))
}

/// The cosine of column `j`'s plane rotation.
pub open spec fn givens_cos(H: Seq<Seq<u64>>, j: int) -> u64 {
    f64_div(H[j][j], givens_l(H, j))
}

/// The sine of column `j`'s plane rotation.
pub open spec fn givens_sin(H: Seq<Seq<u64>>, j: int) -> u64 {
    f64_div(f64_neg(H[j][j + 1]), givens_l(H, j))
}

/// Column `k` once column `j`'s rotation has hit rows `j` and `j+1`.
pub open spec fn givens_rotated_col(H: Seq<Seq<u64>>, j: int, k: int) -> Seq<u64> {
    H[k].update(
        j,
        f64_sub(f64_mul(H[k][j], givens_cos(H, j)), f64_mul(H[k][j + 1], givens_sin(H, j))),
    ).update(
        j + 1,
        f64_add(f64_mul(H[k][j], givens_sin(H, j)), f64_mul(H[k][j + 1], givens_cos(H, j))),
    )
}

/// One plane rotation: the cosine and sine drawn from column `j`'s
/// diagonal and subdiagonal entries rotate rows `j` and `j+1` of every
/// column from `j` on, and the projection entries `j` and `j+1`.
pub open spec fn givens_col(H: Seq<Seq<u64>>, g: Seq<u64>, j: int) -> (Seq<Seq<u64>>, Seq<u64>) {
    let H2 = Seq::new(
        H.len(),
        |k: int|
            if k < j {
                H[k]
            } else {
                givens_rotated_col(H, j, k)
            },
    );
    let g2 = g.update(j, f64_mul(g[j], givens_cos(H, j))).update(
        j + 1,
        f64_mul(g[j], givens_sin(H, j)),
    );
    (H2, g2)
}

/// The Hessenberg columns and projection vector after the first `j`
/// rotations.
pub open spec fn givens_run(H: Seq<Seq<u64>>, g: Seq<u64>, j: int) -> (Seq<Seq<u64>>, Seq<u64>)
    decreases j,
{
    if j <= 0 {
        (H, g)
    } else {
        let p = givens_run(H, g, j - 1);
        givens_col(p.0, p.1, j - 1)
    }
}

/// How many columns are rotated: all of them, unless the final subdiagonal
/// entry already sits below the tolerance, in which case the last column
/// is left alone.
pub open spec fn givens_dim(H: Seq<Seq<u64>>, tol: u64) -> int {
    if f64_lt(tol, scalar::f64_abs(H.last().last())) {
        H.len() as int
    } else {
        H.len() - 1
    }
}

/// Reduce the Hessenberg columns to upper-triangular form with one plane
/// rotation per column, rotating the projection vector `g` in step; the
/// result is exactly the rotation recurrence applied to the rotated column
/// count.
#[verifier::rlimit(100)]
pub fn Givens_rotation(H: &mut Vec<Vec<u64>>, g: &mut Vec<u64>, tol: u64)
    requires
        old(H)@.len() >= 1,
        hessenberg_ok(old(H)@),
        old(g)@.len() > old(H)@.len(),
    ensures
        final(H)@.len() == old(H)@.len(),
        hessenberg_ok(final(H)@),
        final(g)@.len() == old(g)@.len(),
        hview(final(H)@) == givens_run(
            hview(old(H)@),
            old(g)@,
            givens_dim(hview(old(H)@), tol),
        ).0,
        final(g)@ == givens_run(hview(old(H)@), old(g)@, givens_dim(hview(old(H)@), tol)).1,
{
    let ghost h0v = hview(old(H)@);
    let ghost g0v = old(g)@;
    let hn = H.len();
    let last = &H[hn - 1];
    let v = last[last.len() - 1];
    let dim = if scalar::fgt(scalar::fabs(v), tol) {
        hn
    } else {
        hn - 1
    };
    proof {
        assert(hview(H@)[hn - 1] == H@[hn - 1]@);
        assert(h0v.last() == H@[hn - 1]@);
        assert(dim as int == givens_dim(h0v, tol));
    }
    let mut j: usize = 0;
    while j < dim
        invariant
            dim <= hn,
            hn == H@.len(),
            hessenberg_ok(H@),
            g@.len() == g0v.len(),
            g@.len() > H@.len(),
            j <= dim,
            h0v.len() == hn,
            hview(H@) == givens_run(h0v, g0v, j as int).0,
            g@ == givens_run(h0v, g0v, j as int).1,
        decreases dim - j,
    {
        let ghost pre = givens_run(h0v, g0v, j as int);
        let hcol = &H[j];
        let r0 = hcol[j];
        let h0 = hcol[j + 1];
        let l = scalar::fsqrt(scalar::fadd(scalar::fmul(r0, r0), scalar::fmul(h0, h0)));
        let cos = scalar::fdiv(r0, l);
        let sin = scalar::fdiv(scalar::fneg(h0), l);
        let gj = g[j];
        proof {
            assert(hview(H@)[j as int] == H@[j as int]@);
            assert(r0 == pre.0[j as int][j as int]);
            assert(h0 == pre.0[j as int][j as int + 1]);
            assert(l == givens_l(pre.0, j as int));
            assert(cos == givens_cos(pre.0, j as int));
            assert(sin == givens_sin(pre.0, j as int));
        }
        let ghost target = givens_col(pre.0, pre.1, j as int);
        let mut k: usize = j;
        while k < hn
            invariant
                j < dim <= hn,
                hn == H@.len(),
                hessenberg_ok(H@),
                g@.len() == g0v.len(),
                g@.len() > H@.len(),
                j <= k <= hn,
                pre == givens_run(h0v, g0v, j as int),
                target == givens_col(pre.0, pre.1, j as int),
                pre.0.len() == hn,
                pre.1.len() == g0v.len(),
                forall|t: int| 0 <= t < hn ==> #[trigger] pre.0[t].len() == t + 2,
                g@ == pre.1,
                cos == givens_cos(pre.0, j as int),
                sin == givens_sin(pre.0, j as int),
                forall|t: int|
                    0 <= t < hn ==> hview(H@)[t] == if j <= t < k {
                        target.0[t]
                    } else {
                        pre.0[t]
                    },
            decreases hn - k,
        {
            proof {
                assert(hview(H@)[k as int] == H@[k as int]@);
                assert(H@[k as int]@ == pre.0[k as int]);
            }
            let rk = H[k][j];
            let hk = H[k][j + 1];
            let mut row = crate::matrix::copy_vec(&H[k]);
            let ghost row0 = row@;
            row[j] = scalar::fsub(scalar::fmul(rk, cos), scalar::fmul(hk, sin));
            row[j + 1] = scalar::fadd(scalar::fmul(rk, sin), scalar::fmul(hk, cos));
            proof {
                assert(rk == pre.0[k as int][j as int]);
                assert(hk == pre.0[k as int][j as int + 1]);
                assert(row0 == pre.0[k as int]);
                assert(row@ == row0.update(
                    j as int,
                    f64_sub(f64_mul(rk, cos), f64_mul(hk, sin)),
                ).update(j as int + 1, f64_add(f64_mul(rk, sin), f64_mul(hk, cos))));
                assert(target.0[k as int] == givens_rotated_col(pre.0, j as int, k as int));
                assert(row@ =~= target.0[k as int]);
            }
            let ghost h_before = H@;
            H[k] = row;
            proof {
                assert forall|t: int| 0 <= t < hn implies hview(H@)[t] == if j <= t < k + 1 {
                    target.0[t]
                } else {
                    pre.0[t]
                } by {
                    assert(hview(H@)[t] == H@[t]@);
                    if t != k {
                        assert(H@[t] == h_before[t]);
                        assert(hview(h_before)[t] == h_before[t]@);
                    }
                }
                assert forall|t: int| 0 <= t < H@.len() implies #[trigger] H@[t]@.len() == t
                    + 2 by {
                    if t == k {
                        assert(hview(h_before)[t] == h_before[t]@);
                    }
                }
            }
            k += 1;
        }
        g[j] = scalar::fmul(gj, cos);
        g[j + 1] = scalar::fmul(gj, sin);
        proof {
            assert(g@ =~= target.1);
            assert(hview(H@) =~= target.0) by {
                assert forall|t: int| 0 <= t < hn implies hview(H@)[t] == target.0[t] by {
                    if t < j {
                        assert(target.0[t] == pre.0[t]);
                    }
                }
            }
            assert(givens_run(h0v, g0v, j as int + 1) == givens_col(pre.0, pre.1, j as int));
        }
        j += 1;
    }
    proof {
        assert(j == givens_dim(h0v, tol));
    }
}

/// Solve the rotated upper-triangular system by back-substitution: each
/// coefficient, from the last upward, is the projection entry less the
/// contributions of the later coefficients, over the diagonal.
pub fn upper_triangular_solve(H: &Vec<Vec<u64>>, g: &Vec<u64>) -> (y: Vec<u64>)
    requires
        hessenberg_ok(H@),
        g@.len() >= H@.len(),
    ensures
        y@.len() == H@.len(),
        y@ == uts_state(hview(H@), g@, 0),
{
    let n = H.len();
    let mut y: Vec<u64> = Vec::new();
    let mut t: usize = 0;
    while t < n
        invariant
            t <= n,
            y@.len() == t,
            forall|k: int| 0 <= k < t ==> #[trigger] y@[k] == scalar::ZERO_BITS,
        decreases n - t,
    {
        y.push(scalar::ZERO_BITS);
        t += 1;
    }
    proof {
        assert(y@ =~= zeros_seq(n as int));
        assert(y@ =~= uts_state(hview(H@), g@, n as int));
    }
    let mut idx: usize = n;
    while idx > 0
        invariant
            idx <= n,
            n == H@.len(),
            hessenberg_ok(H@),
            g@.len() >= n,
            y@.len() == n,
            y@ == uts_state(hview(H@), g@, idx as int),
        decreases idx,
    {
        let i = idx - 1;
        let ghost s = uts_state(hview(H@), g@, idx as int);
        let mut acc = g[i];
        let mut j = i + 1;
        while j < n
            invariant
                i < j <= n,
                n == H@.len(),
                hessenberg_ok(H@),
                g@.len() >= n,
                y@.len() == n,
                y@ == s,
                acc == uts_fold(hview(H@), s, g@[i as int], i as int, i as int + 1, j as int),
            decreases n - j,
        {
            proof {
                assert(hview(H@)[j as int] == H@[j as int]@);
            }
            acc = scalar::fsub(acc, scalar::fmul(H[j][i], y[j]));
            j += 1;
        }
        proof {
            assert(hview(H@)[i as int] == H@[i as int]@);
        }
        y[i] = scalar::fdiv(acc, H[i][i]);
        proof {
            assert(y@ =~= s.update(i as int, f64_div(
                uts_fold(hview(H@), s, g@[i as int], i as int, i as int + 1, n as int),
                hview(H@)[i as int][i as int],
            )));
        }
        idx -= 1;
    }
    y
}

/// Dot product of the tail `aa[n..]` against the matching prefix of `w`.
fn tail_dot(aa: &Vec<u64>, w: &Vector, n: usize) -> (r: u64)
    requires
        w.wf(),
        n <= aa@.len(),
        w.m == aa@.len() - n,
    ensures
        r == spec_dot(aa@.subrange(n as int, aa@.len() as int), w@),
{
    let mut sigma: u64 = scalar::ZERO_BITS;
    let mut t: usize = 0;
    let len = aa.len() - n;
    while t < len
        invariant
            w.wf(),
            n <= aa@.len(),
            aa@.len() <= usize::MAX,
            w.m == aa@.len() - n,
            len == aa@.len() - n,
            t <= len,
            sigma == dot_prefix(aa@.subrange(n as int, aa@.len() as int), w@, t as int),
        decreases len - t,
    {
        proof {
            assert(n + t < aa@.len());
        }
        sigma = scalar::fadd(sigma, scalar::fmul(aa[n + t], w.AA[t]));
        t += 1;
    }
    sigma
}

/// Apply the Householder reflector `w` to the tail `aa[n..]`: subtract
/// twice the tail's projection on `w` from it, entry by entry.
fn reflect(aa: &mut Vec<u64>, w: &Vector, n: usize)
    requires
        w.wf(),
        n <= old(aa)@.len(),
        w.m == old(aa)@.len() - n,
    ensures
        final(aa)@.len() == old(aa)@.len(),
        ({
            let sigma = spec_dot(old(aa)@.subrange(n as int, old(aa)@.len() as int), w@);
            let c = f64_mul(scalar::TWO_BITS, sigma);
            forall|i: int|
                0 <= i < old(aa)@.len() ==> final(aa)@[i] == if i < n {
                    old(aa)@[i]
                } else {
                    f64_sub(old(aa)@[i], f64_mul(c, w@[i - n]))
                }
        }),
{
    let sigma = tail_dot(aa, w, n);
    let c = scalar::fmul(scalar::TWO_BITS, sigma);
    let ghost v0 = aa@;
    let len = aa.len() - n;
    let mut i: usize = 0;
    while i < len
        invariant
            w.wf(),
            aa@.len() == v0.len(),
            v0.len() <= usize::MAX,
            n <= v0.len(),
            w.m == v0.len() - n,
            len == v0.len() - n,
            i <= len,
            forall|t: int| 0 <= t < n ==> #[trigger] aa@[t] == v0[t],
            forall|t: int| n + i <= t < v0.len() ==> #[trigger] aa@[t] == v0[t],
            forall|t: int|
                n <= t < n + i ==> #[trigger] aa@[t] == f64_sub(v0[t], f64_mul(c, w@[t - n])),
            c == f64_mul(scalar::TWO_BITS, spec_dot(v0.subrange(n as int, v0.len() as int), w@)),
        decreases len - i,
    {
        proof {
            assert(n + i < v0.len());
        }
        aa[n + i] = scalar::fsub(aa[n + i], scalar::fmul(c, w.AA[i]));
        i += 1;
    }
}

/// Restarted GMRES with modified Gram-Schmidt Arnoldi and optional right
/// preconditioning.  Per cycle: build an orthonormal Krylov basis and its
/// Hessenberg projection (stopping early on a lucky breakdown), rotate the
/// projection upper-triangular, back-substitute, apply the update, and
/// test the recomputed true relative residual.
#[verifier::rlimit(100)]
pub fn GMRES(
    iMax: usize,
    tol: u64,
    restart: usize,
    A: &Matrix,
    b: &Vector,
    preconditioner: Preconditioner,
) -> (r: Result<SolveResult, MatrixError>)
    requires
        A.wf(),
        A.rows_sorted(),
        b.wf(),
        1 <= restart < usize::MAX,
    ensures
        match r {
            Ok(res) => {
                &&& solver_dims_ok(*A, *b)
                &&& solve_result_ok(*A, *b, iMax as int, tol, res)
                &&& residual_reported(*A, *b, res)
            },
            Err(e) => match e {
                MatrixError::DimensionMismatch => !solver_dims_ok(*A, *b),
                MatrixError::NotAvailable => solver_dims_ok(*A, *b) && (preconditioner is Jacobi
                    || preconditioner is SOR || preconditioner is SSOR),
                MatrixError::DiagonalElement => solver_dims_ok(*A, *b) && (preconditioner is GS
                    || preconditioner is SGS || preconditioner is ILU) && exists|i: int|
                    0 <= i < A.m && !preconditioner::good_diag(*A, i),
                _ => false,
            },
        },
{
    if A.num_cols() != A.num_rows() || A.num_rows() != b.num_rows() {
        return Err(MatrixError::DimensionMismatch);
    }
    let m = b.num_rows();
    let bl = b.l2_norm();
    let mut iter: usize = 0;
    let mut residual: u64 = scalar::MAX_BITS;
    let mut x = Vector::zeros(m);
    proof {
        assert(x@ =~= zeros_seq(m as int));
    }
    let P = match preconditioner.from(A) {
        Ok(o) => o,
        Err(e) => {
            return Err(e);
        },
    };
    while iter < iMax && scalar::fgt(residual, tol)
        invariant
            A.wf(),
            b.wf(),
            solver_dims_ok(*A, *b),
            m == b.m,
            bl == spec_l2_norm(b@),
            1 <= restart < usize::MAX,
            x.wf(),
            x.m == m,
            match P {
                Some(M) => M.wf() && M.factored_wf() && M.m == A.m,
                None => true,
            },
            iter <= iMax,
            iter == 0 ==> residual == scalar::MAX_BITS && x@ == zeros_seq(m as int),
            iter > 0 ==> residual == rel_residual(*A, b@, x@),
        decreases iMax - iter,
    {
        let mut V: Vec<Vector> = Vec::new();
        let mut H: Vec<Vec<u64>> = Vec::new();
        let mut g: Vec<u64> = Vec::new();
        let mut t: usize = 0;
        while t < restart + 1
            invariant
                t <= restart + 1,
                restart < usize::MAX,
                g@.len() == t,
            decreases restart + 1 - t,
        {
            g.push(scalar::ZERO_BITS);
            t += 1;
        }
        let ax = match A.multiply(&x) {
            Ok(v) => v,
            Err(e) => {
                proof {
                    assert(false);
                }
                return Err(MatrixError::DimensionMismatch);
            },
        };
        let r0 = b.sub(&ax);
        let g0 = r0.l2_norm();
        g[0] = g0;
        V.push(r0.div_scalar(g0));
        let mut j: usize = 0;
        let mut breakdown: bool = false;
        while j < restart && !breakdown
            invariant
                A.wf(),
                b.wf(),
                solver_dims_ok(*A, *b),
                m == b.m,
                1 <= restart < usize::MAX,
                match P {
                    Some(M) => M.wf() && M.factored_wf() && M.m == A.m,
                    None => true,
                },
                j <= restart,
                H@.len() <= j,
                j > 0 ==> H@.len() >= 1,
                hessenberg_ok(H@),
                g@.len() == restart + 1,
                H@.len() <= V@.len() <= H@.len() + 1,
                breakdown ==> V@.len() == H@.len() && H@.len() >= 1,
                !breakdown ==> V@.len() == H@.len() + 1 && H@.len() == j,
                forall|tv: int|
                    0 <= tv < V@.len() ==> (#[trigger] V@[tv]).wf() && V@[tv].m == m,
            decreases restart - j,
        {
            let vin = match &P {
                Some(M) => {
                    match preconditioner::LU_solve(M, &V[j]) {
                        Ok(v) => v,
                        Err(e) => {
                            proof {
                                assert(false);
                            }
                            return Err(MatrixError::DimensionMismatch);
                        },
                    }
                },
                None => Vector::from(crate::matrix::copy_vec(&V[j].AA)),
            };
            let mut w = match A.multiply(&vin) {
                Ok(v) => v,
                Err(e) => {
                    proof {
                        assert(false);
                    }
                    return Err(MatrixError::DimensionMismatch);
                },
            };
            let mut h: Vec<u64> = Vec::new();
            let mut t: usize = 0;
            while t < j + 2
                invariant
                    t <= j + 2,
                    j < restart < usize::MAX,
                    h@.len() == t,
                decreases j + 2 - t,
            {
                h.push(scalar::ZERO_BITS);
                t += 1;
            }
            let mut i: usize = 0;
            while i < j + 1
                invariant
                    A.wf(),
                    m == b.m,
                    i <= j + 1,
                    j < restart < usize::MAX,
                    h@.len() == j + 2,
                    w.wf(),
                    w.m == m,
                    V@.len() == j + 1,
                    forall|tv: int|
                        0 <= tv < V@.len() ==> (#[trigger] V@[tv]).wf() && V@[tv].m == m,
                decreases j + 1 - i,
            {
                let hi = w.dot(&V[i]);
                h[i] = hi;
                w.sub_assign(&V[i].scale(hi));
                i += 1;
            }
            let hlast = w.l2_norm();
            h[j + 1] = hlast;
            H.push(h);
            if scalar::flt(scalar::fabs(hlast), tol) {
                breakdown = true;
            } else {
                V.push(w.div_scalar(hlast));
            }
            j += 1;
        }
        Givens_rotation(&mut H, &mut g, tol);
        let y = upper_triangular_solve(&H, &g);
        let mut z = Vector::zeros(m);
        let mut i: usize = 0;
        while i < H.len()
            invariant
                i <= H@.len(),
                H@.len() <= V@.len(),
                y@.len() == H@.len(),
                z.wf(),
                z.m == m,
                forall|tv: int|
                    0 <= tv < V@.len() ==> (#[trigger] V@[tv]).wf() && V@[tv].m == m,
            decreases H@.len() - i,
        {
            z.add_assign(&V[i].scale(y[i]));
            i += 1;
        }
        x = match &P {
            Some(M) => {
                let u = match preconditioner::LU_solve(M, &z) {
                    Ok(v) => v,
                    Err(e) => {
                        proof {
                            assert(false);
                        }
                        return Err(MatrixError::DimensionMismatch);
                    },
                };
                x.add(&u)
            },
            None => x.add(&z),
        };
        residual = compute_residual(A, b, &x, bl);
        iter += 1;
    }
    let converged = scalar::fle(residual, tol);
    Ok(SolveResult { x, iter, residual, converged })
}

/// Restarted GMRES built on Householder reflectors instead of
/// Gram-Schmidt: the reflectors form the orthogonal basis implicitly, the
/// Hessenberg columns are read off the reflected images, and rotation,
/// back-substitution and the preconditioned update proceed as in GMRES.
/// When no reflector remains (the active tail is empty, reachable once the
/// restart size reaches the system size), the last Hessenberg column is
/// taken from the image itself and basis growth stops, like the lucky
/// breakdown.
#[verifier::rlimit(100)]
pub fn HGMRES(
    iMax: usize,
    tol: u64,
    restart: usize,
    A: &Matrix,
    b: &Vector,
    preconditioner: Preconditioner,
) -> (r: Result<SolveResult, MatrixError>)
    requires
        A.wf(),
        A.rows_sorted(),
        b.wf(),
        1 <= restart < usize::MAX,
        b.m >= 1,
    ensures
        match r {
            Ok(res) => {
                &&& solver_dims_ok(*A, *b)
                &&& solve_result_ok(*A, *b, iMax as int, tol, res)
                &&& residual_reported(*A, *b, res)
            },
            Err(e) => match e {
                MatrixError::DimensionMismatch => !solver_dims_ok(*A, *b),
                MatrixError::NotAvailable => solver_dims_ok(*A, *b) && (preconditioner is Jacobi
                    || preconditioner is SOR || preconditioner is SSOR),
                MatrixError::DiagonalElement => solver_dims_ok(*A, *b) && (preconditioner is GS
                    || preconditioner is SGS || preconditioner is ILU) && exists|i: int|
                    0 <= i < A.m && !preconditioner::good_diag(*A, i),
                _ => false,
            },
        },
{
    if A.num_cols() != A.num_rows() || A.num_rows() != b.num_rows() {
        return Err(MatrixError::DimensionMismatch);
    }
    let m = b.num_rows();
    let bl = b.l2_norm();
    let mut iter: usize = 0;
    let mut residual: u64 = scalar::MAX_BITS;
    let mut x = Vector::zeros(m);
    proof {
        assert(x@ =~= zeros_seq(m as int));
    }
    let P = match preconditioner.from(A) {
        Ok(o) => o,
        Err(e) => {
            return Err(e);
        },
    };
    while iter < iMax && scalar::fgt(residual, tol)
        invariant
            A.wf(),
            b.wf(),
            solver_dims_ok(*A, *b),
            m == b.m,
            bl == spec_l2_norm(b@),
            1 <= restart < usize::MAX,
            m >= 1,
            x.wf(),
            x.m == m,
            match P {
                Some(M) => M.wf() && M.factored_wf() && M.m == A.m,
                None => true,
            },
            iter <= iMax,
            iter == 0 ==> residual == scalar::MAX_BITS && x@ == zeros_seq(m as int),
            iter > 0 ==> residual == rel_residual(*A, b@, x@),
        decreases iMax - iter,
    {
        let mut W: Vec<Vector> = Vec::new();
        let mut H: Vec<Vec<u64>> = Vec::new();
        let mut g: Vec<u64> = Vec::new();
        let mut t: usize = 0;
        while t < restart + 1
            invariant
                restart < usize::MAX,
                t <= restart + 1,
                g@.len() == t,
            decreases restart + 1 - t,
        {
            g.push(scalar::ZERO_BITS);
            t += 1;
        }
        let ax = match A.multiply(&x) {
            Ok(v) => v,
            Err(e) => {
                proof {
                    assert(false);
                }
                return Err(MatrixError::DimensionMismatch);
            },
        };
        let mut z = b.sub(&ax);
        let mut j: usize = 0;
        let mut breakdown: bool = false;
        while j < restart + 1 && !breakdown
            invariant
                A.wf(),
                b.wf(),
                solver_dims_ok(*A, *b),
                m == b.m,
                1 <= restart < usize::MAX,
                m >= 1,
                match P {
                    Some(M) => M.wf() && M.factored_wf() && M.m == A.m,
                    None => true,
                },
                j <= restart + 1,
                !breakdown ==> W@.len() == j && j <= m,
                W@.len() <= j,
                W@.len() >= H@.len(),
                forall|tv: int|
                    0 <= tv < W@.len() ==> (#[trigger] W@[tv]).wf() && W@[tv].m == m - tv,
                H@.len() == if j >= 1 {
                    j - 1
                } else {
                    0
                },
                H@.len() < m || (breakdown && H@.len() == m),
                hessenberg_ok(H@),
                g@.len() == restart + 1,
                z.wf(),
                z.m == m,
                breakdown ==> H@.len() >= 1,
            decreases restart + 1 - j,
        {
            match Householder_vec(j, &z) {
                Some(w) => {
                    proof {
                        assert(j < m);
                    }
                    W.push(w);
                    if j != 0 {
                        let mut h: Vec<u64> = Vec::new();
                        let mut t: usize = 0;
                        while t < j + 1
                            invariant
                                t <= j + 1,
                                j < restart + 1,
                                z.wf(),
                                z.m == m,
                                j < m,
                                h@.len() == t,
                            decreases j + 1 - t,
                        {
                            h.push(z.AA[t]);
                            t += 1;
                        }
                        let sigma = tail_dot(&z.AA, &W[j], j);
                        let hj = scalar::fsub(
                            z.AA[j],
                            scalar::fmul(scalar::fmul(scalar::TWO_BITS, sigma), W[j].AA[0]),
                        );
                        h[j] = hj;
                        H.push(h);
                        if scalar::flt(scalar::fabs(hj), tol) {
                            breakdown = true;
                        }
                    } else {
                        g[0] = scalar::fmul(scalar::fneg(scalar::fsignum(z.AA[0])), z.l2_norm());
                    }
                    if !breakdown {
                        let mut v = Vector::zeros(m);
                        v.AA[j] = scalar::ONE_BITS;
                        let mut nidx: usize = j + 1;
                        while nidx > 0
                            invariant
                                nidx <= j + 1,
                                j < m,
                                m == b.m,
                                v.wf(),
                                v.m == m,
                                W@.len() == j + 1,
                                forall|tv: int|
                                    0 <= tv < W@.len() ==> (#[trigger] W@[tv]).wf() && W@[tv].m == m - tv,
                            decreases nidx,
                        {
                            let n = nidx - 1;
                            reflect(&mut v.AA, &W[n], n);
                            nidx -= 1;
                        }
                        let vin = match &P {
                            Some(M) => {
                                match preconditioner::LU_solve(M, &v) {
                                    Ok(u) => u,
                                    Err(e) => {
                                        proof {
                                            assert(false);
                                        }
                                        return Err(MatrixError::DimensionMismatch);
                                    },
                                }
                            },
                            None => v,
                        };
                        z = match A.multiply(&vin) {
                            Ok(u) => u,
                            Err(e) => {
                                proof {
                                    assert(false);
                                }
                                return Err(MatrixError::DimensionMismatch);
                            },
                        };
                        let mut n: usize = 0;
                        while n < j + 1
                            invariant
                                n <= j + 1,
                                j < m,
                                m == b.m,
                                z.wf(),
                                z.m == m,
                                W@.len() == j + 1,
                                forall|tv: int|
                                    0 <= tv < W@.len() ==> (#[trigger] W@[tv]).wf() && W@[tv].m == m - tv,
                            decreases j + 1 - n,
                        {
                            reflect(&mut z.AA, &W[n], n);
                            n += 1;
                        }
                    }
                },
                None => {
                    // no reflector is left: the active tail is empty, so the
                    // remaining Hessenberg column is the image itself (padded
                    // with one zero) and basis growth stops
                    proof {
                        assert(j == m);
                        assert(j >= 1);
                    }
                    let mut tmp = crate::matrix::copy_vec(&z.AA);
                    tmp.push(scalar::ZERO_BITS);
                    H.push(tmp);
                    breakdown = true;
                    proof {
                        assert forall|kk: int| 0 <= kk < H@.len() implies #[trigger] H@[kk]@.len()
                            == kk + 2 by {}
                    }
                },
            }
            j += 1;
        }
        Givens_rotation(&mut H, &mut g, tol);
        let y = upper_triangular_solve(&H, &g);
        let mut z2 = Vector::zeros(m);
        let mut nidx: usize = H.len();
        while nidx > 0
            invariant
                nidx <= H@.len(),
                H@.len() <= m,
                m == b.m,
                y@.len() == H@.len(),
                z2.wf(),
                z2.m == m,
                W@.len() >= H@.len(),
                forall|tv: int|
                    0 <= tv < W@.len() ==> (#[trigger] W@[tv]).wf() && W@[tv].m == m - tv,
            decreases nidx,
        {
            let n = nidx - 1;
            z2.AA[n] = scalar::fadd(z2.AA[n], y[n]);
            reflect(&mut z2.AA, &W[n], n);
            nidx -= 1;
        }
        x = match &P {
            Some(M) => {
                let u = match preconditioner::LU_solve(M, &z2) {
                    Ok(v) => v,
                    Err(e) => {
                        proof {
                            assert(false);
                        }
                        return Err(MatrixError::DimensionMismatch);
                    },
                };
                x.add(&u)
            },
            None => x.add(&z2),
        };
        residual = compute_residual(A, b, &x, bl);
        iter += 1;
    }
    let converged = scalar::fle(residual, tol);
    Ok(SolveResult { x, iter, residual, converged })
}

} // verus!
