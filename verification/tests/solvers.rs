use jm_math::matrix::{Matrix, MatrixError};
use jm_math::msolver::{Gauss_Seidel, CG, GMRES, HGMRES};
use jm_math::preconditioner::{level_schduling, Jacobi, LU_solve, Preconditioner, GS, ILU, SGS, SOR};
use jm_math::vector::Vector;

fn fb(x: f64) -> u64 {
    x.to_bits()
}

fn bf(u: u64) -> f64 {
    f64::from_bits(u)
}

fn vecb(xs: &[f64]) -> Vec<u64> {
    xs.iter().map(|&x| x.to_bits()).collect()
}

fn tri_diagonal(m: usize) -> Matrix {
    let mut aa: Vec<u64> = vec![fb(2.0), fb(1.0)];
    let mut ja: Vec<usize> = vec![0, 1];
    let mut ia: Vec<usize> = vec![0];
    for i in 1..m - 1 {
        ia.push(aa.len());
        aa.push(fb(1.0));
        aa.push(fb(2.0));
        aa.push(fb(1.0));
        ja.push(i - 1);
        ja.push(i);
        ja.push(i + 1);
    }
    ia.push(aa.len());
    aa.push(fb(1.0));
    aa.push(fb(2.0));
    ja.push(m - 2);
    ja.push(m - 1);
    ia.push(aa.len());
    Matrix::from(aa, ja, ia)
}

fn residual(a: &Matrix, b: &Vector, x: &Vector) -> f64 {
    let ax = a.multiply(x).unwrap();
    let mut s = 0.0f64;
    let mut bs = 0.0f64;
    for i in 0..b.num_rows() {
        let d = bf(b.AA()[i]) - bf(ax.AA()[i]);
        s += d * d;
        bs += bf(b.AA()[i]) * bf(b.AA()[i]);
    }
    s.sqrt() / bs.sqrt()
}

#[test]
fn cg_tridiagonal_converges_to_ones() {
    let a = tri_diagonal(5);
    let b = Vector::from(vecb(&[3.0, 4.0, 4.0, 4.0, 3.0]));
    let res = CG(1000, fb(1.0e-10), &a, &b).unwrap();
    assert!(res.converged);
    assert!(res.iter < 5);
    for i in 0..5 {
        assert!((bf(res.x.AA()[i]) - 1.0).abs() < 1.0e-8);
    }
}

#[test]
fn cg_reported_convergence_meets_tolerance() {
    let a = tri_diagonal(9);
    let b = a.multiply(&Vector::from(vecb(&[1.0; 9]))).unwrap();
    let res = CG(1000, fb(1.0e-10), &a, &b).unwrap();
    assert!(res.iter < 1000);
    assert!(residual(&a, &b, &res.x) <= 1.0e-10);
}

#[test]
fn gauss_seidel_converges() {
    let a = tri_diagonal(6);
    let b = a.multiply(&Vector::from(vecb(&[1.0; 6]))).unwrap();
    let res = Gauss_Seidel(5000, fb(1.0e-9), &a, &b).unwrap();
    assert!(res.converged);
    assert!(res.iter < 5000);
    assert!(residual(&a, &b, &res.x) <= 1.0e-9);
    for i in 0..6 {
        assert!((bf(res.x.AA()[i]) - 1.0).abs() < 1.0e-6);
    }
}

#[test]
fn gmres_converges_plain_and_preconditioned() {
    let a = tri_diagonal(8);
    let b = a.multiply(&Vector::from(vecb(&[1.0; 8]))).unwrap();
    for pre in [
        Preconditioner::NoPrecon,
        Preconditioner::GS,
        Preconditioner::SGS,
        Preconditioner::ILU,
    ] {
        let res = GMRES(1000, fb(1.0e-10), 4, &a, &b, pre).unwrap();
        assert!(res.converged, "gmres failed to converge");
        assert!(res.iter < 1000);
        assert!(residual(&a, &b, &res.x) <= 1.0e-10);
        for i in 0..8 {
            assert!((bf(res.x.AA()[i]) - 1.0).abs() < 1.0e-6);
        }
    }
}

#[test]
fn hgmres_converges() {
    let a = tri_diagonal(8);
    let b = a.multiply(&Vector::from(vecb(&[1.0; 8]))).unwrap();
    let res = HGMRES(1000, fb(1.0e-10), 4, &a, &b, Preconditioner::GS).unwrap();
    assert!(res.converged);
    assert!(res.iter < 1000);
    assert!(residual(&a, &b, &res.x) <= 1.0e-10);
}

#[test]
fn gmres_and_hgmres_agree() {
    let a = tri_diagonal(6);
    let b = Vector::from(vecb(&[1.5, -2.0, 0.25, 4.0, -1.0, 3.0]));
    let tol = fb(1.0e-11);
    let r1 = GMRES(1000, tol, 3, &a, &b, Preconditioner::NoPrecon).unwrap();
    let r2 = HGMRES(1000, tol, 3, &a, &b, Preconditioner::NoPrecon).unwrap();
    assert!(r1.converged && r2.converged);
    for i in 0..6 {
        assert!((bf(r1.x.AA()[i]) - bf(r2.x.AA()[i])).abs() < 1.0e-7);
    }
}

#[test]
fn gs_factor_solve_reproduces_ones_lower_triangular() {
    // lower-triangular system: factor and substitution invert it exactly
    let aa = vecb(&[2.0, 1.0, 3.0, 1.0, 1.0, 4.0]);
    let ja: Vec<usize> = vec![0, 0, 1, 0, 1, 2];
    let ia: Vec<usize> = vec![0, 1, 3, 6];
    let a = Matrix::from(aa, ja, ia);
    let ones = Vector::from(vecb(&[1.0; 3]));
    let b = a.multiply(&ones).unwrap();
    let m = GS(&a).unwrap();
    let x = LU_solve(&m, &b).unwrap();
    for i in 0..3 {
        assert!((bf(x.AA()[i]) - 1.0).abs() < 1.0e-12);
    }
}

#[test]
fn sgs_factor_shares_pattern() {
    let a = tri_diagonal(4);
    let m = SGS(&a).unwrap();
    assert_eq!(m.JA(), a.JA());
    assert_eq!(m.IA(), a.IA());
    let uptr = m.UPTR().unwrap();
    for i in 0..4 {
        assert_eq!(a.JA()[uptr[i]], i);
        assert_eq!(bf(m.AA()[uptr[i]]), 0.5);
    }
}

#[test]
fn ilu_records_reciprocal_diagonals() {
    let a = tri_diagonal(4);
    let m = ILU(&a).unwrap();
    let uptr = m.UPTR().unwrap();
    for i in 0..4 {
        assert_eq!(a.JA()[uptr[i]], i);
        assert_eq!(bf(m.AA()[uptr[i]]), 0.5);
    }
}

#[test]
fn jacobi_divides_by_diagonal() {
    let a = tri_diagonal(3);
    let b = Vector::from(vecb(&[2.0, 4.0, 8.0]));
    let x = Jacobi(&a, &b).unwrap();
    assert_eq!(bf(x.AA()[0]), 1.0);
    assert_eq!(bf(x.AA()[1]), 2.0);
    assert_eq!(bf(x.AA()[2]), 4.0);
}

#[test]
fn missing_diagonal_is_reported() {
    // second row has no diagonal entry
    let aa = vecb(&[1.0, 2.0]);
    let ja: Vec<usize> = vec![0, 0];
    let ia: Vec<usize> = vec![0, 1, 2];
    let a = Matrix::from(aa, ja, ia);
    assert_eq!(GS(&a).unwrap_err(), MatrixError::DiagonalElement);
    assert_eq!(SGS(&a).unwrap_err(), MatrixError::DiagonalElement);
    assert_eq!(ILU(&a).unwrap_err(), MatrixError::DiagonalElement);
    let b = Vector::from(vecb(&[1.0, 1.0]));
    assert_eq!(Jacobi(&a, &b).unwrap_err(), MatrixError::DiagonalElement);
}

#[test]
fn zero_diagonal_is_reported() {
    let aa = vecb(&[0.0, 1.0, 1.0, 2.0]);
    let ja: Vec<usize> = vec![0, 1, 0, 1];
    let ia: Vec<usize> = vec![0, 2, 4];
    let a = Matrix::from(aa, ja, ia);
    assert_eq!(GS(&a).unwrap_err(), MatrixError::DiagonalElement);
}

#[test]
fn unfactored_solve_is_refused() {
    let a = tri_diagonal(3);
    let b = Vector::from(vecb(&[1.0, 1.0, 1.0]));
    assert_eq!(LU_solve(&a, &b).unwrap_err(), MatrixError::NotFactored);
}

#[test]
fn unavailable_preconditioners_fail_fast() {
    let a = tri_diagonal(4);
    assert_eq!(SOR(&a).unwrap_err(), MatrixError::NotAvailable);
    assert_eq!(
        Preconditioner::SOR.from(&a).unwrap_err(),
        MatrixError::NotAvailable
    );
    assert_eq!(
        Preconditioner::SSOR.from(&a).unwrap_err(),
        MatrixError::NotAvailable
    );
    assert_eq!(
        Preconditioner::Jacobi.from(&a).unwrap_err(),
        MatrixError::NotAvailable
    );
    let b = a.multiply(&Vector::from(vecb(&[1.0; 4]))).unwrap();
    assert_eq!(
        GMRES(10, fb(1.0e-8), 2, &a, &b, Preconditioner::SOR).unwrap_err(),
        MatrixError::NotAvailable
    );
}

#[test]
fn solver_dimension_mismatch_is_reported() {
    let a = tri_diagonal(4);
    let b = Vector::from(vecb(&[1.0, 1.0]));
    assert_eq!(CG(10, fb(1.0e-8), &a, &b).unwrap_err(), MatrixError::DimensionMismatch);
    assert_eq!(
        Gauss_Seidel(10, fb(1.0e-8), &a, &b).unwrap_err(),
        MatrixError::DimensionMismatch
    );
    assert_eq!(
        GMRES(10, fb(1.0e-8), 2, &a, &b, Preconditioner::NoPrecon).unwrap_err(),
        MatrixError::DimensionMismatch
    );
}

#[test]
fn jm_cfd_add() {
    assert_eq!(jm_math::add(2, 3), 5);
}

#[test]
fn level_scheduling_solves_lower_part() {
    let aa = vecb(&[2.0, 1.0, 3.0, 1.0, 1.0, 4.0]);
    let ja: Vec<usize> = vec![0, 0, 1, 0, 1, 2];
    let ia: Vec<usize> = vec![0, 1, 3, 6];
    let a = Matrix::from(aa, ja, ia);
    let b = a.multiply(&Vector::from(vecb(&[1.0; 3]))).unwrap();
    let x = level_schduling(&a, &b).unwrap();
    for i in 0..3 {
        assert!((bf(x.AA()[i]) - 1.0).abs() < 1.0e-12);
    }
}

#[test]
fn hgmres_restart_at_system_size_breaks_down_gracefully() {
    // restart >= m drives the walk past the last reflector: the no-reflector
    // breakdown takes the final Hessenberg column from the image itself
    let a = tri_diagonal(4);
    let b = a.multiply(&Vector::from(vecb(&[1.0; 4]))).unwrap();
    let res = HGMRES(100, fb(1.0e-10), 6, &a, &b, Preconditioner::NoPrecon).unwrap();
    assert!(res.converged);
    assert!(residual(&a, &b, &res.x) <= 1.0e-8);
}

#[test]
fn nan_residual_is_not_convergence() {
    // a zero right-hand side gives 0/0 residuals; the flag must not claim
    // convergence on a NaN residual
    let a = tri_diagonal(3);
    let b = Vector::from(vecb(&[0.0, 0.0, 0.0]));
    let res = CG(10, fb(1.0e-10), &a, &b).unwrap();
    assert!(f64::from_bits(res.residual).is_nan());
    assert!(!res.converged);
}
