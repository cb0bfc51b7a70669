use lu_server::lu::{LuMachine, LuOp};
use lu_server::matrix::Matrix;

fn matrix_from(values: &[&[f64]]) -> Matrix {
    let cells: Vec<Vec<Option<u64>>> = values
        .iter()
        .map(|r| r.iter().map(|v| Some(v.to_bits())).collect())
        .collect();
    Matrix::new(cells)
}

fn eval(op: LuOp) -> u64 {
    match op {
        LuOp::MulSub { x, y, z } => {
            (f64::from_bits(x) - f64::from_bits(y) * f64::from_bits(z)).to_bits()
        }
        LuOp::Div { num, den } => (f64::from_bits(num) / f64::from_bits(den)).to_bits(),
    }
}

fn drive(mut eng: LuMachine) -> (Matrix, Matrix) {
    while let Some(op) = eng.pending() {
        let r = eval(op);
        eng.supply(r);
    }
    eng.finish()
}

fn entry(m: &Matrix, i: usize, j: usize) -> f64 {
    f64::from_bits(m.get(i, j))
}

#[test]
fn factorizes_the_identity_into_identity_factors() {
    let a = matrix_from(&[&[1.0, 0.0], &[0.0, 1.0]]);
    let (l, u) = drive(a.lu());
    for i in 0..2 {
        for j in 0..2 {
            let expected = if i == j { 1.0 } else { 0.0 };
            assert_eq!(entry(&l, i, j), expected);
            assert_eq!(entry(&u, i, j), expected);
        }
    }
}

#[test]
fn factorizes_a_two_by_two_grid() {
    let a = matrix_from(&[&[4.0, 3.0], &[6.0, 3.0]]);
    let (l, u) = drive(a.lu());
    assert_eq!(entry(&l, 0, 0), 1.0);
    assert_eq!(entry(&l, 0, 1), 0.0);
    assert_eq!(entry(&l, 1, 0), 1.5);
    assert_eq!(entry(&l, 1, 1), 1.0);
    assert_eq!(entry(&u, 0, 0), 4.0);
    assert_eq!(entry(&u, 0, 1), 3.0);
    assert_eq!(entry(&u, 1, 0), 0.0);
    assert_eq!(entry(&u, 1, 1), -1.5);
}

#[test]
fn factors_multiply_back_to_the_input_within_tolerance() {
    let values: &[&[f64]] = &[&[4.0, -2.0, 1.0], &[3.0, 6.0, -4.0], &[2.0, 1.0, 8.0]];
    let a = matrix_from(values);
    let (l, u) = drive(a.lu());
    let n = 3;
    for i in 0..n {
        for j in 0..n {
            let mut sum = 0.0;
            for k in 0..n {
                sum += entry(&l, i, k) * entry(&u, k, j);
            }
            assert!((sum - values[i][j]).abs() <= 1e-9, "entry {i},{j}: {sum}");
        }
    }
    for i in 0..n {
        assert_eq!(entry(&l, i, i), 1.0);
        for j in 0..n {
            if j > i {
                assert_eq!(entry(&l, i, j), 0.0);
            }
            if j < i {
                assert_eq!(entry(&u, i, j), 0.0);
            }
        }
    }
}

#[test]
fn zero_pivot_flows_through_as_non_finite_entries() {
    let a = matrix_from(&[&[0.0, 1.0], &[1.0, 0.0]]);
    let (l, u) = drive(a.lu());
    assert!(!entry(&l, 1, 0).is_finite());
    assert!(!entry(&l, 1, 1).is_finite());
    assert_eq!(entry(&u, 0, 0), 0.0);
    assert_eq!(entry(&u, 0, 1), 1.0);
}

#[test]
fn the_one_call_driver_matches_the_step_driver() {
    let a = matrix_from(&[&[4.0, 3.0], &[6.0, 3.0]]);
    let (l1, u1) = drive(a.lu());
    let (l2, u2) = a.lu_run(eval);
    for i in 0..2 {
        for j in 0..2 {
            assert_eq!(l1.get(i, j), l2.get(i, j));
            assert_eq!(u1.get(i, j), u2.get(i, j));
        }
    }
}

#[test]
fn empty_grid_factorizes_into_empty_factors() {
    let a = Matrix::zero(0);
    let (l, u) = drive(a.lu());
    assert_eq!(l.n(), 0);
    assert_eq!(u.n(), 0);
}

#[test]
fn unparsed_cells_become_zero_entries() {
    let cells = vec![vec![Some(2.0f64.to_bits()), None], vec![None, Some(5.0f64.to_bits())]];
    let m = Matrix::new(cells);
    assert_eq!(f64::from_bits(m.get(0, 1)), 0.0);
    assert_eq!(f64::from_bits(m.get(1, 0)), 0.0);
    assert_eq!(f64::from_bits(m.get(0, 0)), 2.0);
}

#[test]
fn zero_builds_an_all_zero_grid() {
    let m = Matrix::zero(3);
    assert_eq!(m.n(), 3);
    for i in 0..3 {
        for j in 0..3 {
            assert_eq!(f64::from_bits(m.get(i, j)), 0.0);
        }
    }
}
