use pss::galois::{GfTables, GF};
use pss::math::{
    binary_super_inv_matrix, lagrange_coeffs, rs_gen_mat, super_inv_matrix, Combination,
    SupMatError,
};
use pss::matrix::Matrix;

fn gf(v: u32) -> GF {
    GF { val: v }
}

fn gfv(vals: &[u32]) -> Vec<GF> {
    vals.iter().map(|&v| GF { val: v }).collect()
}

/// Evaluate the polynomial given by `coeffs` (constant term first) at `x`.
fn poly_eval(t: &GfTables, coeffs: &[GF], x: GF) -> GF {
    let mut acc = GF::zero();
    for c in coeffs.iter().rev() {
        acc = t.add(t.mul(acc, x), *c);
    }
    acc
}

#[test]
fn lagrange_unit_row() {
    let t = GF::init(8).unwrap();
    let cpos = gfv(&[0, 1, 2]);
    let npos = gfv(&[1]);
    let m = lagrange_coeffs(&t, &cpos, &npos);
    assert_eq!(m.num_rows(), 1);
    assert_eq!(m.num_cols(), 3);
    assert_eq!(m.get(0, 0), gf(0));
    assert_eq!(m.get(0, 1), gf(1));
    assert_eq!(m.get(0, 2), gf(0));
}

#[test]
fn lagrange_interpolates_polynomials() {
    let t = GF::init(8).unwrap();
    // A degree-2 polynomial: 7 + 3x + 5x^2.
    let coeffs = gfv(&[7, 3, 5]);
    let cpos = gfv(&[0, 1, 2]);
    let npos = gfv(&[3, 9, 200]);
    let evals: Vec<GF> = cpos.iter().map(|&x| poly_eval(&t, &coeffs, x)).collect();
    let m = lagrange_coeffs(&t, &cpos, &npos);
    let out = m.dot(&t, &evals);
    for (i, &x) in npos.iter().enumerate() {
        assert_eq!(out[i], poly_eval(&t, &coeffs, x));
    }
}

#[test]
fn lagrange_mixed_targets() {
    // Targets that lie inside and outside the evaluation set at once.
    let t = GF::init(8).unwrap();
    let coeffs = gfv(&[1, 1]);
    let cpos = gfv(&[5, 6]);
    let npos = gfv(&[6, 7]);
    let evals: Vec<GF> = cpos.iter().map(|&x| poly_eval(&t, &coeffs, x)).collect();
    let m = lagrange_coeffs(&t, &cpos, &npos);
    let out = m.dot(&t, &evals);
    assert_eq!(out[0], poly_eval(&t, &coeffs, gf(6)));
    assert_eq!(out[1], poly_eval(&t, &coeffs, gf(7)));
}

#[test]
fn rs_gen_mat_entries() {
    let t = GF::init(8).unwrap();
    let m = rs_gen_mat(&t, 3, 5);
    assert_eq!(m.num_rows(), 5);
    assert_eq!(m.num_cols(), 3);
    for k in 0..5u32 {
        let b = gf(k + 1);
        assert_eq!(m.get(k as usize, 0), b);
        let mut p = b;
        for i in 1..3usize {
            p = t.mul(p, b);
            assert_eq!(m.get(k as usize, i), p);
        }
    }
}

#[test]
fn super_inv_matrix_is_transposed_rs() {
    let t = GF::init(8).unwrap();
    let m = super_inv_matrix(&t, 6, 4);
    let g = rs_gen_mat(&t, 4, 6);
    assert_eq!(m.num_rows(), 4);
    assert_eq!(m.num_cols(), 6);
    for i in 0..4 {
        for j in 0..6 {
            assert_eq!(m.get(i, j), g.get(j, i));
        }
    }
}

/// The determinant of a square matrix of field elements, by elimination.
fn determinant(t: &GfTables, rows: &mut Vec<Vec<GF>>) -> GF {
    let n = rows.len();
    let mut det = GF::one();
    for col in 0..n {
        let mut pivot = None;
        for r in col..n {
            if !rows[r][col].is_zero() {
                pivot = Some(r);
                break;
            }
        }
        let p = match pivot {
            Some(p) => p,
            None => return GF::zero(),
        };
        rows.swap(col, p);
        let pv = rows[col][col];
        det = t.mul(det, pv);
        for r in (col + 1)..n {
            if rows[r][col].is_zero() {
                continue;
            }
            let factor = t.div(rows[r][col], pv);
            for c in col..n {
                let sub = t.mul(factor, rows[col][c]);
                rows[r][c] = t.add(rows[r][c], sub);
            }
        }
    }
    det
}

#[test]
fn super_inv_minors_are_invertible() {
    let t = GF::init(8).unwrap();
    let num_inp = 7;
    let num_out = 3;
    let m = super_inv_matrix(&t, num_inp, num_out);
    // Every choice of num_out columns must give an invertible minor.
    let mut cols = vec![0usize; num_out];
    let mut checked = 0;
    for a in 0..num_inp {
        for b in (a + 1)..num_inp {
            for c in (b + 1)..num_inp {
                cols[0] = a;
                cols[1] = b;
                cols[2] = c;
                let mut minor: Vec<Vec<GF>> = (0..num_out)
                    .map(|i| cols.iter().map(|&j| m.get(i, j)).collect())
                    .collect();
                let det = determinant(&t, &mut minor);
                assert!(!det.is_zero());
                checked += 1;
            }
        }
    }
    assert_eq!(checked, 35);
}

#[test]
fn binary_supmat_parses_and_transposes() {
    let text = b"0 1 1\n1 0 1\n";
    let m = binary_super_inv_matrix(text).unwrap();
    // Two rows of three entries come back as three rows of two.
    assert_eq!(m.num_rows(), 3);
    assert_eq!(m.num_cols(), 2);
    assert_eq!(m.get(0, 0), gf(0));
    assert_eq!(m.get(0, 1), gf(1));
    assert_eq!(m.get(1, 0), gf(1));
    assert_eq!(m.get(1, 1), gf(0));
    assert_eq!(m.get(2, 0), gf(1));
    assert_eq!(m.get(2, 1), gf(1));
}

#[test]
fn binary_supmat_without_trailing_newline() {
    let m = binary_super_inv_matrix(b"1 0\n0 1").unwrap();
    assert_eq!(m.num_rows(), 2);
    assert_eq!(m.num_cols(), 2);
}

#[test]
fn binary_supmat_rejects_bad_input() {
    assert!(matches!(
        binary_super_inv_matrix(b"0 2\n"),
        Err(SupMatError::NonBinary)
    ));
    assert!(matches!(
        binary_super_inv_matrix(b"0 1\n1\n"),
        Err(SupMatError::Ragged)
    ));
    assert!(matches!(binary_super_inv_matrix(b""), Err(SupMatError::Empty)));
    assert!(matches!(
        binary_super_inv_matrix(b"0  1\n"),
        Err(SupMatError::NonBinary)
    ));
    assert!(matches!(
        binary_super_inv_matrix(b"01\n"),
        Err(SupMatError::NonBinary)
    ));
}

#[test]
fn matrix_dot_and_transpose() {
    let t = GF::init(8).unwrap();
    let m = Matrix::from_rows(vec![gfv(&[1, 2]), gfv(&[3, 4]), gfv(&[0, 1])], 2);
    let v = gfv(&[5, 6]);
    let out = m.dot(&t, &v);
    assert_eq!(out.len(), 3);
    assert_eq!(out[0], t.add(t.mul(gf(1), gf(5)), t.mul(gf(2), gf(6))));
    assert_eq!(out[2], gf(6));
    let tr = m.transpose(&t);
    assert_eq!(tr.num_rows(), 2);
    assert_eq!(tr.num_cols(), 3);
    assert_eq!(tr.get(0, 1), gf(3));
    assert_eq!(tr.get(1, 2), gf(1));
}

#[test]
fn combination_selects_in_order() {
    let c = Combination::new(vec![2, 0, 0, 1]);
    assert_eq!(c.len(), 4);
    let out = c.apply(&vec![10u32, 20, 30]);
    assert_eq!(out, vec![30, 10, 10, 20]);
}

#[test]
fn combination_from_instance_later_index_wins() {
    let inp = gfv(&[4, 7, 4, 9]);
    let out = gfv(&[4, 9]);
    let c = Combination::from_instance(&inp, &out);
    let applied = c.apply(&inp);
    assert_eq!(applied, out);
    // The duplicated element 4 resolves to its later position.
    let idx = c.apply(&vec![0usize, 1, 2, 3]);
    assert_eq!(idx, vec![2, 3]);
}

#[test]
fn binary_supmat_single_cell() {
    let m = binary_super_inv_matrix(b"1\n").unwrap();
    assert_eq!(m.num_rows(), 1);
    assert_eq!(m.num_cols(), 1);
    assert_eq!(m.get(0, 0), gf(1));
}
