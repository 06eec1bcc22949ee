use linalg::combinatorics::{parity, permutations};
use linalg::matrix::Matrix;
use linalg::vector::VecD;

fn grid(rows: &[&[f64]]) -> Matrix<f64> {
    Matrix::from_rows(rows.iter().map(|r| r.to_vec()).collect()).unwrap()
}

fn det(m: &Matrix<f64>) -> Option<f64> {
    m.determinant(0.0, 1.0, |x, y| x + y, |x, y| x * y, |x| -x)
}

#[test]
fn it_works() {
    let result = 2 + 2;
    assert_eq!(result, 4);
    let square_mat = Matrix::identity(2, 0.0, 1.0);
    let identity3 = grid(&[&[1.0, 0.0, 0.0], &[0.0, 1.0, 0.0], &[0.0, 0.0, 1.0]]);
    assert_eq!(det(&square_mat), Some(1.0));
    assert_eq!(det(&identity3), Some(1.0));
}

#[test]
fn determinant_of_identities_is_one() {
    for n in 1..6 {
        assert_eq!(det(&Matrix::identity(n, 0.0, 1.0)), Some(1.0));
    }
}

#[test]
fn determinant_of_diagonal() {
    assert_eq!(det(&grid(&[&[2.0, 0.0], &[0.0, 3.0]])), Some(6.0));
}

#[test]
fn determinant_of_two_by_two() {
    assert_eq!(det(&grid(&[&[1.0, 2.0], &[3.0, 4.0]])), Some(-2.0));
}

#[test]
fn determinant_of_three_by_three() {
    let m = grid(&[&[2.0, 0.0, 1.0], &[1.0, 3.0, 2.0], &[1.0, 1.0, 2.0]]);
    assert_eq!(det(&m), Some(6.0));
}

#[test]
fn determinant_of_one_by_one() {
    assert_eq!(det(&grid(&[&[5.0]])), Some(5.0));
}

#[test]
fn determinant_of_non_square_is_none() {
    let m = Matrix::new(2, 3, 0.0);
    assert!(m.leibniz_terms().is_none());
    assert_eq!(det(&m), None);
}

#[test]
fn leibniz_terms_pick_one_entry_per_column() {
    let m = grid(&[&[1.0, 2.0], &[3.0, 4.0]]);
    let terms = m.leibniz_terms().unwrap();
    assert_eq!(terms.len(), 2);
    for t in terms.iter() {
        if t.order == vec![0, 1] {
            assert_eq!(t.sign, 1);
            assert_eq!(t.factors, vec![1.0, 4.0]);
        } else {
            assert_eq!(t.order, vec![1, 0]);
            assert_eq!(t.sign, -1);
            assert_eq!(t.factors, vec![3.0, 2.0]);
        }
    }
}

#[test]
fn parity_of_small_orderings() {
    assert_eq!(parity(&vec![0, 1]), 1);
    assert_eq!(parity(&vec![1, 0]), -1);
    assert_eq!(parity(&vec![2, 1, 0]), -1);
    assert_eq!(parity(&vec![1, 2, 0]), 1);
    assert_eq!(parity(&vec![]), 1);
    assert_eq!(parity(&vec![3, 2, 1, 0]), 1);
}

#[test]
fn permutations_of_three() {
    let perms = permutations(&vec![0, 1, 2]);
    assert_eq!(perms.len(), 6);
    for (a, p) in perms.iter().enumerate() {
        let mut sorted = p.clone();
        sorted.sort();
        assert_eq!(sorted, vec![0, 1, 2]);
        for q in perms.iter().skip(a + 1) {
            assert_ne!(p, q);
        }
    }
}

#[test]
fn permutations_count_is_factorial() {
    let set: Vec<u8> = vec![4, 7, 9, 1, 5];
    assert_eq!(permutations(&set).len(), 120);
}

#[test]
fn permutations_of_one_and_none() {
    assert_eq!(permutations(&vec!['x']), vec![vec!['x']]);
    let empty: Vec<u32> = vec![];
    assert!(permutations(&empty).is_empty());
}

#[test]
fn get_element_bounds() {
    let m = grid(&[&[1.0, 2.0, 3.0], &[4.0, 5.0, 6.0]]);
    assert_eq!(m.get_element(1, 2), Some(6.0));
    assert_eq!(m.get_element(0, 0), Some(1.0));
    assert_eq!(m.get_element(2, 0), None);
    assert_eq!(m.get_element(0, 3), None);
    assert_eq!(m.get_element(7, 9), None);
}

#[test]
fn get_mut_element_writes_one_entry() {
    let mut m = Matrix::new(2, 2, 0.0);
    *m.get_mut_element(0, 1).unwrap() = 8.5;
    assert!(m.get_mut_element(2, 1).is_none());
    assert_eq!(m.get_element(0, 1), Some(8.5));
    assert_eq!(m.get_element(1, 0), Some(0.0));
}

#[test]
fn full_and_dimensions() {
    let m = Matrix::full(2.5, 3, 4);
    assert_eq!(m.row(), 3);
    assert_eq!(m.column(), 4);
    assert_eq!(m.get_element(2, 3), Some(2.5));
}

#[test]
fn transpose_twice_is_identity() {
    let m = grid(&[&[1.0, 2.0, 3.0], &[4.0, 5.0, 6.0]]);
    let t = m.transpose();
    assert_eq!(t.row(), 3);
    assert_eq!(t.column(), 2);
    assert_eq!(t.get_element(2, 0), Some(3.0));
    assert_eq!(t.get_element(0, 1), Some(4.0));
    let tt = t.transpose();
    for i in 0..2 {
        for j in 0..3 {
            assert_eq!(tt.get_element(i, j), m.get_element(i, j));
        }
    }
}

#[test]
fn add_entrywise_and_mismatch() {
    let a = grid(&[&[1.0, 2.0], &[3.0, 4.0]]);
    let b = grid(&[&[10.0, 20.0], &[30.0, 40.0]]);
    let s = a.zip_with(&b, |x, y| x + y).unwrap();
    assert_eq!(s.get_element(0, 0), Some(11.0));
    assert_eq!(s.get_element(1, 1), Some(44.0));
    let c = Matrix::new(2, 3, 0.0);
    assert!(a.zip_with(&c, |x, y| x + y).is_none());
}

#[test]
fn multiply_shapes_and_values() {
    let a = grid(&[&[1.0, 0.0, 0.0], &[0.0, 1.0, 0.0]]);
    let b = grid(&[&[1.0, 2.0], &[3.0, 4.0], &[5.0, 6.0]]);
    let p = a.multiply_with(&b, 0.0, |x, y| x + y, |x, y| x * y).unwrap();
    assert_eq!(p.row(), 2);
    assert_eq!(p.column(), 2);
    assert_eq!(p.get_element(0, 0), Some(1.0));
    assert_eq!(p.get_element(1, 1), Some(4.0));
    assert!(a.multiply_with(&a, 0.0, |x, y| x + y, |x, y| x * y).is_none());
    let q = b.multiply_with(&a, 0.0, |x, y| x + y, |x, y| x * y).unwrap();
    assert_eq!(q.row(), 3);
    assert_eq!(q.column(), 3);
    assert_eq!(q.get_element(2, 1), Some(6.0));
}

#[test]
fn scalar_multiply_entries() {
    let a = grid(&[&[1.0, -2.0], &[3.0, 4.0]]);
    let s = a.map_entries(|x| x * 2.0);
    assert_eq!(s.get_element(0, 1), Some(-4.0));
    assert_eq!(s.get_element(1, 0), Some(6.0));
}

#[test]
fn vector_access_and_column() {
    let mut v = VecD::from_vec(vec![1.0, 2.0, 3.0]);
    assert_eq!(v.size(), 3);
    assert_eq!(v.get_element(2), Some(3.0));
    assert_eq!(v.get_element(3), None);
    *v.get_mut_element(0).unwrap() = 9.0;
    assert!(v.get_mut_element(3).is_none());
    let c = v.to_column();
    assert_eq!(c.row(), 3);
    assert_eq!(c.column(), 1);
    assert_eq!(c.get_element(0, 0), Some(9.0));
    assert_eq!(VecD::new(2, 0.0).get_element(1), Some(0.0));
}

#[test]
fn vector_arithmetic() {
    let a = VecD::from_vec(vec![1.0, 2.0, 3.0]);
    let b = VecD::from_vec(vec![4.0, 5.0, 6.0]);
    assert_eq!(a.scalar_with(&b, 0.0, |x, y| x + y, |x, y| x * y), Some(32.0));
    let s = a.zip_with(&b, |x, y| x + y).unwrap();
    assert_eq!(s.get_element(1), Some(7.0));
    let m = a.map_entries(|x| x * 3.0);
    assert_eq!(m.get_element(2), Some(9.0));
}

#[test]
fn vector_length_mismatch_is_none() {
    let a = VecD::from_vec(vec![1.0, 2.0, 3.0]);
    let b = VecD::from_vec(vec![4.0, 5.0]);
    assert!(a.zip_with(&b, |x, y| x + y).is_none());
    assert_eq!(a.scalar_with(&b, 0.0, |x, y| x + y, |x, y| x * y), None);
}

#[test]
fn from_rows_shapes() {
    let m = Matrix::from_rows(vec![vec![1, 2, 3], vec![4, 5, 6]]).unwrap();
    assert_eq!(m.row(), 2);
    assert_eq!(m.column(), 3);
    assert_eq!(m.get_element(1, 0), Some(4));
    assert!(Matrix::from_rows(vec![vec![1, 2], vec![3]]).is_none());
    let empty: Vec<Vec<i64>> = vec![];
    let e = Matrix::from_rows(empty).unwrap();
    assert_eq!(e.row(), 0);
    assert_eq!(e.column(), 0);
}

#[test]
fn expansion_sum_of_summands() {
    let m = grid(&[&[1.0, 2.0], &[3.0, 4.0]]);
    let terms = m.leibniz_terms().unwrap();
    let d = linalg::matrix::expansion_sum(&terms, 0.0, 1.0, |x, y| x + y, |x, y| x * y, |x: f64| -x);
    assert_eq!(d, -2.0);
    let ints = Matrix::from_rows(vec![vec![2i64, 1, 0], vec![1, 2, 1], vec![0, 1, 2]]).unwrap();
    assert_eq!(ints.determinant(0, 1, |x, y| x + y, |x, y| x * y, |x| -x), Some(4));
}
