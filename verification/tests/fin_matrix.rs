use std::collections::BTreeSet;
use szymczak::rmodule::ring::Fin;
use szymczak::util::matrix::Matrix;

type R6 = Fin<6>;
type R32 = Fin<32>;

fn m6(entries: [u16; 6], cols: u8, rows: u8) -> Matrix<R6> {
    Matrix::from_buffer(entries.iter().map(|&z| R6::new(z)).collect(), cols, rows)
}

fn m32(entries: &[u16], cols: u8, rows: u8) -> Matrix<R32> {
    Matrix::from_buffer(entries.iter().map(|&z| R32::new(z)).collect(), cols, rows)
}

#[test]
fn identities() {
    type R = R6;
    assert_eq!(
        Matrix::<R>::identity(2, 2),
        Matrix::<R>::from_buffer(vec![R::new(1), R::new(0), R::new(0), R::new(1)], 2, 2)
    );
    assert_eq!(
        Matrix::<R>::identity(3, 2),
        Matrix::<R>::from_buffer(
            vec![R::new(1), R::new(0), R::new(0), R::new(0), R::new(1), R::new(0)],
            3,
            2
        )
    );
    assert_eq!(
        Matrix::<R>::identity(2, 3),
        Matrix::<R>::from_buffer(
            vec![R::new(1), R::new(0), R::new(0), R::new(1), R::new(0), R::new(0)],
            2,
            3
        )
    );
    assert_eq!(
        Matrix::<R>::identity(3, 3),
        Matrix::<R>::from_buffer(
            vec![
                R::new(1),
                R::new(0),
                R::new(0),
                R::new(0),
                R::new(1),
                R::new(0),
                R::new(0),
                R::new(0),
                R::new(1)
            ],
            3,
            3
        )
    );
}

#[test]
fn muling_row_by_element() {
    let mut m = m6([1, 2, 0, 1, 0, 0], 3, 2);
    m.mul_row_by(0, R6::new(3));
    assert_eq!(m, m6([3, 0, 0, 1, 0, 0], 3, 2));
}

#[test]
fn muling_col_by_element() {
    let mut m = m6([1, 2, 0, 1, 0, 0], 3, 2);
    m.mul_col_by(1, R6::new(2));
    assert_eq!(m, m6([1, 4, 0, 1, 0, 0], 3, 2));
}

#[test]
fn adding_row_muled_by_element() {
    let mut m = m6([1, 2, 0, 1, 0, 0], 3, 2);
    m.add_muled_row_to_row(0, 1, R6::new(2));
    assert_eq!(m, m6([1, 2, 0, 3, 4, 0], 3, 2));
}

#[test]
fn adding_col_muled_by_element() {
    let mut m = m6([1, 2, 0, 1, 0, 0], 3, 2);
    m.add_muled_col_to_col(1, 0, R6::new(2));
    assert_eq!(m, m6([5, 2, 0, 1, 0, 0], 3, 2));
}

#[test]
fn finding_smallest_nonzero_entry() {
    let m = m6([2, 4, 5, 1, 3, 6], 3, 2);
    assert_eq!(m.smallest_nonzero_entry(&BTreeSet::new(), &BTreeSet::new()), Some((0, 1)));
    assert_eq!(
        m.smallest_nonzero_entry(&BTreeSet::from_iter([0]), &BTreeSet::new()),
        Some((1, 1))
    );
    assert_eq!(
        m.smallest_nonzero_entry(&BTreeSet::from_iter([0]), &BTreeSet::from_iter([0])),
        Some((1, 1))
    );
    assert_eq!(
        m.smallest_nonzero_entry(&BTreeSet::from_iter([0, 1]), &BTreeSet::from_iter([0])),
        None
    );
}

#[test]
fn smithing_nonexample() {
    let m = m6([0, 2, 0, 3, 0, 0], 3, 2);
    let (u, s, v) = m.pseudo_smith();
    assert_eq!(s, m);
    assert_eq!(u, Matrix::<R6>::from_buffer(vec![R6::new(1), R6::new(0), R6::new(0), R6::new(1)], 2, 2));
    assert_eq!(
        v,
        Matrix::<R6>::from_buffer(
            vec![
                R6::new(1),
                R6::new(0),
                R6::new(0),
                R6::new(0),
                R6::new(1),
                R6::new(0),
                R6::new(0),
                R6::new(0),
                R6::new(1)
            ],
            3,
            3
        ),
    );
}

#[test]
fn smithing() {
    let m = m32(&[2, 5, 6, 4, 3, 7], 3, 2);
    let (u, s, v) = m.pseudo_smith();
    assert_eq!(s, m32(&[2, 0, 0, 0, 18, 0], 3, 2));
    assert_eq!(u, m32(&[1, 0, 30, 1], 2, 2));
    assert_eq!(v, m32(&[1, 27, 25, 0, 2, 26, 0, 0, 18], 3, 3));
}

#[test]
fn pseudo_smith_leaves_one_entry_per_line() {
    let m = m32(&[3, 6, 9, 12, 5, 7, 2, 8, 4], 3, 3);
    let (u, s, v) = m.pseudo_smith();
    assert_eq!(u.num_of_cols(), 3);
    assert_eq!(v.num_of_rows(), 3);
    for r in 0..3u8 {
        let nonzero = (0..3u8).filter(|&c| !s.get(c, r).unwrap().is_zero()).count();
        assert!(nonzero <= 1);
    }
    for c in 0..3u8 {
        let nonzero = (0..3u8).filter(|&r| !s.get(c, r).unwrap().is_zero()).count();
        assert!(nonzero <= 1);
    }
}

#[test]
fn negating_and_adding() {
    let m = m6([1, 2, 3, 4, 5, 0], 3, 2);
    let n = m.neg();
    assert_eq!(n, m6([5, 4, 3, 2, 1, 0], 3, 2));
    assert_eq!(m.add(&n), m6([0, 0, 0, 0, 0, 0], 3, 2));
}

#[test]
fn pseudo_smith_fixes_a_sparse_matrix() {
    let m = m32(&[0, 5, 0, 0, 0, 0, 7, 0, 0], 3, 3);
    let (u, s, v) = m.pseudo_smith();
    assert_eq!(s, m);
    assert_eq!(u, Matrix::<R32>::identity(3, 3));
    assert_eq!(v, Matrix::<R32>::identity(3, 3));
}

#[test]
fn transposing_twice_gives_the_matrix_back() {
    let m = m32(&[1, 2, 3, 4, 5, 6], 3, 2);
    let t = m.transpose();
    assert_eq!(t, m32(&[1, 4, 2, 5, 3, 6], 2, 3));
    assert_eq!(t.transpose(), m);
    let mut square = m32(&[1, 2, 3, 4], 2, 2);
    square.transpose_inplace();
    assert_eq!(square, m32(&[1, 3, 2, 4], 2, 2));
}
