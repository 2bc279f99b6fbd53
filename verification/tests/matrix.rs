use szymczak::util::matrix::Matrix;

#[test]
fn matrix_transposition() {
    let a = Matrix::<u8>::from_buffer(vec![0, 1, 2, 3, 4, 5], 3, 2);
    let b = Matrix::<u8>::from_buffer(vec![0, 3, 1, 4, 2, 5], 2, 3);
    assert_eq!(a.transpose(), b);
    assert_eq!(b.transpose(), a);
}

#[test]
fn matrix_composition() {
    let a = Matrix::<u8>::from_buffer(vec![0, 1, 1, 0], 2, 2);
    let b = Matrix::<u8>::from_buffer(vec![1, 0, 0, 1], 2, 2);
    assert_eq!(a.compose_unchecked(&a), b);

    let a = Matrix::<u8>::from_buffer(vec![0, 1, 2, 0, 1, 2], 3, 2);
    let b = Matrix::<u8>::from_buffer(vec![0, 1, 1], 1, 3);
    let c = Matrix::<u8>::from_buffer(vec![3, 3], 1, 2);
    assert_eq!(b.compose_unchecked(&a), c);

    let a = Matrix::<u8>::from_buffer(vec![0, 1, 2, 3, 4, 5], 3, 2);
    let b = Matrix::<u8>::from_buffer(vec![0, 1, 2, 3, 4, 5], 2, 3);
    let c = Matrix::<u8>::from_buffer(vec![3, 4, 5, 9, 14, 19, 15, 24, 33], 3, 3);
    let d = Matrix::<u8>::from_buffer(vec![10, 13, 28, 40], 2, 2);
    assert_eq!(a.compose_unchecked(&b), c);
    assert_eq!(b.compose_unchecked(&a), d);
}

#[test]
fn composing_from_rows() {
    assert_eq!(
        Matrix::<u8>::from_buffer(vec![0, 1, 2, 3, 4, 5], 3, 2),
        Matrix::<u8>::from_rows(vec![vec![0, 1, 2], vec![3, 4, 5]], 2)
    );
    assert_eq!(
        Matrix::<u8>::from_buffer(vec![0, 1, 2, 3, 4, 5], 2, 3),
        Matrix::<u8>::from_rows(vec![vec![0, 1], vec![2, 3], vec![4, 5]], 3)
    );
}

#[test]
fn composing_from_cols() {
    assert_eq!(
        Matrix::<u8>::from_buffer(vec![0, 1, 2, 3, 4, 5], 3, 2),
        Matrix::<u8>::from_cols(vec![vec![0, 3], vec![1, 4], vec![2, 5]], 3)
    );
    assert_eq!(
        Matrix::<u8>::from_buffer(vec![0, 1, 2, 3, 4, 5], 2, 3),
        Matrix::<u8>::from_cols(vec![vec![0, 2, 4], vec![1, 3, 5]], 2)
    );
}

#[test]
fn matrix_rows() {
    let m = Matrix::<u8>::from_buffer(vec![1, 2], 1, 2);
    let rows = m.rows();
    let mut rows = rows.into_iter();
    assert_eq!(rows.next(), Some(vec![1]));
    assert_eq!(rows.next(), Some(vec![2]));
    assert_eq!(rows.next(), None);

    let m = Matrix::<u8>::from_buffer(vec![1, 2], 2, 1);
    let mut rows = m.rows().into_iter();
    assert_eq!(rows.next(), Some(vec![1, 2]));
    assert_eq!(rows.next(), None);

    let m = Matrix::<u8>::from_buffer(vec![3, 4, 5, 9, 14, 19, 15, 24, 33], 3, 3);
    let mut rows = m.rows().into_iter();
    assert_eq!(rows.next(), Some(vec![3, 4, 5]));
    assert_eq!(rows.next(), Some(vec![9, 14, 19]));
    assert_eq!(rows.next(), Some(vec![15, 24, 33]));
    assert_eq!(rows.next(), None);
}

#[test]
fn matrix_cols() {
    let m = Matrix::<u8>::from_buffer(vec![1, 2], 1, 2);
    let mut cols = m.cols().into_iter();
    assert_eq!(cols.next(), Some(vec![1, 2]));
    assert_eq!(cols.next(), None);

    let m = Matrix::<u8>::from_buffer(vec![1, 2], 2, 1);
    let mut cols = m.cols().into_iter();
    assert_eq!(cols.next(), Some(vec![1]));
    assert_eq!(cols.next(), Some(vec![2]));
    assert_eq!(cols.next(), None);

    let m = Matrix::<u8>::from_buffer(vec![3, 4, 5, 9, 14, 19, 15, 24, 33], 3, 3);
    let mut cols = m.cols().into_iter();
    assert_eq!(cols.next(), Some(vec![3, 9, 15]));
    assert_eq!(cols.next(), Some(vec![4, 14, 24]));
    assert_eq!(cols.next(), Some(vec![5, 19, 33]));
    assert_eq!(cols.next(), None);
}

#[test]
fn transposing_in_place() {
    let mut m = Matrix::<u8>::from_buffer(vec![1, 2, 3, 4, 5, 6, 7, 8, 9], 3, 3);
    m.transpose_inplace();
    assert_eq!(m, Matrix::<u8>::from_buffer(vec![1, 4, 7, 2, 5, 8, 3, 6, 9], 3, 3));
    assert_eq!(m.transpose().transpose(), m);
}

#[test]
fn reading_and_writing_entries() {
    let mut m = Matrix::<u8>::from_buffer(vec![0, 1, 2, 3, 4, 5], 3, 2);
    assert_eq!(m.get(1, 1), Some(&4));
    assert_eq!(m.get(2, 2), None);
    m.set(0, 1, 9);
    assert_eq!(m.buffer(), vec![0, 1, 2, 3, 9, 5]);
    m.row_mut(1)[2] = 7;
    assert_eq!(m.iter(), &[0, 1, 2, 3, 9, 7]);
    m.iter_mut()[0] = 8;
    assert_eq!(m.row(0), vec![8, 1, 2]);
    assert_eq!(m.col(1), vec![1, 9]);
    assert_eq!(m.num_of_cols(), 3);
    assert_eq!(m.num_of_rows(), 2);
    assert_eq!(m.into_iter(), vec![8, 1, 2, 3, 9, 7]);
}

#[test]
fn boolean_composition() {
    let a = Matrix::<bool>::from_buffer(vec![true, false, false, true], 2, 2);
    let b = Matrix::<bool>::from_buffer(vec![false, true, true, true], 2, 2);
    assert_eq!(a.compose_unchecked_bool(&b), b);
    assert_eq!(b.compose_unchecked_bool(&a), b);
}

#[test]
fn changing_a_column_in_place() {
    let mut m = Matrix::from_buffer(vec![1u8, 2, 3, 4, 5, 6], 2, 3);
    m.col_mut(1, |x: &mut u8| *x += 10);
    assert_eq!(m.buffer(), vec![1, 12, 3, 14, 5, 16]);
    m.col_mut(0, |x: &mut u8| *x = 0);
    assert_eq!(m.buffer(), vec![0, 12, 0, 14, 0, 16]);
    assert_eq!(m.num_of_cols(), 2);
    assert_eq!(m.num_of_rows(), 3);
    // a short buffer: only the entries it holds change
    let mut short = Matrix::from_buffer(vec![1u8, 2, 3], 2, 3);
    short.col_mut(0, |x: &mut u8| *x += 1);
    assert_eq!(short.buffer(), vec![2, 2, 4]);
}
