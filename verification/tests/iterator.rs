use szymczak::util::iterator::{product, Dedup};

fn expected_cube() -> Vec<Vec<i32>> {
    vec![
        vec![0, 0, 0],
        vec![0, 0, 1],
        vec![0, 1, 0],
        vec![0, 1, 1],
        vec![1, 0, 0],
        vec![1, 0, 1],
        vec![1, 1, 0],
        vec![1, 1, 1],
    ]
}

#[test]
fn util_products() {
    assert_eq!(product(vec![0, 1], 3), expected_cube());
}

#[test]
fn iterator_products() {
    assert_eq!(product(vec![0, 1], 3), expected_cube());
}

#[test]
fn util_deduplicate() {
    let mut og: Vec<u8> = vec![0, 1, 1, 2, 1, 3, 2, 1, 0, 2, 1, 4, 1];
    og.clear_duplicates();
    assert_eq!(og, vec![0, 1, 2, 3, 4])
}

#[test]
fn iterator_deduplicate() {
    let mut og: Vec<u8> = vec![0, 1, 1, 2, 1, 3, 2, 1, 0, 2, 1, 4, 1];
    og.clear_duplicates();
    assert_eq!(og, vec![0, 1, 2, 3, 4])
}
