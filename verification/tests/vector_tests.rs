use prime_cipher::blocks::generation::vectors::{are_orthogonal, vector_difference};

#[test]
fn are_orthogonal_returns_true_when_orthogonal() {
    assert!(are_orthogonal(&[1, 1, 1, 1], &[-1, 1, -1, 1]));
    assert!(are_orthogonal(&[1, 1, 3, 1], &[-1, -2, 1, 0]));
}

#[test]
fn are_orthogonal_returns_false_when_not_orthogonal() {
    assert!(!are_orthogonal(&[2, 3, 7, 1], &[14, 23, 54, 12]));
    assert!(!are_orthogonal(&[1, 2, 5, 1], &[-121, 2, 5, 1]));
}

#[test]
fn vector_difference_returns_vector_difference() {
    let mut difference1 = vec![0i16; 3];
    vector_difference(&[2, -123, 43], &[5, 124, -128], &mut difference1);
    assert_eq!(difference1, [-3, -247, 171]);

    let mut difference2 = vec![0i16; 4];
    vector_difference(&[85, 92, -32, -76], &[-19, 12, 65, 43], &mut difference2);

    assert_eq!(difference2, [104, 80, -97, -119]);
}
