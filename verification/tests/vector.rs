use reed_muller::math::matrix::Matrix;
use reed_muller::math::vector::{BinaryVector, Vector};

fn bv(data: Vec<i32>) -> BinaryVector {
    BinaryVector::from_vec_unchecked(data)
}

#[test]
fn binary_vector_from_binary_bytes() {
    assert_eq!(BinaryVector::from_binary_bytes("".as_bytes()), None);

    assert_eq!(BinaryVector::from_binary_bytes(" ".as_bytes()), None);

    assert_eq!(BinaryVector::from_binary_bytes("G".as_bytes()), None);

    assert_eq!(BinaryVector::from_binary_bytes("1010G".as_bytes()), None);

    assert_eq!(BinaryVector::from_binary_bytes("2100".as_bytes()), None);

    assert_eq!(BinaryVector::from_binary_bytes("1".as_bytes()), Some(bv([1].to_vec())));

    assert_eq!(BinaryVector::from_binary_bytes("0".as_bytes()), Some(bv([0].to_vec())));

    assert_eq!(
        BinaryVector::from_binary_bytes("101010".as_bytes()),
        Some(bv([1, 0, 1, 0, 1, 0].to_vec()))
    );

    assert_eq!(
        BinaryVector::from_binary_bytes(" 101010".as_bytes()),
        Some(bv([1, 0, 1, 0, 1, 0].to_vec()))
    );

    assert_eq!(
        BinaryVector::from_binary_bytes("101010 ".as_bytes()),
        Some(bv([1, 0, 1, 0, 1, 0].to_vec()))
    );

    assert_eq!(
        BinaryVector::from_binary_bytes(" 1 0     1  0  1  0 ".as_bytes()),
        Some(bv([1, 0, 1, 0, 1, 0].to_vec()))
    );
}

#[test]
fn binary_vector_to_string() {
    assert_eq!(BinaryVector::to_string(&bv([1].to_vec())), String::from("1"));

    assert_eq!(BinaryVector::to_string(&bv([0].to_vec())), String::from("0"));

    assert_eq!(BinaryVector::to_string(&bv([0, 1, 0, 0, 1].to_vec())), String::from("01001"));
}

#[test]
fn binary_vector_dot_product() {
    let vector_1_1 = bv([2].to_vec());
    let vector_1_5 = bv([1, 0, 5, 4, 9].to_vec());

    assert_eq!(BinaryVector::dot_product(&vector_1_5, vector_1_1.matrix()), None);

    assert_eq!(
        BinaryVector::dot_product(&vector_1_1, vector_1_1.matrix()),
        Some(bv([0].to_vec()))
    );

    assert_eq!(
        BinaryVector::dot_product(&vector_1_1, vector_1_5.matrix()),
        Some(bv([0, 0, 0, 0, 0].to_vec()))
    );
}

#[test]
fn binary_vector_substitute_zeroes() {
    assert_eq!(
        BinaryVector::substitute_zeroes(&bv([1, 1, 1].to_vec())),
        Vector::from_vec([1, 1, 1].to_vec())
    );

    assert_eq!(
        BinaryVector::substitute_zeroes(&bv([0, 0, 0].to_vec())),
        Vector::from_vec([-1, -1, -1].to_vec())
    );

    assert_eq!(
        BinaryVector::substitute_zeroes(&bv([0, 1, 0].to_vec())),
        Vector::from_vec([-1, 1, -1].to_vec())
    );
}

#[test]
fn vector_dot_product() {
    let vector_1_1 = Vector::from_vec([2].to_vec());
    let vector_1_5 = Vector::from_vec([1, 0, 5, 4, 9].to_vec());

    assert_eq!(Vector::dot_product(&vector_1_5, vector_1_1.matrix()), None);

    assert_eq!(
        Vector::dot_product(&vector_1_1, vector_1_1.matrix()),
        Some(Vector::from_vec([4].to_vec()))
    );

    assert_eq!(
        Vector::dot_product(&vector_1_1, vector_1_5.matrix()),
        Some(Vector::from_vec([2, 0, 10, 8, 18].to_vec()))
    );
}

#[test]
fn from_bits_reads_most_significant_bit_first() {
    assert_eq!(BinaryVector::from_bits(&[]), None);
    assert_eq!(
        BinaryVector::from_bits("1".as_bytes()),
        Some(bv(vec![0, 0, 1, 1, 0, 0, 0, 1]))
    );
    assert_eq!(
        BinaryVector::from_bits(&[0x80, 0x01]),
        Some(bv(vec![1, 0, 0, 0, 0, 0, 0, 0, 0, 0, 0, 0, 0, 0, 0, 1]))
    );
}

#[test]
fn binary_vector_dot_product_takes_remainder_of_two() {
    let v = bv(vec![1, 1, 0]);
    let m = Matrix::new(3, 2, vec![1, 0, 1, 1, 1, 1]).unwrap();
    assert_eq!(v.dot_product(&m), Some(bv(vec![0, 1])));
    assert_eq!(v.dot_product_unchecked(&m), bv(vec![0, 1]));
    // a negative sum is reduced into {0, 1} as well
    let w = BinaryVector::from_binary_bytes("1".as_bytes()).unwrap();
    let minus_one = Matrix::new(1, 1, vec![-1]).unwrap();
    assert_eq!(w.dot_product(&minus_one), Some(bv(vec![1])));
    let minus_two = Matrix::new(1, 1, vec![-2]).unwrap();
    assert_eq!(w.dot_product_unchecked(&minus_two), bv(vec![0]));
}

#[test]
fn vector_dot_product_unchecked_matches_checked() {
    let v = Vector::from_vec(vec![1, -2, 3]);
    let m = Matrix::new(3, 2, vec![1, 2, 3, 4, 5, 6]).unwrap();
    assert_eq!(v.dot_product_unchecked(&m), Vector::from_vec(vec![10, 12]));
    assert_eq!(v.dot_product(&m), Some(Vector::from_vec(vec![10, 12])));
}

#[test]
fn vector_accessors() {
    let mut v = Vector::from_vec(vec![4, 5]);
    assert_eq!((v.rows(), v.cols(), v.inner()), (1, 2, &[4, 5][..]));
    v.inner_mut()[0] = 7;
    assert_eq!(v.inner(), &[7, 5]);
    let b = bv(vec![1, 0, 1]);
    assert_eq!((b.rows(), b.cols(), b.inner()), (1, 3, &[1, 0, 1][..]));
    assert_eq!(b.matrix(), &Matrix::from_vec(vec![1, 0, 1]));
}

#[test]
fn binary_text_round_trips() {
    for text in ["0", "1", "0110", "1111000011"] {
        assert_eq!(BinaryVector::from_binary_bytes(text.as_bytes()).unwrap().to_string(), text);
    }
}
