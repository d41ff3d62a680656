use reed_muller::math::matrix::{GenMatrix, Matrix};
use reed_muller::parameters::Muller;

fn mat(rows: u16, cols: u16, data: Vec<i32>) -> Matrix {
    Matrix::new(rows, cols, data).unwrap()
}

#[test]
fn gen_matrix_new() {
    let muller_1 = Muller::new(1).unwrap();
    let muller_2 = Muller::new(2).unwrap();
    let muller_3 = Muller::new(3).unwrap();

    let g1 = GenMatrix::new(muller_1);
    assert_eq!(g1.matrix(), &mat(2, 2, vec![1, 1, 0, 1]));
    assert_eq!(g1.muller(), muller_1);

    let g2 = GenMatrix::new(muller_2);
    assert_eq!(g2.matrix(), &mat(3, 4, vec![1, 1, 1, 1, 0, 1, 0, 1, 0, 0, 1, 1]));
    assert_eq!(g2.muller(), muller_2);

    let g3 = GenMatrix::new(muller_3);
    assert_eq!(
        g3.matrix(),
        &mat(
            4,
            8,
            vec![
                1, 1, 1, 1, 1, 1, 1, 1, 0, 1, 0, 1, 0, 1, 0, 1, 0, 0, 1, 1, 0, 0, 1, 1, 0, 0, 0, 0,
                1, 1, 1, 1
            ]
        )
    );
    assert_eq!(g3.muller(), muller_3);
}

#[test]
fn matrix_new() {
    assert_eq!(Matrix::new(0, 0, vec![]), None);

    assert_eq!(Matrix::new(0, 1, vec![]), None);

    assert_eq!(Matrix::new(1, 0, vec![]), None);

    assert_eq!(Matrix::new(1, 1, vec![]), None);

    assert_eq!(Matrix::new(1, 2, vec![1]), None);

    assert_eq!(Matrix::new(2, 1, vec![1]), None);

    let m = Matrix::new(1, 1, vec![1]).unwrap();
    assert_eq!((m.rows(), m.cols(), m.inner()), (1, 1, &[1][..]));

    let m = Matrix::new(2, 1, vec![1, 2]).unwrap();
    assert_eq!((m.rows(), m.cols(), m.inner()), (2, 1, &[1, 2][..]));

    let m = Matrix::new(2, 2, vec![1, 2, 3, 4]).unwrap();
    assert_eq!((m.rows(), m.cols(), m.inner()), (2, 2, &[1, 2, 3, 4][..]));
}

#[test]
fn matrix_identity() {
    assert_eq!(Matrix::identity(0), None);

    assert_eq!(Matrix::identity(1), Some(mat(1, 1, vec![1])));

    assert_eq!(Matrix::identity(2), Some(mat(2, 2, vec![1, 0, 0, 1])));

    assert_eq!(Matrix::identity(3), Some(mat(3, 3, vec![1, 0, 0, 0, 1, 0, 0, 0, 1])));
}

#[test]
fn matrix_parity() {
    assert_eq!(Matrix::parity(), mat(2, 2, vec![1, 1, 1, -1]))
}

#[test]
fn matrix_kronecher_product() {
    let matrix_1_1 = mat(1, 1, vec![2]);
    let matrix_1_5 = mat(1, 5, vec![1, 0, 5, 4, 9]);

    let matrix_2_2 = mat(2, 2, vec![2, 5, 7, 10]);
    let matrix_2_3 = mat(2, 3, vec![6, 3, 9, 2, 1, 5]);

    assert_eq!(Matrix::kronecher_product(&matrix_1_1, &matrix_1_1), mat(1, 1, vec![4]));

    assert_eq!(
        Matrix::kronecher_product(&matrix_2_3, &matrix_1_1),
        mat(2, 3, vec![12, 6, 18, 4, 2, 10])
    );

    assert_eq!(
        Matrix::kronecher_product(&matrix_1_5, &matrix_2_2),
        mat(
            2,
            10,
            vec![2, 5, 0, 0, 10, 25, 8, 20, 18, 45, 7, 10, 0, 0, 35, 50, 28, 40, 63, 90]
        )
    );
}

#[test]
fn matrix_new_unchecked_and_from_vec() {
    assert_eq!(Matrix::new_unchecked(2, 2, vec![1, 2, 3, 4]), mat(2, 2, vec![1, 2, 3, 4]));
    let row = Matrix::from_vec(vec![3, -1, 4]);
    assert_eq!((row.rows(), row.cols(), row.inner()), (1, 3, &[3, -1, 4][..]));
}

#[test]
fn matrix_to_string_lists_rows() {
    assert_eq!(mat(2, 2, vec![1, -20, 0, 7]).to_string(), "1 -20 \n0 7 \n");
    assert_eq!(Matrix::parity().to_string(), "1 1 \n1 -1 \n");
}

#[test]
fn matrix_inner_mut_writes_through() {
    let mut m = mat(1, 2, vec![5, 6]);
    m.inner_mut()[1] = 9;
    assert_eq!(m, mat(1, 2, vec![5, 9]));
}

#[test]
fn kronecker_of_identities_is_identity() {
    let i2 = Matrix::identity(2).unwrap();
    let i3 = Matrix::identity(3).unwrap();
    assert_eq!(i2.kronecher_product(&i3), Matrix::identity(6).unwrap());
}

#[test]
fn gen_matrix_shape_follows_muller() {
    for m in 1..=10u8 {
        let muller = Muller::new(m).unwrap();
        let g = GenMatrix::new(muller);
        assert_eq!(g.rows(), m as u32 + 1);
        assert_eq!(g.cols(), 1u32 << m);
        assert_eq!(g.inner().len(), (g.rows() * g.cols()) as usize);
        // row r > 0 holds bit r - 1 of the column index
        for r in 1..g.rows() {
            for c in 0..g.cols() {
                assert_eq!(g.inner()[(r * g.cols() + c) as usize], ((c >> (r - 1)) & 1) as i32);
            }
        }
    }
}

#[test]
fn matrix_new_takes_large_shapes() {
    let big = Matrix::new(256, 256, vec![1; 65536]).unwrap();
    assert_eq!((big.rows(), big.cols()), (256, 256));
    assert_eq!(big.inner().len(), 65536);
    assert!(Matrix::new(256, 256, vec![1; 65535]).is_none());
    assert!(Matrix::new(65535, 65535, vec![1; 3]).is_none());
}

#[test]
fn kronecker_product_is_associative() {
    let a = mat(2, 1, vec![1, -1]);
    let b = mat(1, 2, vec![2, 3]);
    let c = mat(2, 2, vec![1, 0, -1, 1]);
    let left = a.kronecher_product(&b).kronecher_product(&c);
    let right = a.kronecher_product(&b.kronecher_product(&c));
    assert_eq!(left, right);
    assert_eq!((left.rows(), left.cols()), (4, 4));
}

#[test]
fn gen_matrix_clone_is_equal() {
    let g = GenMatrix::new(Muller::new(4).unwrap());
    assert_eq!(g.clone(), g);
}

#[test]
fn matrix_clone_is_equal() {
    let m = mat(2, 3, vec![1, -2, 3, 0, 5, -6]);
    assert_eq!(m.clone(), m);
}
