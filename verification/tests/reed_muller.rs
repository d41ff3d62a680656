use reed_muller::channel::channel::corrupt_with_errors;
use reed_muller::channel::reed_muller::{rm_decode, rm_encode, Hadamards};
use reed_muller::math::matrix::{GenMatrix, Matrix};
use reed_muller::math::vector::BinaryVector;
use reed_muller::parameters::Muller;

#[test]
fn hadamards_new() {
    assert_eq!(
        *Hadamards::new(Muller::new(1).unwrap()).matrices(),
        vec![Matrix::new(2, 2, [1, 1, 1, -1].into()).unwrap()]
    );

    assert_eq!(
        *Hadamards::new(Muller::new(2).unwrap()).matrices(),
        vec![
            Matrix::new(4, 4, [1, 1, 0, 0, 1, -1, 0, 0, 0, 0, 1, 1, 0, 0, 1, -1].into()).unwrap(),
            Matrix::new(4, 4, [1, 0, 1, 0, 0, 1, 0, 1, 1, 0, -1, 0, 0, 1, 0, -1].into()).unwrap()
        ]
    );
}

#[test]
fn reed_muller_encode() {
    let valid1 = rm_encode(
        &BinaryVector::from_binary_bytes("1100".as_bytes()).unwrap(),
        &GenMatrix::new(Muller::new(3).unwrap()),
    );
    assert_eq!(valid1, BinaryVector::from_binary_bytes("10101010".as_bytes()).unwrap());
}

#[test]
fn reed_muller_decode() {
    let vector = BinaryVector::from_binary_bytes("10101011".as_bytes()).unwrap();
    let decoded = rm_decode(&vector, &Hadamards::new(Muller::new(3).unwrap()));

    assert_eq!(decoded.0, BinaryVector::from_binary_bytes("1100".as_bytes()).unwrap());
}

fn bits_of_number(value: u32, len: usize) -> Vec<i32> {
    (0..len).map(|i| ((value >> i) & 1) as i32).collect()
}

#[test]
fn decode_inverts_encode_for_every_message() {
    for m in 1..=5u8 {
        let muller = Muller::new(m).unwrap();
        let gen = GenMatrix::new(muller);
        let hadamards = Hadamards::new(muller);
        for value in 0..(1u32 << (m + 1)) {
            let message = BinaryVector::from_vec_unchecked(bits_of_number(value, m as usize + 1));
            let codeword = rm_encode(&message, &gen);
            assert_eq!(codeword.cols(), 1u32 << m);
            let (decoded, weights) = rm_decode(&codeword, &hadamards);
            assert_eq!(decoded, message);
            // exactly one weight is non-zero, with magnitude 2^m
            let strong: Vec<i32> = weights.inner().iter().copied().filter(|w| *w != 0).collect();
            assert_eq!(strong.len(), 1);
            assert_eq!(strong[0].abs(), 1 << m);
        }
    }
}

#[test]
fn decode_reports_weights() {
    let codeword = BinaryVector::from_binary_bytes("10101010".as_bytes()).unwrap();
    let (decoded, weights) = rm_decode(&codeword, &Hadamards::new(Muller::new(3).unwrap()));
    assert_eq!(decoded, BinaryVector::from_binary_bytes("1100".as_bytes()).unwrap());
    assert_eq!(weights.inner(), &[0, 8, 0, 0, 0, 0, 0, 0]);
}

#[test]
fn decode_corrects_a_single_error_for_m_3() {
    let muller = Muller::new(3).unwrap();
    let gen = GenMatrix::new(muller);
    let hadamards = Hadamards::new(muller);
    for value in 0..16u32 {
        let message = BinaryVector::from_vec_unchecked(bits_of_number(value, 4));
        let codeword = rm_encode(&message, &gen);
        for pos in 0..8 {
            let mut bits = codeword.inner().to_vec();
            bits[pos] ^= 1;
            let received = BinaryVector::from_vec_unchecked(bits);
            assert_eq!(rm_decode(&received, &hadamards).0, message);
        }
    }
}

#[test]
fn hadamards_accessors() {
    let muller = Muller::new(4).unwrap();
    let h = Hadamards::new(muller);
    assert_eq!(h.muller(), muller);
    assert_eq!(h.matrices().len(), 4);
    for m in h.matrices() {
        assert_eq!((m.rows(), m.cols()), (16, 16));
    }
}

#[test]
fn decode_corrects_fewer_errors_than_a_quarter_of_the_length() {
    for m in 3..=5u8 {
        let muller = Muller::new(m).unwrap();
        let gen = GenMatrix::new(muller);
        let hadamards = Hadamards::new(muller);
        let n = 1usize << m;
        let max_errors = (n - 1) / 4;
        for value in 0..(1u32 << (m + 1)) {
            let message = BinaryVector::from_vec_unchecked(bits_of_number(value, m as usize + 1));
            for start in 0..n {
                let mut received = rm_encode(&message, &gen);
                let flips: Vec<bool> = (0..n)
                    .map(|i| (i + n - start) % n < max_errors)
                    .collect();
                let errors = corrupt_with_errors(&mut received, &flips);
                assert_eq!(errors.get().len(), max_errors);
                let (decoded, _) = rm_decode(&received, &hadamards);
                assert_eq!(decoded, message);
            }
        }
    }
}

#[test]
fn hadamards_clone_keeps_the_matrices() {
    let h = Hadamards::new(Muller::new(3).unwrap());
    let copy = h.clone();
    assert_eq!(copy.muller(), h.muller());
    assert_eq!(copy.matrices(), h.matrices());
}
