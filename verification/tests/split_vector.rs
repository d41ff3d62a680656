use reed_muller::channel::channel::send_multiple;
use reed_muller::channel::reed_muller::Hadamards;
use reed_muller::channel::split_vector::SplitVector;
use reed_muller::math::matrix::GenMatrix;
use reed_muller::math::vector::BinaryVector;
use reed_muller::parameters::Muller;

fn bv(data: Vec<i32>) -> BinaryVector {
    BinaryVector::from_vec_unchecked(data)
}

#[test]
fn split_vector_new() {
    assert_eq!(
        SplitVector::new(&BinaryVector::from_bits("1".as_bytes()).unwrap(), Muller::new(1).unwrap()),
        SplitVector {
            full_vectors: vec![bv(vec![0, 0]), bv(vec![1, 1]), bv(vec![0, 0]), bv(vec![0, 1])],
            rem_vector: None,
            encoded: false
        },
    );

    assert_eq!(
        SplitVector::new(&BinaryVector::from_bits("1".as_bytes()).unwrap(), Muller::new(2).unwrap()),
        SplitVector {
            full_vectors: vec![bv(vec![0, 0, 1]), bv(vec![1, 0, 0]),],
            rem_vector: Some((bv(vec![0, 1, 0]), 2)),
            encoded: false
        },
    );

    assert_eq!(
        SplitVector::new(&BinaryVector::from_bits("1".as_bytes()).unwrap(), Muller::new(7).unwrap()),
        SplitVector {
            full_vectors: vec![bv(vec![0, 0, 1, 1, 0, 0, 0, 1])],
            rem_vector: None,
            encoded: false
        },
    );

    assert_eq!(
        SplitVector::new(&BinaryVector::from_bits("1".as_bytes()).unwrap(), Muller::new(10).unwrap()),
        SplitVector {
            full_vectors: vec![],
            rem_vector: Some((bv(vec![0, 0, 1, 1, 0, 0, 0, 1, 0, 0, 0]), 8)),
            encoded: false
        },
    );
}

#[test]
fn split_vector_restore() {
    assert_eq!(
        SplitVector {
            full_vectors: vec![bv(vec![0, 0]), bv(vec![1, 1]), bv(vec![0, 0]), bv(vec![0, 1])],
            rem_vector: None,
            encoded: false
        }
        .restore(),
        bv(vec![0, 0, 1, 1, 0, 0, 0, 1])
    );

    assert_eq!(
        SplitVector {
            full_vectors: vec![bv(vec![0, 0, 1]), bv(vec![1, 0, 0]),],
            rem_vector: Some((bv(vec![0, 1, 0]), 2)),
            encoded: false
        }
        .restore(),
        bv(vec![0, 0, 1, 1, 0, 0, 0, 1])
    );

    assert_eq!(
        SplitVector {
            full_vectors: vec![bv(vec![0, 0, 1, 1, 0, 0, 0, 1]),],
            rem_vector: None,
            encoded: false
        }
        .restore(),
        bv(vec![0, 0, 1, 1, 0, 0, 0, 1])
    );

    assert_eq!(
        SplitVector {
            full_vectors: vec![],
            rem_vector: Some((bv(vec![0, 0, 1, 1, 0, 0, 0, 1, 0, 0, 0]), 8)),
            encoded: false
        }
        .restore(),
        bv(vec![0, 0, 1, 1, 0, 0, 0, 1])
    );

    assert_eq!(
        SplitVector {
            full_vectors: vec![],
            rem_vector: Some((bv(vec![0, 0, 1, 1, 0, 0, 0, 1, 0, 0, 0, 0, 0, 0, 0, 0]), 8)),
            encoded: false
        }
        .restore(),
        bv(vec![0, 0, 1, 1, 0, 0, 0, 1])
    );

    assert_eq!(
        SplitVector {
            full_vectors: vec![bv(vec![0, 0, 1]), bv(vec![1, 0, 0]),],
            rem_vector: Some((bv(vec![0, 1, 0]), 2)),
            encoded: true
        }
        .restore(),
        bv(vec![0, 0, 1, 1, 0, 0, 0, 1, 0])
    );

    assert_eq!(
        SplitVector {
            full_vectors: vec![bv(vec![0, 0, 1, 1, 0, 0, 0, 1]),],
            rem_vector: None,
            encoded: true
        }
        .restore(),
        bv(vec![0, 0, 1, 1, 0, 0, 0, 1])
    );

    assert_eq!(
        SplitVector {
            full_vectors: vec![],
            rem_vector: Some((bv(vec![0, 0, 1, 1, 0, 0, 0, 1, 0, 0, 0]), 8)),
            encoded: true
        }
        .restore(),
        bv(vec![0, 0, 1, 1, 0, 0, 0, 1, 0, 0, 0])
    );

    assert_eq!(
        SplitVector {
            full_vectors: vec![],
            rem_vector: Some((bv(vec![0, 0, 1, 1, 0, 0, 0, 1, 0, 0, 0, 0, 0, 0, 0, 0]), 8)),
            encoded: true
        }
        .restore(),
        bv(vec![0, 0, 1, 1, 0, 0, 0, 1, 0, 0, 0, 0, 0, 0, 0, 0])
    );
}

#[test]
fn split_vector_to_bytes() {
    assert_eq!(
        SplitVector {
            full_vectors: vec![bv(vec![0, 0]), bv(vec![1, 1]), bv(vec![0, 0]), bv(vec![0, 1])],
            rem_vector: None,
            encoded: false
        }
        .to_bytes(),
        vec![49]
    );

    assert_eq!(
        SplitVector {
            full_vectors: vec![bv(vec![0, 0, 1]), bv(vec![1, 0, 0]),],
            rem_vector: Some((bv(vec![0, 1, 0]), 2)),
            encoded: false
        }
        .to_bytes(),
        vec![49]
    );

    assert_eq!(
        SplitVector {
            full_vectors: vec![bv(vec![0, 0, 1, 1, 0, 0, 0, 1]),],
            rem_vector: None,
            encoded: false
        }
        .to_bytes(),
        vec![49]
    );

    assert_eq!(
        SplitVector {
            full_vectors: vec![],
            rem_vector: Some((bv(vec![0, 0, 1, 1, 0, 0, 0, 1, 0, 0, 0]), 8)),
            encoded: false
        }
        .to_bytes(),
        vec![49]
    );

    assert_eq!(
        SplitVector {
            full_vectors: vec![],
            rem_vector: Some((bv(vec![0, 0, 1, 1, 0, 0, 0, 1, 0, 0, 0, 0, 0, 0, 0, 0]), 8)),
            encoded: false
        }
        .to_bytes(),
        vec![49]
    );

    assert_eq!(
        SplitVector {
            full_vectors: vec![
                bv(vec![0, 0, 1]),
                bv(vec![1, 0, 0]),
                bv(vec![0, 1, 0]),
                bv(vec![0, 1, 1]),
                bv(vec![0, 0, 0]),
                bv(vec![1, 0, 0]),
                bv(vec![1, 1, 0]),
                bv(vec![0, 0, 1]),
                bv(vec![0, 0, 1]),
                bv(vec![1, 0, 0])
            ],
            rem_vector: Some((bv(vec![0, 1, 0]), 2)),
            encoded: false
        }
        .to_bytes(),
        vec![49, 49, 49, 49]
    );
}

#[test]
fn text_survives_split_encode_decode() {
    let text = "Reed-Muller!";
    for m in 1..=10u8 {
        let muller = Muller::new(m).unwrap();
        let bits = BinaryVector::from_bits(text.as_bytes()).unwrap();
        let mut split = SplitVector::new(&bits, muller);
        assert_eq!(split.restore(), bits);
        assert_eq!(split.to_bytes(), text.as_bytes().to_vec());
        split.encode(&GenMatrix::new(muller));
        assert!(split.encoded);
        for part in &split.full_vectors {
            assert_eq!(part.cols(), 1u32 << m);
        }
        split.decode(&Hadamards::new(muller));
        assert!(!split.encoded);
        assert_eq!(split.restore(), bits);
        assert_eq!(split.to_bytes(), text.as_bytes().to_vec());
    }
}

#[test]
fn encode_and_decode_twice_change_nothing_more() {
    let muller = Muller::new(2).unwrap();
    let bits = BinaryVector::from_bits(&[0xA5]).unwrap();
    let mut split = SplitVector::new(&bits, muller);
    split.encode(&GenMatrix::new(muller));
    let once = split.clone();
    split.encode(&GenMatrix::new(muller));
    assert_eq!(split, once);
    split.decode(&Hadamards::new(muller));
    let decoded = split.clone();
    split.decode(&Hadamards::new(muller));
    assert_eq!(split, decoded);
}

#[test]
fn send_multiple_flips_the_parts_in_order() {
    let muller = Muller::new(2).unwrap();
    // 8 bits split into two full parts of 3 and a leftover part of 2 (padded to 3)
    let bits = BinaryVector::from_bits(&[0b1011_0010]).unwrap();
    let mut split = SplitVector::new(&bits, muller);
    assert_eq!(split.full_vectors.len(), 2);
    let flips = [true, false, false, false, true, true, false, false, true];
    send_multiple(&mut split, &flips);
    assert_eq!(split.full_vectors, vec![bv(vec![0, 0, 1]), bv(vec![1, 1, 1])]);
    assert_eq!(split.rem_vector, Some((bv(vec![1, 0, 1]), 2)));
    assert!(!split.encoded);
}

#[test]
fn encoded_text_survives_a_few_errors_per_part() {
    let text = "Reed-Muller!";
    for m in 3..=6u8 {
        let muller = Muller::new(m).unwrap();
        let bits = BinaryVector::from_bits(text.as_bytes()).unwrap();
        let mut split = SplitVector::new(&bits, muller);
        split.encode(&GenMatrix::new(muller));
        let n = 1usize << m;
        let parts = split.full_vectors.len() + split.rem_vector.iter().count();
        // one error in every part, at a different place each time
        let flips: Vec<bool> = (0..parts * n).map(|i| i % n == (i / n) % n).collect();
        send_multiple(&mut split, &flips);
        split.decode(&Hadamards::new(muller));
        assert_eq!(split.to_bytes(), text.as_bytes().to_vec());
    }
}
