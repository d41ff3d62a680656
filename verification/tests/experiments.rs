use reed_muller::channel::reed_muller::Hadamards;
use reed_muller::experiments::{encoded_len, padded_len, send_encoded, send_plain, transmission_errors};
use reed_muller::math::matrix::GenMatrix;
use reed_muller::math::vector::BinaryVector;
use reed_muller::parameters::Muller;

#[test]
fn encoded_len_counts_started_parts() {
    let m3 = Muller::new(3).unwrap();
    assert_eq!(encoded_len(0, m3), 0);
    assert_eq!(encoded_len(1, m3), 8);
    assert_eq!(encoded_len(4, m3), 8);
    assert_eq!(encoded_len(5, m3), 16);
    assert_eq!(encoded_len(400, Muller::new(1).unwrap()), 400);
    assert_eq!(encoded_len(11, Muller::new(10).unwrap()), 1024);
    assert_eq!(encoded_len(12, Muller::new(10).unwrap()), 2048);
}

#[test]
fn clean_channel_brings_the_message_through() {
    let message = BinaryVector::from_bits("fAX].mDrMnGk".as_bytes()).unwrap();
    for m in 1..=6u8 {
        let muller = Muller::new(m).unwrap();
        let len = encoded_len(message.cols(), muller) as usize;
        let errors = transmission_errors(
            &message,
            &GenMatrix::new(muller),
            &Hadamards::new(muller),
            &vec![false; len],
        );
        assert!(errors.get().is_empty());
    }
}

#[test]
fn one_error_per_part_is_corrected_from_m_3_on() {
    let message = BinaryVector::from_bits("+aMzjE5}$}L.".as_bytes()).unwrap();
    for m in 3..=6u8 {
        let muller = Muller::new(m).unwrap();
        let n = 1usize << m;
        let len = encoded_len(message.cols(), muller) as usize;
        let flips: Vec<bool> = (0..len).map(|i| i % n == (i / n) % n).collect();
        let errors = transmission_errors(
            &message,
            &GenMatrix::new(muller),
            &Hadamards::new(muller),
            &flips,
        );
        assert!(errors.get().is_empty());
    }
}

#[test]
fn every_bit_turned_inverts_every_part() {
    // with m = 1 each part of two bits is encoded into two bits; turning both flips the
    // first message bit of the part and keeps the second
    let message = BinaryVector::from_vec_unchecked(vec![0, 0, 1, 1, 0]);
    let muller = Muller::new(1).unwrap();
    let len = encoded_len(message.cols(), muller) as usize;
    assert_eq!(len, 6);
    let errors = transmission_errors(
        &message,
        &GenMatrix::new(muller),
        &Hadamards::new(muller),
        &vec![true; len],
    );
    assert_eq!(errors.get(), &[0, 2, 4]);
}

#[test]
fn padded_len_counts_started_parts() {
    let m3 = Muller::new(3).unwrap();
    assert_eq!(padded_len(0, m3), 0);
    assert_eq!(padded_len(1, m3), 4);
    assert_eq!(padded_len(4, m3), 4);
    assert_eq!(padded_len(5, m3), 8);
}

#[test]
fn send_plain_turns_the_chosen_bits() {
    let message = BinaryVector::from_vec_unchecked(vec![1, 0, 1, 1, 0]);
    let muller = Muller::new(2).unwrap();
    // parts of 3 bits: [1, 0, 1], [1, 0, pad]
    let flips = [true, false, false, false, true, true];
    let split = send_plain(&message, muller, &flips);
    assert_eq!(split.restore(), BinaryVector::from_vec_unchecked(vec![0, 0, 1, 1, 1]));
    assert_eq!(split.bit_count(), Some(6));
}

#[test]
fn send_encoded_without_errors_restores_the_message() {
    let message = BinaryVector::from_bits("RM".as_bytes()).unwrap();
    let muller = Muller::new(4).unwrap();
    let len = encoded_len(message.cols(), muller) as usize;
    let split = send_encoded(
        &message,
        &GenMatrix::new(muller),
        &Hadamards::new(muller),
        &vec![false; len],
    );
    assert_eq!(split.restore(), message);
}
