use reed_muller::channel::reed_muller::Hadamards;
use reed_muller::experiments::{encoded_len, padded_len};
use reed_muller::math::matrix::GenMatrix;
use reed_muller::parameters::Muller;
use reed_muller::tui::text_scenario::transmit_text;

fn lens(text: &str, m: Muller) -> (usize, usize) {
    let bits = (text.len() * 8) as u32;
    (padded_len(bits, m) as usize, encoded_len(bits, m) as usize)
}

#[test]
fn clean_channel_gives_the_text_back() {
    let text = "Labas, pasauli!";
    for m in 1..=5u8 {
        let muller = Muller::new(m).unwrap();
        let (raw_len, coded_len) = lens(text, muller);
        let (raw, decoded) = transmit_text(
            text.as_bytes(),
            &GenMatrix::new(muller),
            &Hadamards::new(muller),
            &vec![false; raw_len],
            &vec![false; coded_len],
        )
        .unwrap();
        assert_eq!(raw, text.as_bytes());
        assert_eq!(decoded, text.as_bytes());
    }
}

#[test]
fn empty_text_is_refused() {
    let muller = Muller::new(3).unwrap();
    assert_eq!(
        transmit_text(b"", &GenMatrix::new(muller), &Hadamards::new(muller), &[], &[]),
        None
    );
}

#[test]
fn turned_bits_reach_only_the_plain_copy() {
    let text = "ab";
    let muller = Muller::new(3).unwrap();
    let (raw_len, coded_len) = lens(text, muller);
    let n = 8usize;
    // every raw bit turned; one error in every encoded part
    let coded: Vec<bool> = (0..coded_len).map(|i| i % n == 0).collect();
    let (raw, decoded) = transmit_text(
        text.as_bytes(),
        &GenMatrix::new(muller),
        &Hadamards::new(muller),
        &vec![true; raw_len],
        &coded,
    )
    .unwrap();
    assert_eq!(raw, vec![!b'a', !b'b']);
    assert_eq!(decoded, text.as_bytes());
}
