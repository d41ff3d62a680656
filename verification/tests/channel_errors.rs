use reed_muller::channel::channel::{corrupt, corrupt_with_errors};
use reed_muller::channel::channel_errors::ChannelErrors;
use reed_muller::math::vector::BinaryVector;

fn errs(v: Vec<usize>) -> ChannelErrors {
    ChannelErrors::from_vec(v)
}

#[test]
pub fn errors_from_strings() {
    assert_eq!(ChannelErrors::from_bytes("".as_bytes(), "".as_bytes()), errs(Vec::new()));

    assert_eq!(ChannelErrors::from_bytes("1".as_bytes(), "".as_bytes()), errs(vec![0]));

    assert_eq!(ChannelErrors::from_bytes("".as_bytes(), "1".as_bytes()), errs(vec![0]));

    assert_eq!(ChannelErrors::from_bytes("0".as_bytes(), "1".as_bytes()), errs(vec![0]));

    assert_eq!(ChannelErrors::from_bytes("1".as_bytes(), "1".as_bytes()), errs(vec![]));

    assert_eq!(
        ChannelErrors::from_bytes("10  10".as_bytes(), "10    10".as_bytes()),
        errs(vec![])
    );

    assert_eq!(
        ChannelErrors::from_bytes("10  101".as_bytes(), "10    10".as_bytes()),
        errs(vec![4])
    );

    assert_eq!(
        ChannelErrors::from_bytes("10  101".as_bytes(), "10".as_bytes()),
        errs(vec![2, 3, 4])
    );
}

fn from_text(text: &str) -> BinaryVector {
    BinaryVector::from_binary_bytes(text.as_bytes()).unwrap()
}

#[test]
pub fn errors_from_vectors() {
    assert_eq!(ChannelErrors::from_vectors(&from_text("0"), &from_text("1")), errs(vec![0]));

    assert_eq!(ChannelErrors::from_vectors(&from_text("1"), &from_text("1")), errs(vec![]));

    assert_eq!(
        ChannelErrors::from_vectors(&from_text("101010"), &from_text("101010")),
        errs(vec![])
    );

    assert_eq!(
        ChannelErrors::from_vectors(&from_text("10101"), &from_text("1010")),
        errs(vec![4])
    );

    assert_eq!(
        ChannelErrors::from_vectors(&from_text("10101"), &from_text("10")),
        errs(vec![2, 3, 4])
    );
}

#[test]
fn error_words_agree_with_count() {
    assert_eq!(errs(vec![]).error_word(), "klaidų");
    assert_eq!(errs(vec![1]).error_word(), "klaida");
    assert_eq!(errs(vec![1, 2]).error_word(), "klaidos");
    assert_eq!(errs((0..11).collect()).error_word(), "klaidų");
    assert_eq!(errs((0..21).collect()).error_word(), "klaida");
    assert_eq!(errs((0..10).collect()).error_word(), "klaidų");
}

#[test]
fn errors_to_string() {
    assert_eq!(errs(vec![]).to_string(), "0 klaidų: []");
    assert_eq!(errs(vec![3]).to_string(), "1 klaida: [3]");
    assert_eq!(errs(vec![2, 3, 4]).to_string(), "3 klaidos: [2, 3, 4]");
    assert_eq!(errs(vec![2, 3, 4]).get(), &[2, 3, 4]);
}

#[test]
fn corruption_reports_the_flipped_positions() {
    let sent = from_text("1100101");
    let mut received = sent.clone();
    let flips = [false, true, false, false, true, true, false];
    let errors = corrupt_with_errors(&mut received, &flips);
    assert_eq!(received, from_text("1000011"));
    assert_eq!(errors, errs(vec![1, 4, 5]));
    // the reported errors are exactly where the vectors differ
    assert_eq!(ChannelErrors::from_vectors(&sent, &received), errors);

    let mut again = sent.clone();
    corrupt(&mut again, &[false; 7]);
    assert_eq!(again, sent);
}

#[test]
fn default_errors_are_empty() {
    assert!(ChannelErrors::default().get().is_empty());
    assert_eq!(ChannelErrors::default().to_string(), "0 klaidų: []");
    let v = vec![1usize, 5, 9];
    assert_eq!(ChannelErrors::from_vec(v.clone()).get(), v.as_slice());
}
