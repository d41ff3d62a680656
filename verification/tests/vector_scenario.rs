use reed_muller::channel::reed_muller::Hadamards;
use reed_muller::math::matrix::GenMatrix;
use reed_muller::math::vector::BinaryVector;
use reed_muller::parameters::Muller;
use reed_muller::tui::vector_scenario::{decode_vector, prepare_vector, sanitise_str, VectorInputError};

fn bits(text: &str) -> BinaryVector {
    BinaryVector::from_binary_bytes(text.as_bytes()).unwrap()
}

#[test]
fn prepare_vector_encodes_a_vector_of_the_right_length() {
    let gen = GenMatrix::new(Muller::new(3).unwrap());
    assert_eq!(prepare_vector(b"1100", &gen), Ok(bits("10101010")));
}

#[test]
fn prepare_vector_checks_the_length_first() {
    let gen = GenMatrix::new(Muller::new(3).unwrap());
    assert_eq!(prepare_vector(b"110", &gen), Err(VectorInputError::Length(4)));
    assert_eq!(prepare_vector(b"1x0", &gen), Err(VectorInputError::Length(4)));
    assert_eq!(prepare_vector(b"", &gen), Err(VectorInputError::Length(4)));
    assert_eq!(prepare_vector(b"1 00", &gen), Err(VectorInputError::NotBinary));
}

#[test]
fn decode_vector_decodes_a_corrupted_codeword() {
    let hadamards = Hadamards::new(Muller::new(3).unwrap());
    let (decoded, weights) = decode_vector(8, b"10101110", &hadamards).unwrap();
    assert_eq!(decoded, bits("1100"));
    assert_eq!(weights.inner().len(), 8);
    assert_eq!(weights.inner()[1], 6);
}

#[test]
fn decode_vector_errors_in_order() {
    let hadamards = Hadamards::new(Muller::new(3).unwrap());
    assert_eq!(decode_vector(8, b"1010", &hadamards), Err(VectorInputError::CorruptedLength(8)));
    assert_eq!(decode_vector(0, b"1010", &hadamards), Err(VectorInputError::CorruptedLength(0)));
    assert_eq!(decode_vector(0, b"", &hadamards), Err(VectorInputError::NotSent));
    assert_eq!(decode_vector(8, b"1010102a", &hadamards), Err(VectorInputError::CorruptedNotBinary));
}

#[test]
fn error_dialogs() {
    assert_eq!(VectorInputError::Length(4).title(), "Įvesties klaida");
    assert_eq!(VectorInputError::Length(4).message(), "Vektoriaus ilgis turi būti lygus 4");
    assert_eq!(VectorInputError::NotBinary.title(), "Įvesties klaida");
    assert_eq!(VectorInputError::NotBinary.message(), "Vektoriuje turi būti tik 0 ir 1!");
    assert_eq!(VectorInputError::CorruptedLength(16).title(), "Įvesties klaida");
    assert_eq!(
        VectorInputError::CorruptedLength(16).message(),
        "Iškraipyto vektoriaus ilgis turi būti lygus 16"
    );
    assert_eq!(VectorInputError::NotSent.title(), "Loginė klaida");
    assert_eq!(VectorInputError::NotSent.message(), "Vektorius nebuvo išsiųstas kanalu!");
    assert_eq!(VectorInputError::CorruptedNotBinary.title(), "Loginė klaida");
    assert_eq!(
        VectorInputError::CorruptedNotBinary.message(),
        "Vektoriuje turi būti tik 0 ir 1!"
    );
}

#[test]
fn sanitise_str_removes_every_whitespace() {
    assert_eq!(sanitise_str(" 01\t1\n0 "), "0110");
    assert_eq!(sanitise_str("1\u{00A0}0\u{2003}1"), "101");
    assert_eq!(sanitise_str("0101"), "0101");
    assert_eq!(sanitise_str("   "), "");
}
