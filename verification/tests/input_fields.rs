use reed_muller::input::input_fields::{accepts, accepts_content, FieldKind};

#[test]
fn vector_fields_take_only_zeroes_and_ones() {
    assert!(accepts(FieldKind::Vector, '0'));
    assert!(accepts(FieldKind::Vector, '1'));
    assert!(!accepts(FieldKind::Vector, '2'));
    assert!(!accepts(FieldKind::Vector, ' '));
    assert!(accepts_content(FieldKind::Vector, "0110"));
    assert!(accepts_content(FieldKind::Vector, ""));
    assert!(!accepts_content(FieldKind::Vector, "01 10"));
    assert!(!accepts_content(FieldKind::Vector, "0ą1"));
}

#[test]
fn unsigned_fields_take_only_digits() {
    for ch in '0'..='9' {
        assert!(accepts(FieldKind::Unsigned, ch));
    }
    assert!(!accepts(FieldKind::Unsigned, '-'));
    assert!(!accepts(FieldKind::Unsigned, '.'));
    assert!(accepts_content(FieldKind::Unsigned, "10"));
    assert!(!accepts_content(FieldKind::Unsigned, "1e3"));
}

#[test]
fn float_fields_take_digits_and_separators() {
    assert!(accepts(FieldKind::Float, '.'));
    assert!(accepts(FieldKind::Float, ','));
    assert!(accepts(FieldKind::Float, '5'));
    assert!(!accepts(FieldKind::Float, '-'));
    assert!(accepts_content(FieldKind::Float, "0,25"));
    assert!(accepts_content(FieldKind::Float, "0.1"));
    assert!(!accepts_content(FieldKind::Float, "1/2"));
}
