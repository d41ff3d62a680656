use reed_muller::parameters::{
    MullerErrorKind, Muller, ParseMullerError, ParseProbabilityError, ProbErrorKind, Scenario,
};

#[test]
fn muller_new() {
    assert_eq!(Muller::new(1), Some(Muller::new_unchecked(1)));

    assert_eq!(Muller::new(10), Some(Muller::new_unchecked(10)));

    assert_eq!(Muller::new(0), None);

    assert_eq!(Muller::new(11), None);
}

fn parse_kind(text: &str) -> Result<u8, MullerErrorKind> {
    match text.parse::<Muller>() {
        Ok(m) => Ok(m.get()),
        Err(e) => Err(e.kind().clone()),
    }
}

#[test]
fn muller_parse_accepts_one_to_ten() {
    assert_eq!(parse_kind("1"), Ok(1));
    assert_eq!(parse_kind("10"), Ok(10));
    assert_eq!(parse_kind("+7"), Ok(7));
    assert_eq!(parse_kind("007"), Ok(7));
}

#[test]
fn muller_parse_errors() {
    assert_eq!(parse_kind(""), Err(MullerErrorKind::Invalid));
    assert_eq!(parse_kind("+"), Err(MullerErrorKind::Invalid));
    assert_eq!(parse_kind("-"), Err(MullerErrorKind::Invalid));
    assert_eq!(parse_kind("-3"), Err(MullerErrorKind::Invalid));
    assert_eq!(parse_kind("3x"), Err(MullerErrorKind::Invalid));
    assert_eq!(parse_kind(" 3"), Err(MullerErrorKind::Invalid));
    assert_eq!(parse_kind("0"), Err(MullerErrorKind::Range));
    assert_eq!(parse_kind("11"), Err(MullerErrorKind::Range));
    assert_eq!(parse_kind("15"), Err(MullerErrorKind::Range));
    assert_eq!(parse_kind("256"), Err(MullerErrorKind::Range));
    // the value leaves 8 bits before the stray byte is reached
    assert_eq!(parse_kind("300x"), Err(MullerErrorKind::Range));
    assert_eq!(parse_kind("3x00"), Err(MullerErrorKind::Invalid));
}

#[test]
fn muller_dimensions() {
    let m = Muller::new(3).unwrap();
    assert_eq!(m.get(), 3);
    assert_eq!(m.rows(), 4);
    assert_eq!(m.cols(), 8);
    let m = Muller::new(10).unwrap();
    assert_eq!(m.rows(), 11);
    assert_eq!(m.cols(), 1024);
}

#[test]
fn muller_to_string_round_trips() {
    for v in 1..=10u8 {
        let m = Muller::new(v).unwrap();
        assert_eq!(m.to_string(), format!("{}", v));
        assert_eq!(m.to_string().parse::<Muller>().unwrap(), m);
    }
}

#[test]
fn error_descriptions() {
    let e: ParseMullerError = "0".parse::<Muller>().unwrap_err();
    assert_eq!(e.description(), "muller parameter outside of [1; 10] range");
    let e: ParseMullerError = "x".parse::<Muller>().unwrap_err();
    assert_eq!(e.description(), "invalid muller parameter literal");
    let p = ParseProbabilityError::new(ProbErrorKind::Invalid);
    assert_eq!(p.kind(), &ProbErrorKind::Invalid);
    assert_eq!(p.description(), "invalid probability literal");
    let p = ParseProbabilityError::new(ProbErrorKind::Range);
    assert_eq!(p.description(), "probability outside of [0; 1] range");
    assert_ne!(Scenario::SendingText, Scenario::SendingImage);
}

#[test]
fn muller_errors_built_by_kind() {
    let e = ParseMullerError::new(MullerErrorKind::Range);
    assert_eq!(e.kind(), &MullerErrorKind::Range);
    assert_eq!(e, "11".parse::<Muller>().unwrap_err());
    let e = ParseMullerError::new(MullerErrorKind::Invalid);
    assert_eq!(e.kind(), &MullerErrorKind::Invalid);
    assert_eq!(e, "".parse::<Muller>().unwrap_err());
}
