use nameres::keyword::Keyword;

#[test]
fn spellings_round_trip() {
    let cases = [
        Keyword::Adj,
        Keyword::Adjoint,
        Keyword::AdjointUpper,
        Keyword::And,
        Keyword::Body,
        Keyword::Controlled,
        Keyword::ControlledUpper,
        Keyword::For,
        Keyword::Function,
        Keyword::Intrinsic,
        Keyword::Let,
        Keyword::Namespace,
        Keyword::Open,
        Keyword::Operation,
        Keyword::SetKw,
        Keyword::Slf,
        Keyword::Underscore,
        Keyword::Zero,
    ];
    for k in cases {
        let text = k.as_str().to_string();
        assert_eq!(Keyword::from_str(&text), Ok(k), "round trip of {text}");
    }
}

#[test]
fn spellings_are_exact() {
    assert_eq!(Keyword::Adjoint.as_str(), "adjoint");
    assert_eq!(Keyword::AdjointUpper.as_str(), "Adjoint");
    assert_eq!(Keyword::Slf.as_str(), "self");
    assert_eq!(Keyword::Underscore.as_str(), "_");
    assert_eq!(Keyword::SetKw.as_str(), "set");
}

#[test]
fn unknown_spellings_are_rejected() {
    assert_eq!(Keyword::from_str(&"Let".to_string()), Err(()));
    assert_eq!(Keyword::from_str(&"".to_string()), Err(()));
    assert_eq!(Keyword::from_str(&"whilee".to_string()), Err(()));
}
