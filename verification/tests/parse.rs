use automata_rust::parse::Postfix;

#[test]
fn parse() {
    assert_eq!(
        r#" \nA\t
                   "#
        .parse::<Postfix>()
        .unwrap()
        .to_infix_paren_form(),
        r"(\n(A\t))"
    );
    assert_eq!(
        "A? B|C".parse::<Postfix>().unwrap().to_infix_paren_form(),
        "(((A?)B)|C)"
    );
    assert_eq!(
        "AB|((A|C) B|C?)"
            .parse::<Postfix>()
            .unwrap()
            .to_infix_paren_form(),
        "((AB)|(((A|C)B)|(C?)))"
    );
    assert_eq!(
        "A? | B* +".parse::<Postfix>().unwrap().to_infix_paren_form(),
        "((A?)|((B*)+))"
    );
    assert_eq!(
        "((((( (A) )))?))"
            .parse::<Postfix>()
            .unwrap()
            .to_infix_paren_form(),
        "(A?)"
    );
    assert_eq!(
        "(AC?) (B|C?A)"
            .parse::<Postfix>()
            .unwrap()
            .to_infix_paren_form(),
        "((A(C?))(B|((C?)A)))"
    );
    assert_eq!(
        "(A-Z|a-z)(A-Za-z0-9)*"
            .parse::<Postfix>()
            .unwrap()
            .to_infix_paren_form(),
        "(((A-Z)|(a-z))(((A-Z)((a-z)(0-9)))*))"
    );

    assert!("A|(B?".parse::<Postfix>().is_err());
    assert!("A)|B?".parse::<Postfix>().is_err());
    assert!("A|?".parse::<Postfix>().is_err());
    assert!("|B".parse::<Postfix>().is_err());
    assert!("(A))|(B)?".parse::<Postfix>().is_err());
}
