use boolmin::equation::{Equation, Not, Prod, Sum};
use boolmin::lexer::EqLexer;
use boolmin::parser::EqParser;
use boolmin::text::EqError;

#[test]
fn parser_test_basics() {
    assert_eq!(
        EqParser::new(EqLexer::new("a + b".to_string()).get_tokens().unwrap())
            .parse()
            .unwrap(),
        Equation::Sum(Box::new(Sum::new(vec![
            Equation::Prod(Box::new(Prod::new(vec![Equation::Var("a".to_string())]))),
            Equation::Prod(Box::new(Prod::new(vec![Equation::Var("b".to_string())]))),
        ])))
    );
    assert_eq!(
        EqParser::new(
            EqLexer::new("I & !B | (A + B) and (c + a./y)".to_string())
                .get_tokens()
                .unwrap()
        )
        .parse()
        .unwrap(),
        Equation::Sum(Box::new(Sum::new(vec![
            Equation::Prod(Box::new(Prod::new(vec![
                Equation::Var("I".to_string()),
                Equation::Not(Box::new(Not::new(Equation::Var("B".to_string())))),
            ]))),
            Equation::Prod(Box::new(Prod::new(vec![
                Equation::Sum(Box::new(Sum::new(vec![
                    Equation::Prod(Box::new(Prod::new(vec![Equation::Var("A".to_string())]))),
                    Equation::Prod(Box::new(Prod::new(vec![Equation::Var("B".to_string())]))),
                ]))),
                Equation::Sum(Box::new(Sum::new(vec![
                    Equation::Prod(Box::new(Prod::new(vec![Equation::Var("c".to_string())]))),
                    Equation::Prod(Box::new(Prod::new(vec![
                        Equation::Var("a".to_string()),
                        Equation::Not(Box::new(Not::new(Equation::Var("y".to_string())))),
                    ]))),
                ]))),
            ]))),
        ],)))
    );
}

#[test]
fn parser_test_missing_rparen() {
    match Equation::from("(a + b".to_string()) {
        Err(EqError::Parse(_)) => {}
        _ => panic!("a missing closing parenthesis must fail the parse"),
    }
}

#[test]
fn parser_test_unexpected_token() {
    match Equation::from("a + ".to_string()) {
        Err(EqError::Parse(_)) => {}
        _ => panic!("a trailing operator must fail the parse"),
    }
}

#[test]
fn parser_test_round_trip() {
    // reparsing the printed form gives the same meaning, up to the
    // wrapping conventions: the fully simplified forms coincide
    let one = Equation::from("a + b * !c".to_string()).unwrap();
    let two = Equation::from(one.to_text()).unwrap();
    assert!(two.deep_clone().compare_random_values(&one, 200));
    assert_eq!(
        one.complete_simplify().unwrap().to_text(),
        two.complete_simplify().unwrap().to_text()
    );
}
