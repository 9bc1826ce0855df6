use boolmin::assignment::Assignment;
use boolmin::equation::{Equation, Not};

fn parse(text: &str) -> Equation {
    Equation::from(text.to_string()).unwrap()
}

#[test]
fn equation_test_basics() {
    let eq = parse("a + b * c");
    let mut vars = Assignment::new();
    vars.insert("a".to_string(), false);
    vars.insert("b".to_string(), false);
    vars.insert("c".to_string(), true);
    assert_eq!(eq.eval(&vars), false);
    // with a to true it is always true
    vars.insert("a".to_string(), true);
    vars.insert("b".to_string(), false);
    vars.insert("c".to_string(), true);
    assert_eq!(eq.eval(&vars), true);
    // with a to false and both true it is true
    vars.insert("a".to_string(), false);
    vars.insert("b".to_string(), true);
    vars.insert("c".to_string(), true);
    assert_eq!(eq.eval(&vars), true);
    // the variable names, sorted
    assert_eq!(
        eq.get_vars(),
        vec!["a".to_string(), "b".to_string(), "c".to_string()]
    );
    // the nesting depth of the deepest variable
    assert_eq!(eq.depth(0), 3);
}

#[test]
fn equation_test_more() {
    let eq = parse("I & !B | (A + B) and (c + a./y)");
    let mut vars = Assignment::new();
    // in this case it is true
    vars.insert("I".to_string(), true);
    vars.insert("B".to_string(), false);
    vars.insert("A".to_string(), true);
    vars.insert("c".to_string(), true);
    vars.insert("a".to_string(), false);
    vars.insert("y".to_string(), true);
    assert_eq!(eq.eval(&vars), true);
    // in this case it is false because the y is true
    vars.insert("I".to_string(), true);
    vars.insert("B".to_string(), true);
    vars.insert("A".to_string(), false);
    vars.insert("c".to_string(), false);
    vars.insert("a".to_string(), true);
    vars.insert("y".to_string(), true);
    assert_eq!(eq.eval(&vars), false);
    // setting it to false make it true
    vars.insert("I".to_string(), true);
    vars.insert("B".to_string(), true);
    vars.insert("A".to_string(), false);
    vars.insert("c".to_string(), false);
    vars.insert("a".to_string(), true);
    vars.insert("y".to_string(), false);
    assert_eq!(eq.eval(&vars), true);
    // the variable names, sorted
    assert_eq!(
        eq.get_vars(),
        vec![
            "A".to_string(),
            "B".to_string(),
            "I".to_string(),
            "a".to_string(),
            "c".to_string(),
            "y".to_string()
        ]
    );
    // the nesting depth of the deepest variable
    assert_eq!(eq.depth(0), 6);
}

#[test]
fn test_simplify_sum() {
    let eq = parse("a + (b + c + (a + j))");
    let new_eq = eq.complete_simplify().unwrap();
    assert_eq!(new_eq.to_text(), "(a + b + c + j)");
}

#[test]
fn test_factorise() {
    let eq = parse("a * (B + c + d) * e");
    let new_eq = eq.complete_simplify().unwrap();
    assert_eq!(new_eq.to_text(), "((B * a * e) + (a * c * e) + (a * d * e))");
}

#[test]
fn test_flatten_prod() {
    let eq = parse("a * (b * c * (a * j))");
    let new_eq = eq.simplified().unwrap();
    assert_eq!(new_eq.to_text(), "(a * b * c * a * j)");
}

#[test]
fn test_remove_par() {
    let eq = parse("(((a))) * ((b)) + (((c)))");
    let new_eq = eq.simplified().unwrap();
    assert_eq!(new_eq.to_text(), "((a * b) + c)");
}

#[test]
fn test_not_sum() {
    let eq = parse("!(a + b + c)");
    let new_eq = eq.simplified().unwrap();
    assert_eq!(new_eq.to_text(), "(! a * ! b * ! c)");
}

#[test]
fn test_not_not() {
    // the grammar allows one negation before a primary, so a doubled
    // negation is a syntax error; the double negation rewrite applies to
    // trees built directly
    assert!(Equation::from("!!(a + b + c)".to_string()).is_err());
    let inner = parse("(a + b + c)");
    let eq = Equation::Not(Box::new(Not::new(Equation::Not(Box::new(Not::new(inner))))));
    let new_eq = eq.simplified().unwrap().simplified().unwrap();
    assert_eq!(new_eq.to_text(), "(a + b + c)");
}

#[test]
fn test_not_prod() {
    let eq = parse("!(a * b * c)");
    let new_eq = eq.simplified().unwrap().simplified().unwrap();
    assert_eq!(new_eq.to_text(), "(! a + ! b + ! c)");
}

#[test]
fn test_keep_same() {
    let eq = parse("b*  a");
    let new_eq = eq.simplified().unwrap().simplified().unwrap();
    assert_eq!(new_eq.to_text(), "(b * a)");
}

#[test]
fn combined_tests() {
    let eq = parse(" A. B + (!((C . B) + D ) . A) + B");
    let new_eq = eq.deep_clone().complete_simplify().unwrap();
    assert!(new_eq.compare_random_values(&eq, 1000));
    let eq = parse(" I & !B | (A + B) and (c + a./y)");
    let new_eq = eq.deep_clone().complete_simplify().unwrap();
    assert!(new_eq.compare_random_values(&eq, 1000));
    let eq = parse("!(!a*!f + !b*!c + !d*!e)");
    let new_eq = eq.deep_clone().complete_simplify().unwrap();
    assert!(new_eq.compare_random_values(&eq, 1000));
}
