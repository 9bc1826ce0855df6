use boolmin::assignment::Assignment;
use boolmin::equation::{Equation, Not, Prod};
use boolmin::text::EqError;

fn parse(text: &str) -> Equation {
    Equation::from(text.to_string()).unwrap()
}

#[test]
fn simplify_preserves_truth_values() {
    // every assignment gives the simplified tree the same value as the input
    let eq = parse("a * (b + !c) + !a * c");
    let simple = eq.deep_clone().complete_simplify().unwrap();
    let names = ["a", "b", "c"];
    for bits in 0..8u32 {
        let mut vars = Assignment::new();
        for (k, n) in names.iter().enumerate() {
            vars.insert(n.to_string(), bits & (1 << k) != 0);
        }
        assert_eq!(eq.eval(&vars), simple.eval(&vars));
    }
}

#[test]
fn simplify_twice_is_simplify_once() {
    // running the full simplification again changes nothing
    for text in ["a + (b + c + (a + j))", "a * (B + c + d) * e", "!(a + b + c)"] {
        let once = parse(text).complete_simplify().unwrap();
        let twice = once.deep_clone().complete_simplify().unwrap();
        assert_eq!(once, twice);
    }
}

#[test]
fn simplify_keeps_variables_within_the_input() {
    let eq = parse("a*!b*!c + a*!c + b*a*c + !b*c + b*c");
    let before = eq.get_vars();
    let after = eq.deep_clone().complete_simplify().unwrap().get_vars();
    for v in after {
        assert!(before.contains(&v));
    }
}

#[test]
fn simplify_output_shape() {
    // no sum under a product, every negation directly on a variable
    let simple = parse("!(a * b + !c) * (d + a)").complete_simplify().unwrap();
    let text = simple.to_text();
    // inside the outermost sum, no nested opening parenthesis ever holds a plus
    let inner = &text[1..text.len() - 1];
    let mut depth = 0usize;
    for ch in inner.chars() {
        match ch {
            '(' => depth += 1,
            ')' => depth -= 1,
            '+' => assert_eq!(depth, 0, "a sum sits under a product in {}", text),
            _ => {}
        }
    }
    // every bang is followed by a space and a variable letter
    let chars: Vec<char> = text.chars().collect();
    for i in 0..chars.len() {
        if chars[i] == '!' {
            assert_eq!(chars[i + 1], ' ');
            assert!(chars[i + 2].is_alphanumeric(), "negation of a non-variable in {}", text);
        }
    }
}

#[test]
fn contradictory_product_is_dropped() {
    // a summand that needs a variable both true and false never holds
    let eq = parse("a*!a + b");
    let simple = eq.deep_clone().complete_simplify().unwrap();
    let mut vars = Assignment::new();
    vars.insert("a".to_string(), true);
    vars.insert("b".to_string(), false);
    assert_eq!(simple.eval(&vars), false);
    vars.insert("b".to_string(), true);
    assert_eq!(simple.eval(&vars), true);
}

#[test]
fn lex_error_is_reported() {
    match Equation::from("a ? b".to_string()) {
        Err(EqError::Lex('?')) => {}
        _ => panic!("an unrecognized character must fail the lexer"),
    }
}

#[test]
fn empty_product_prints_as_parentheses() {
    let e = Equation::Prod(Box::new(Prod::new(vec![])));
    assert_eq!(e.to_text(), "()");
}

#[test]
fn deep_clone_and_equals() {
    let eq = parse("a + !b * c");
    let copy = eq.deep_clone();
    assert!(eq.deep_equals(&copy));
    let other = parse("a + !b * d");
    assert!(!eq.deep_equals(&other));
}

#[test]
fn only_var_is_least_name() {
    let eq = parse("zz * b * m");
    assert_eq!(eq.get_only_var(), "b".to_string());
}

#[test]
fn is_simplified_depth_cutoff() {
    let shallow = parse("a + b");
    assert!(shallow.is_simplified(0));
    assert!(!shallow.is_simplified(5));
}

#[test]
fn removed_doublons_orders_and_dedups() {
    let tree = parse("b * a * b * !c").complete_simplify().unwrap();
    // rebuild the product's children as a plain product to query it
    match tree {
        Equation::Prod(p) => {
            let cleaned = Prod::new(p.inner).removed_doublons();
            let texts: Vec<String> = cleaned.iter().map(|e| e.to_text()).collect();
            assert_eq!(texts, vec!["a".to_string(), "b".to_string(), "! c".to_string()]);
        }
        other => panic!("expected a product, got {}", other.to_text()),
    }
}

#[test]
fn removed_doublons_contradiction_empties() {
    let items = vec![
        Equation::Var("a".to_string()),
        Equation::Not(Box::new(Not::new(Equation::Var("a".to_string())))),
    ];
    assert_eq!(Prod::new(items).removed_doublons().len(), 0);
}

#[test]
fn oracle_rejects_different_variable_sets() {
    let a = parse("a + b");
    let b = parse("a + c");
    assert!(!a.compare_random_values(&b, 10));
}

#[test]
fn oracle_accepts_reordered_products() {
    let a = parse("a * b + c");
    let b = parse("c + b * a");
    assert!(a.compare_random_values(&b, 100));
}

#[test]
fn single_variable_simplifies_to_itself() {
    let eq = parse("x");
    assert_eq!(eq.complete_simplify().unwrap().to_text(), "x");
}

#[test]
fn duplicate_summands_collapse() {
    let eq = parse("b*a + b*a");
    assert_eq!(eq.complete_simplify().unwrap().to_text(), "((a * b))");
}
