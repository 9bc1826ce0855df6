use boolmin::equation::{Equation, Sum};
use boolmin::mccluskey::{mccluskey, Present, PrimeImplicant};

fn abcde() -> Vec<String> {
    vec![
        "a".to_string(),
        "b".to_string(),
        "c".to_string(),
        "d".to_string(),
        "e".to_string(),
    ]
}

fn cbeda() -> Vec<String> {
    vec![
        "c".to_string(),
        "b".to_string(),
        "e".to_string(),
        "d".to_string(),
        "a".to_string(),
    ]
}

fn prime_over(eq: &str, vars: &Vec<String>) -> PrimeImplicant {
    let tree = Equation::from(eq.to_string()).unwrap().complete_simplify().unwrap();
    PrimeImplicant::from_eq(&tree, vars)
}

fn prime_from_prod(eq: &str) -> PrimeImplicant {
    prime_over(eq, &abcde())
}

fn prime_from_prod_alt(eq: &str) -> PrimeImplicant {
    prime_over(eq, &cbeda())
}

fn simplified_sum(vars: Vec<String>, prods: Vec<PrimeImplicant>) -> String {
    Equation::Sum(Box::new(Sum::new(mccluskey((vars, prods))))).to_text()
}

#[test]
fn test_yes_and_not() {
    let vars = abcde();
    assert_eq!(
        simplified_sum(
            vars,
            vec![
                prime_from_prod("a*b*!c"),
                prime_from_prod("a*!b*!c"),
                prime_from_prod("b*c")
            ]
        ),
        "((a * ! c) + (b * c))"
    );
}

#[test]
fn test_just_one() {
    let vars = abcde();
    assert_eq!(
        simplified_sum(
            vars.clone(),
            vec![
                prime_from_prod("a*b*!c"),
                prime_from_prod("a*!c"),
                prime_from_prod("b*c")
            ]
        ),
        "((a * ! c) + (b * c))"
    );
    assert_eq!(
        simplified_sum(
            vars,
            vec![
                prime_from_prod("a*!b*!c"),
                prime_from_prod("a*!c"),
                prime_from_prod("b*c")
            ]
        ),
        "((a * ! c) + (b * c))"
    );
}

#[test]
fn mccluskey_test_complete() {
    // bucket k holds exactly the implicants with k `Yes` trits, so the
    // one-`Yes` implicants meet `b*c` before `a*b*c` can: `! b * c` merges
    // `b*c` into `c` first, and `a*b*c` stays as a summand. It is covered
    // by `c`, so the result is logically the same sum; exact minimality is
    // not promised.
    let vars = abcde();
    assert_eq!(
        simplified_sum(
            vars,
            vec![
                prime_from_prod("a*!b*!c"),
                prime_from_prod("a*!c"),
                prime_from_prod("b*a*c"),
                prime_from_prod("!b*c"),
                prime_from_prod("b*c")
            ]
        ),
        "((a * b * c) + (a * ! c) + c)"
    );
}

#[test]
fn test_can_merge() {
    assert_eq!(
        prime_from_prod_alt("!a*b*d").can_merge(&prime_from_prod_alt("!a*b")),
        true
    );
    assert_eq!(
        prime_from_prod_alt("!a*b*d").can_merge(&prime_from_prod_alt("a*b*d")),
        true
    );
    assert_eq!(
        prime_from_prod_alt("!a*b*d").can_merge(&prime_from_prod_alt("a*b*!d")),
        false
    );
    assert_eq!(
        prime_from_prod_alt("!a*c").can_merge(&prime_from_prod_alt("a")),
        false
    );
    assert_eq!(
        prime_from_prod_alt("!a*c").can_merge(&prime_from_prod_alt("!a")),
        true
    );
    assert_eq!(
        prime_from_prod_alt("!a").can_merge(&prime_from_prod_alt("a")),
        true
    );
    assert_eq!(
        prime_from_prod_alt("a*b*c*d*e").can_merge(&prime_from_prod_alt("a*e*b*c")),
        true
    );
    assert_eq!(
        prime_from_prod_alt("!a*b*c*d*e").can_merge(&prime_from_prod_alt("a*e*b*c")),
        false
    );
    assert_eq!(
        prime_from_prod_alt("a*b").can_merge(&prime_from_prod_alt("a*e")),
        false
    );
}

#[test]
fn test_merge() {
    let vars = cbeda();
    assert_eq!(
        prime_from_prod_alt("!a*b*d")
            .merge(&prime_from_prod_alt("!a*b"))
            .to_eq(&vars)
            .to_text(),
        "(b * ! a)".to_string()
    );
    assert_eq!(
        prime_from_prod_alt("!a*b*d")
            .merge(&prime_from_prod_alt("a*b*d"))
            .to_eq(&vars)
            .to_text(),
        "(b * d)".to_string()
    );
    assert_eq!(
        prime_from_prod_alt("!a*c")
            .merge(&prime_from_prod_alt("!a"))
            .to_eq(&vars)
            .to_text(),
        "! a".to_string()
    );
    assert_eq!(
        prime_from_prod_alt("!a")
            .merge(&prime_from_prod_alt("a"))
            .to_eq(&vars)
            .to_text(),
        "()".to_string()
    );
    assert_eq!(
        prime_from_prod_alt("a*b*c*d*e")
            .merge(&prime_from_prod_alt("a*e*b*c"))
            .to_eq(&vars)
            .to_text(),
        "(c * b * e * a)".to_string()
    );
}

#[test]
fn to_eq_test_complete() {
    let vars = cbeda();
    assert_eq!(
        Equation::from("c*!b*e*a".to_string())
            .unwrap()
            .complete_simplify()
            .unwrap(),
        PrimeImplicant {
            list: vec![
                Present::Yes,
                Present::No,
                Present::Yes,
                Present::Any,
                Present::Yes
            ],
            nb_any: 1,
            nb_yes: 3,
        }
        .to_eq(&vars)
    )
}

#[test]
fn test_from_not() {
    let vars = vec![
        "a".to_string(),
        "b".to_string(),
        "c".to_string(),
        "d".to_string(),
    ];
    assert_eq!(
        PrimeImplicant::from_eq(
            &Equation::from("!a".to_string()).unwrap().complete_simplify().unwrap(),
            &vars
        ),
        PrimeImplicant {
            list: vec![Present::No, Present::Any, Present::Any, Present::Any],
            nb_any: 3,
            nb_yes: 0,
        }
    )
}

#[test]
fn test_from_prod() {
    let vars = vec![
        "a".to_string(),
        "b".to_string(),
        "c".to_string(),
        "d".to_string(),
    ];
    assert_eq!(
        PrimeImplicant::from_eq(
            &Equation::from("b*a".to_string()).unwrap().complete_simplify().unwrap(),
            &vars
        ),
        PrimeImplicant {
            list: vec![Present::Yes, Present::Yes, Present::Any, Present::Any],
            nb_any: 2,
            nb_yes: 2,
        }
    )
}

#[test]
fn test_from_var() {
    let vars = vec![
        "a".to_string(),
        "b".to_string(),
        "c".to_string(),
        "d".to_string(),
    ];
    assert_eq!(
        PrimeImplicant::from_eq(
            &Equation::from("c".to_string()).unwrap().complete_simplify().unwrap(),
            &vars
        ),
        PrimeImplicant {
            list: vec![Present::Any, Present::Any, Present::Yes, Present::Any],
            nb_any: 3,
            nb_yes: 1,
        }
    )
}

#[test]
fn test_from_multi() {
    let vars = abcde();
    assert_eq!(
        PrimeImplicant::from_eq(
            &Equation::from("c*!b*e*e*a".to_string())
                .unwrap()
                .complete_simplify()
                .unwrap(),
            &vars
        ),
        PrimeImplicant {
            list: vec![
                Present::Yes,
                Present::No,
                Present::Yes,
                Present::Any,
                Present::Yes
            ],
            nb_any: 1,
            nb_yes: 3,
        }
    )
}
