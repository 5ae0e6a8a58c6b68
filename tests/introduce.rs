use qbf::expression::Exp;
use qbf::introduce::with_parsed_problem;
use qbf::parser;
use qbf::parser::Expression as PExp;
use qbf::solver::Quantifier;

fn pos(s: &str) -> parser::Literal {
    parser::Literal { polarity: true, var: s.to_string() }
}

fn st(s: &str, exp: PExp) -> parser::Statement {
    parser::Statement { name: s.to_string(), exp: exp }
}

#[test]
fn false_becomes_false() {
    let p = parser::Problem {
        quantifiers: vec![],
        statements: vec![st("x", PExp::False)],
        output: pos("x"),
    };

    let qbf = with_parsed_problem(p).expect("bad");
    match qbf.builder.node(qbf.expr) {
        Exp::False => (),
        _ => panic!("bad"),
    }
}

#[test]
fn true_becomes_true() {
    let p = parser::Problem {
        quantifiers: vec![],
        statements: vec![st("x", PExp::True)],
        output: pos("x"),
    };

    let qbf = with_parsed_problem(p).expect("bad");
    match qbf.builder.node(qbf.expr) {
        Exp::True => (),
        _ => panic!("bad"),
    }
}

#[test]
fn and_becomes_and() {
    let p = parser::Problem {
        quantifiers: vec![(Quantifier::ForAll, "x".to_string())],
        statements: vec![st("y", PExp::And(pos("x"), pos("x")))],
        output: pos("y"),
    };

    let qbf = with_parsed_problem(p).expect("bad");
    match qbf.builder.node(qbf.expr) {
        Exp::And(a, b) if a == b && qbf.builder.node(a) == Exp::Var(0) => (),
        _ => panic!("bad"),
    }
}

#[test]
fn not_becomes_not() {
    let p = parser::Problem {
        quantifiers: vec![(Quantifier::ForAll, "x".to_string())],
        statements: vec![st("y", PExp::Not(pos("x")))],
        output: pos("y"),
    };

    let qbf = with_parsed_problem(p).expect("bad");
    match qbf.builder.node(qbf.expr) {
        Exp::Not(a) if qbf.builder.node(a) == Exp::Var(0) => (),
        _ => panic!("bad"),
    }
}

#[test]
fn unbound_name_is_rejected() {
    let p = parser::Problem {
        quantifiers: vec![(Quantifier::Exists, "x".to_string())],
        statements: vec![st("y", PExp::Not(pos("z")))],
        output: pos("y"),
    };
    assert!(with_parsed_problem(p).is_none());
}

#[test]
fn later_binding_shadows_earlier() {
    let neg = parser::Literal { polarity: false, var: "x".to_string() };
    let p = parser::Problem {
        quantifiers: vec![(Quantifier::Exists, "x".to_string())],
        statements: vec![st("y", PExp::True), st("y", PExp::Lit(neg))],
        output: pos("y"),
    };
    let qbf = with_parsed_problem(p).expect("bad");
    match qbf.builder.node(qbf.expr) {
        Exp::Not(a) if qbf.builder.node(a) == Exp::Var(0) => (),
        _ => panic!("bad"),
    }
    assert_eq!(qbf.first_quantifier, Quantifier::Exists);
    assert_eq!(qbf.quantifier_blocks, vec![1]);
}
