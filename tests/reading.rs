use qbf::introduce::with_parsed_problem;
use qbf::parser::{parse, Expression};
use qbf::solver::{solve, Quantifier, Solution};

#[test]
fn reads_a_whole_problem() {
    let text = "forall x\nexists y\n\nz = and(x, ~y)\nw = or(z, y)\nv = not(w)\nu = true\nt = false\ns = ~v\ns\n";
    let p = parse(text).expect("parses");
    assert_eq!(p.quantifiers.len(), 2);
    assert_eq!(p.quantifiers[0].0, Quantifier::ForAll);
    assert_eq!(p.quantifiers[0].1, "x");
    assert_eq!(p.quantifiers[1].0, Quantifier::Exists);
    assert_eq!(p.quantifiers[1].1, "y");
    assert_eq!(p.statements.len(), 6);
    assert_eq!(p.statements[0].name, "z");
    match &p.statements[0].exp {
        Expression::And(a, b) => {
            assert!(a.polarity && a.var == "x");
            assert!(!b.polarity && b.var == "y");
        }
        _ => panic!("expected a conjunction"),
    }
    assert!(matches!(&p.statements[1].exp, Expression::Or(_, _)));
    assert!(matches!(&p.statements[2].exp, Expression::Not(_)));
    assert!(matches!(&p.statements[3].exp, Expression::True));
    assert!(matches!(&p.statements[4].exp, Expression::False));
    assert!(matches!(&p.statements[5].exp, Expression::Lit(l) if !l.polarity && l.var == "v"));
    assert!(p.output.polarity);
    assert_eq!(p.output.var, "s");
}

#[test]
fn blanks_and_empty_lines_are_ignored() {
    let p = parse("  exists   a \r\n\n\t b=not( a )\n\n  ~b  ").expect("parses");
    assert_eq!(p.quantifiers.len(), 1);
    assert_eq!(p.statements.len(), 1);
    assert!(!p.output.polarity);
}

#[test]
fn malformed_texts_are_rejected() {
    assert!(parse("").is_none());
    // a single line is the output literal: here the name "forallx"
    assert!(parse("forall x\n").is_some());
    assert!(parse("forall x\ny = and(x)\ny").is_none());
    assert!(parse("forall x\ny = xor(x, x)\ny").is_none());
    // the last line must be the output literal
    assert!(parse("forall x\ny = and(x, x)\n").is_none());
    // blanks are ignored, also inside a name
    assert!(parse("forall x\ny = and(x, x)\ny z").is_some());
    assert!(parse("forall x\ny = and(x, x)\ny\nz").is_none());
    assert!(parse("forall 1\nx").is_none());
    assert!(parse("forall true\nx").is_none());
    assert!(parse("x = true\n~~x").is_none());
}

#[test]
fn a_read_problem_solves() {
    let p = parse("forall x\nexists y\ns = and(x, y)\nt = and(~x, ~y)\nu = or(s, t)\nu").expect("parses");
    let mut qbf = with_parsed_problem(p).expect("names are bound");
    assert_eq!(solve(&mut qbf), Ok(Solution::Sat));
    let p = parse("exists y\nforall x\ns = and(x, y)\nt = and(~x, ~y)\nu = or(s, t)\nu").expect("parses");
    let mut qbf = with_parsed_problem(p).expect("names are bound");
    assert_eq!(solve(&mut qbf), Ok(Solution::Unsat));
}
