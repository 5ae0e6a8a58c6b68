use qbf::expression::{Builder, Exp, FALSE, TRUE};
use qbf::solver::{leaf_answer, quantifier_blocks, solve, Quantifier, SolveError, Solution, QBF};
use qbf::substitute::substitute;
use qbf::vars::Vars;

fn problem(first: Quantifier, blocks: Vec<u32>, builder: Builder, expr: usize) -> QBF {
    QBF { first_quantifier: first, quantifier_blocks: blocks, builder, expr }
}

#[test]
fn constants_simplify_conjunction_and_disjunction() {
    let mut b = Builder::new();
    let x = b.var(0);
    let y = b.var(1);
    let e = b.and(x, y);
    assert_eq!(b.and(TRUE, e), e);
    assert_eq!(b.and(e, TRUE), e);
    assert_eq!(b.and(FALSE, e), FALSE);
    assert_eq!(b.and(e, FALSE), FALSE);
    assert_eq!(b.or(TRUE, e), TRUE);
    assert_eq!(b.or(FALSE, e), e);
    assert_eq!(b.or(e, FALSE), e);
}

#[test]
fn conjunction_ignores_operand_order() {
    let mut b = Builder::new();
    let x = b.var(0);
    let y = b.var(1);
    let nx = b.not(x);
    let e1 = b.and(nx, y);
    let e2 = b.and(y, nx);
    assert_eq!(e1, e2);
    let len = b.len();
    let e3 = b.and(y, nx);
    assert_eq!(e3, e1);
    assert_eq!(b.len(), len);
}

#[test]
fn conjunction_absorbs_a_contained_operand() {
    let mut b = Builder::new();
    let x = b.var(0);
    let y = b.var(1);
    let e = b.and(x, y);
    assert_eq!(b.and(e, x), e);
    assert_eq!(b.and(y, e), e);
}

#[test]
fn double_negation_of_conjunction_is_identity() {
    let mut b = Builder::new();
    let x = b.var(0);
    let y = b.var(1);
    let e = b.and(x, y);
    let n = b.not(e);
    assert_eq!(b.node(n), Exp::Not(e));
    assert_eq!(b.not(n), e);
    let f = b.not(TRUE);
    assert_eq!(b.not(f), TRUE);
}

#[test]
fn variables_are_tracked_per_node() {
    let mut b = Builder::new();
    let x = b.var(0);
    let y = b.var(3);
    let e = b.and(x, y);
    let n = b.not(e);
    assert!(b.has_var(n, 0));
    assert!(b.has_var(n, 3));
    assert!(!b.has_var(n, 1));
    assert!(!b.has_var(TRUE, 0));
}

#[test]
fn substitute_removes_the_variable() {
    let mut b = Builder::new();
    let x = b.var(0);
    let y = b.var(1);
    let nx = b.not(x);
    let e = b.or(nx, y);
    let t = substitute(&mut b, e, 0, true);
    assert_eq!(t, y);
    assert!(!b.has_var(t, 0));
    let f = substitute(&mut b, e, 0, false);
    assert_eq!(f, TRUE);
    let g = substitute(&mut b, e, 1, false);
    assert_eq!(g, nx);
}

#[test]
fn substitute_is_idempotent() {
    let mut b = Builder::new();
    let x = b.var(0);
    let y = b.var(1);
    let z = b.var(2);
    let e1 = b.and(x, y);
    let e2 = b.or(e1, z);
    let once = substitute(&mut b, e2, 1, true);
    let len = b.len();
    let twice = substitute(&mut b, once, 1, true);
    assert_eq!(once, twice);
    assert_eq!(b.len(), len);
}

#[test]
fn substitute_without_the_variable_returns_input() {
    let mut b = Builder::new();
    let x = b.var(0);
    let y = b.var(1);
    let e = b.and(x, y);
    let len = b.len();
    assert_eq!(substitute(&mut b, e, 7, false), e);
    assert_eq!(b.len(), len);
}

#[test]
fn exists_excluded_middle_is_sat() {
    let mut b = Builder::new();
    let x = b.var(0);
    let nx = b.not(x);
    let e = b.or(x, nx);
    assert_eq!(solve(&mut problem(Quantifier::Exists, vec![1], b, e)), Ok(Solution::Sat));
}

#[test]
fn exists_contradiction_is_unsat() {
    let mut b = Builder::new();
    let x = b.var(0);
    let nx = b.not(x);
    let e = b.and(x, nx);
    assert_eq!(solve(&mut problem(Quantifier::Exists, vec![1], b, e)), Ok(Solution::Unsat));
}

#[test]
fn forall_exists_tautology_is_sat() {
    let mut b = Builder::new();
    let x = b.var(0);
    let nx = b.not(x);
    let e = b.or(x, nx);
    assert_eq!(solve(&mut problem(Quantifier::ForAll, vec![1, 1], b, e)), Ok(Solution::Sat));
}

#[test]
fn forall_exists_contradiction_is_unsat() {
    let mut b = Builder::new();
    let x = b.var(0);
    let nx = b.not(x);
    let e = b.and(x, nx);
    assert_eq!(solve(&mut problem(Quantifier::ForAll, vec![1, 1], b, e)), Ok(Solution::Unsat));
}

#[test]
fn alternation_matters() {
    // x == y, written as (x and y) or (not x and not y)
    let mut b = Builder::new();
    let x = b.var(0);
    let y = b.var(1);
    let both = b.and(x, y);
    let nx = b.not(x);
    let ny = b.not(y);
    let neither = b.and(nx, ny);
    let e = b.or(both, neither);
    let mut b2 = Builder::new();
    let x2 = b2.var(0);
    let y2 = b2.var(1);
    let both2 = b2.and(x2, y2);
    let nx2 = b2.not(x2);
    let ny2 = b2.not(y2);
    let neither2 = b2.and(nx2, ny2);
    let e2 = b2.or(both2, neither2);
    assert_eq!(solve(&mut problem(Quantifier::ForAll, vec![1, 1], b, e)), Ok(Solution::Sat));
    assert_eq!(solve(&mut problem(Quantifier::Exists, vec![1, 1], b2, e2)), Ok(Solution::Unsat));
}

#[test]
fn unquantified_variable_is_an_error() {
    let mut b = Builder::new();
    let x = b.var(0);
    let y = b.var(1);
    let e = b.and(x, y);
    assert_eq!(solve(&mut problem(Quantifier::Exists, vec![1], b, e)), Err(SolveError::FreeVariable));
}

#[test]
fn settled_formula_needs_no_prefix() {
    let b = Builder::new();
    assert_eq!(solve(&mut problem(Quantifier::Exists, vec![], b, TRUE)), Ok(Solution::Sat));
    let b = Builder::new();
    assert_eq!(solve(&mut problem(Quantifier::ForAll, vec![], b, FALSE)), Ok(Solution::Unsat));
}

#[test]
fn blocks_group_runs_of_one_kind() {
    let (first, blocks) = quantifier_blocks(&vec![
        Quantifier::ForAll,
        Quantifier::ForAll,
        Quantifier::Exists,
        Quantifier::ForAll,
        Quantifier::ForAll,
        Quantifier::ForAll,
    ]);
    assert_eq!(first, Quantifier::ForAll);
    assert_eq!(blocks, vec![2, 1, 3]);
    let (first, blocks) = quantifier_blocks(&vec![]);
    assert_eq!(first, Quantifier::Exists);
    assert!(blocks.is_empty());
}

#[test]
fn vars_union_and_membership() {
    let mut a = Vars::new();
    let mut b = Vars::new();
    a.add(2);
    b.add(70);
    assert!(a.get(2));
    assert!(!a.get(70));
    a.union(&mut b);
    assert!(a.get(2));
    assert!(a.get(70));
    assert!(!a.get(3));
    assert_eq!(a.len(), b.len());
    assert!(a.len() >= 71);
}

#[test]
fn negated_conjunction_sharing_an_operand_is_rewritten() {
    let mut b = Builder::new();
    let x = b.var(0);
    let y = b.var(1);
    let xy = b.and(x, y);
    let n = b.not(xy);
    // not(x and y) and x == not(y) and x
    let e = b.and(n, x);
    let ny = b.not(y);
    let expected = b.and(ny, x);
    assert_eq!(e, expected);
    let (lo, hi) = if x < ny { (x, ny) } else { (ny, x) };
    assert_eq!(b.node(e), Exp::And(lo, hi));
}

#[test]
fn negated_conjunction_with_the_negated_operand_is_absorbed() {
    let mut b = Builder::new();
    let x = b.var(0);
    let y = b.var(1);
    let nx = b.not(x);
    let c = b.and(nx, y);
    let n = b.not(c);
    // not(not x and y) and x == x
    assert_eq!(b.and(n, x), x);
    assert_eq!(b.and(x, n), x);
}

#[test]
fn match_and_leaves_other_forms_alone() {
    let mut b = Builder::new();
    let x = b.var(0);
    let y = b.var(1);
    let z = b.var(2);
    let xy = b.and(x, y);
    let n = b.not(xy);
    let len = b.len();
    assert_eq!(b.match_and(n, z), None);
    assert_eq!(b.match_and(x, y), None);
    assert_eq!(b.len(), len);
    assert!(b.match_and(n, x).is_some());
}

#[test]
fn leaf_answer_maps_the_oracle_answer() {
    assert_eq!(leaf_answer(Quantifier::Exists, Some(true)), Ok(Solution::Sat));
    assert_eq!(leaf_answer(Quantifier::Exists, Some(false)), Ok(Solution::Unsat));
    assert_eq!(leaf_answer(Quantifier::ForAll, Some(true)), Ok(Solution::Unsat));
    assert_eq!(leaf_answer(Quantifier::ForAll, Some(false)), Ok(Solution::Sat));
    assert_eq!(leaf_answer(Quantifier::Exists, None), Err(SolveError::OracleUnknown));
    assert_eq!(leaf_answer(Quantifier::ForAll, None), Err(SolveError::OracleUnknown));
}

#[test]
fn match_and_with_a_constant_is_no_rewrite() {
    let mut b = Builder::new();
    let x = b.var(0);
    let y = b.var(1);
    let xy = b.and(x, y);
    let n = b.not(xy);
    assert_eq!(b.match_and(n, TRUE), None);
    assert_eq!(b.match_and(n, FALSE), None);
}
