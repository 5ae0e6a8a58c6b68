use qbf::expression::{Builder, Exp, FALSE, TRUE};

#[test]
fn true_is_not_false() {
    let b = Builder::new();
    assert!(b.node(b.true_()) != b.node(b.false_()));
}

#[test]
fn true_is_true() {
    let b = Builder::new();
    assert_eq!(b.node(b.true_()), b.node(b.true_()));
}

#[test]
fn different_trues_are_equal() {
    let t1 = Exp::True;
    let t2 = Exp::True;
    assert_eq!(t1, t2);
    assert_eq!(&t1, &t2);
}

#[test]
fn different_falses_are_equal() {
    let t1 = Exp::False;
    let t2 = Exp::False;
    assert_eq!(t1, t2);
    assert_eq!(&t1, &t2);
}

#[test]
fn false_is_false() {
    let b = Builder::new();
    assert_eq!(b.node(b.false_()), b.node(b.false_()));
}

#[test]
fn not_false_is_true() {
    let mut b = Builder::new();
    let e = b.not(FALSE);
    assert_eq!(e, TRUE);
}

#[test]
fn not_true_is_false() {
    let mut b = Builder::new();
    let e = b.not(TRUE);
    assert_eq!(e, FALSE);
}

#[test]
fn var_is_var() {
    let a = Exp::Var(0);

    assert_eq!(a, a);
}

#[test]
fn var_is_not_var() {
    let a = Exp::Var(0);
    let b = Exp::Var(1);

    assert!(a != b);
}

#[test]
fn different_nots_are_equal() {
    let mut b = Builder::new();
    let a = b.var(0);
    let a_1 = b.not(a);
    let a_2 = b.not(a);

    assert_eq!(a_1, a_2);
    assert_eq!(b.node(a_1), Exp::Not(a));
}

#[test]
fn not_not_var_is_var() {
    let mut b = Builder::new();
    let a = b.var(0);

    let a_ = b.not(a);
    let a__ = b.not(a_);
    assert_eq!(a, a__);
}

#[test]
fn or_expr() {
    let mut bld = Builder::new();
    let a = bld.var(0);
    let b = bld.var(1);

    let a_ = bld.not(a);

    let e = bld.or(a_, b);
    let e_1 = bld.not(e);
    let b_ = bld.not(b);
    let e_2 = bld.and(a, b_);
    assert_eq!(e_1, e_2);
}
