use rust_labs::symbolic::{Const, Var, E};

#[test]
fn test_const_to_string() {
    let c_num = Const::Numeric(42);
    let c_name = Const::Named("a".into());
    assert_eq!(c_num.to_string(), "42");
    assert_eq!(c_name.to_string(), "a");
}

#[test]
fn test_var_to_string() {
    assert_eq!(Var::X.to_string(), "X");
    assert_eq!(Var::Y.to_string(), "Y");
    assert_eq!(Var::Z.to_string(), "Z");
}

#[test]
fn test_builder_constant_var() {
    let e_const = E::constant(Const::Numeric(5));
    let e_var = E::var(Var::X);
    assert_eq!(e_const.to_string(), "5");
    assert_eq!(e_var.to_string(), "X");
}

#[test]
fn test_builder_add() {
    let expr = E::add(E::constant(Const::Numeric(2)), E::var(Var::X));
    assert_eq!(expr.to_string(), "(2 + X)");
}

#[test]
fn test_builder_neg() {
    let expr = E::neg(E::var(Var::X));
    assert_eq!(expr.to_string(), "-(X)");
}

#[test]
fn test_builder_mul() {
    let expr = E::mul(E::var(Var::X), E::var(Var::Y));
    assert_eq!(expr.to_string(), "(X * Y)");
}

#[test]
fn test_builder_inv() {
    let expr = E::inv(E::var(Var::X));
    assert_eq!(expr.to_string(), "1/(X)");
}

#[test]
fn test_builder_func() {
    let expr = E::func("f".into(), E::var(Var::X));
    assert_eq!(expr.to_string(), "f(X)");
}

#[test]
fn test_expr_to_string_complex() {
    let expr1 = E::add(E::constant(Const::Numeric(2)), E::var(Var::X));
    let expr2 = E::mul(E::neg(E::var(Var::Y)), E::inv(E::var(Var::Z)));
    let complex = E::add(
        E::func("f".into(), expr1.clone()),
        E::func("g".into(), expr2.clone()),
    );
    assert_eq!(complex.to_string(), "(f((2 + X)) + g((-(Y) * 1/(Z))))");
}

#[test]
fn test_diff_add_vars() {
    let expr = E::add(E::var(Var::X), E::var(Var::Y));
    let d = expr.diff(Var::X);
    assert_eq!(d.to_string(), "(1 + 0)");
}

#[test]
fn test_unpack_inv_inv() {
    let double_inv = E::inv(E::inv(E::var(Var::X)));
    let inner = double_inv.clone().unpack_inv_inv().unwrap();
    assert_eq!(inner.to_string(), "X");
}

#[test]
fn test_unpack_neg_neg() {
    let double_neg = E::neg(E::neg(E::neg(E::neg(E::neg(E::var(Var::Y))))));
    let inner = double_neg.clone().unneg();
    assert_eq!(inner.to_string(), "-(Y)");
}

#[test]
fn test_simplify_double_inv() {
    let double_inv = E::inv(E::inv(E::var(Var::X)));
    let simplified = double_inv.uninv();
    assert_eq!(simplified.to_string(), "X");
}

#[test]
fn test_simplify_double_neg() {
    let double_neg = E::neg(E::neg(E::var(Var::X)));
    let simplified = double_neg.unneg();
    assert_eq!(simplified.to_string(), "X");
}

#[test]
fn test_substitute_named_constant() {
    let expr = E::add(E::constant(Const::Named("a".into())), E::var(Var::X));
    let substituted = expr.substitute("a", E::constant(Const::Numeric(10)));
    assert_eq!(substituted.to_string(), "(10 + X)");
}

#[test]
fn test_substitute_deep() {
    let expr = E::mul(
        E::constant(Const::Named("a".into())),
        E::func("f".into(), E::constant(Const::Named("a".into()))),
    );
    let substituted = expr.substitute("a", E::constant(Const::Numeric(3)));
    assert_eq!(substituted.to_string(), "(3 * f(3))");
}

#[test]
fn test_diff_neg() {
    let expr = E::neg(E::var(Var::X));
    let d = expr.diff(Var::X);
    assert_eq!(d.to_string(), "-(1)");
}

#[test]
fn test_diff_mul() {
    let expr = E::mul(E::var(Var::X), E::var(Var::Y));
    let d = expr.diff(Var::X);
    assert_eq!(d.to_string(), "((1 * Y) + (X * 0))");
}

#[test]
fn test_diff_inv() {
    let expr = E::inv(E::var(Var::X));
    let d = expr.diff(Var::X);
    assert_eq!(d.to_string(), "(-(1/((X * X))) * 1)");
}

#[test]
fn test_diff_const_numeric() {
    let expr = E::constant(Const::Numeric(7));
    let d = expr.diff(Var::X);
    assert_eq!(d.to_string(), "0");
}

#[test]
fn test_diff_const_named() {
    let expr = E::constant(Const::Named("a".into()));
    let d = expr.diff(Var::X);
    assert_eq!(d.to_string(), "0");
}

#[test]
fn test_diff_func() {
    let expr = E::func("f".into(), E::var(Var::X));
    let d = expr.diff(Var::X);
    assert_eq!(d.to_string(), "(f_X(X) * 1)");
}

#[test]
fn test_diff_var_same() {
    let d = E::var(Var::X).diff(Var::X);
    assert_eq!(d.to_string(), "1");
}

#[test]
fn test_diff_var_other() {
    let d = E::var(Var::Y).diff(Var::X);
    assert_eq!(d.to_string(), "0");
}

#[test]
fn test_diff_big_expression() {
    // (((X + -(Y)) * 1/(Z)) + (f((X * Y)) + g(1/(X))))
    let part1 = E::add(E::var(Var::X), E::neg(E::var(Var::Y)));
    let part2 = E::inv(E::var(Var::Z));
    let a = E::mul(part1.clone(), part2.clone());
    let xy = E::mul(E::var(Var::X), E::var(Var::Y));
    let b = E::func("f".into(), xy);
    let inv_x = E::inv(E::var(Var::X));
    let c = E::func("g".into(), inv_x);
    let big = E::add(a.clone(), E::add(b.clone(), c.clone()));

    assert_eq!(
        big.to_string(),
        "(((X + -(Y)) * 1/(Z)) + (f((X * Y)) + g(1/(X))))"
    );

    let d = big.diff(Var::X);
    assert_eq!(
        d.to_string(),
        "((((1 + -(0)) * 1/(Z)) + ((X + -(Y)) * (-(1/((Z * Z))) * 0))) + ((f_X((X * Y)) * ((1 * Y) + (X * 0))) + (g_X(1/(X)) * (-(1/((X * X))) * 1))))"
    );
}

#[test]
fn test_arg_count_zeroary() {
    assert_eq!(E::constant(Const::Numeric(1)).arg_count(), 0);
    assert_eq!(E::var(Var::X).arg_count(), 0);
}

#[test]
fn test_arg_count_unary() {
    assert_eq!(E::neg(E::var(Var::X)).arg_count(), 1);
    assert_eq!(E::inv(E::var(Var::X)).arg_count(), 1);
    assert_eq!(E::func("f".into(), E::var(Var::X)).arg_count(), 1);
}

#[test]
fn test_arg_count_binary() {
    assert_eq!(E::add(E::var(Var::X), E::var(Var::Y)).arg_count(), 2);
    assert_eq!(E::mul(E::var(Var::X), E::var(Var::Z)).arg_count(), 2);
}

#[test]
fn rendering_twice_gives_the_same_text() {
    let expr = E::add(
        E::func("f".into(), E::neg(E::var(Var::Z))),
        E::inv(E::constant(Const::Named("k".into()))),
    );
    let first = expr.to_string();
    let second = expr.to_string();
    assert_eq!(first, second);
    assert_eq!(first, "(f(-(Z)) + 1/(k))");
    assert_eq!(expr.clone().to_string(), first);
}

#[test]
fn negative_and_extreme_numbers_render_in_decimal() {
    assert_eq!(E::constant(Const::Numeric(-5)).to_string(), "-5");
    assert_eq!(E::constant(Const::Numeric(0)).to_string(), "0");
    assert_eq!(Const::Numeric(i64::MIN).to_string(), "-9223372036854775808");
    assert_eq!(Const::Numeric(i64::MAX).to_string(), "9223372036854775807");
}

#[test]
fn sum_rule_on_concrete_trees() {
    let f = E::mul(E::var(Var::X), E::var(Var::X));
    let g = E::func("g".into(), E::var(Var::Y));
    let whole = E::add(f.clone(), g.clone()).diff(Var::X);
    let parts = E::add(f.diff(Var::X), g.diff(Var::X));
    assert_eq!(whole.to_string(), parts.to_string());
    assert_eq!(whole.to_string(), "(((1 * X) + (X * 1)) + (g_X(Y) * 0))");
}

#[test]
fn product_rule_on_concrete_trees() {
    let f = E::inv(E::var(Var::Y));
    let g = E::neg(E::var(Var::Y));
    let whole = E::mul(f.clone(), g.clone()).diff(Var::Y);
    let parts = E::add(
        E::mul(f.clone().diff(Var::Y), g.clone()),
        E::mul(f, g.diff(Var::Y)),
    );
    assert_eq!(whole.to_string(), parts.to_string());
    assert_eq!(
        whole.to_string(),
        "(((-(1/((Y * Y))) * 1) * -(Y)) + (1/(Y) * -(1)))"
    );
}

#[test]
fn function_rule_names_the_stand_in_after_the_variable() {
    let expr = E::func("sin".into(), E::var(Var::X));
    assert_eq!(expr.clone().diff(Var::Y).to_string(), "(sin_Y(X) * 0)");
    assert_eq!(expr.diff(Var::Z).to_string(), "(sin_Z(X) * 0)");
}

fn negations(layers: u32, core: Box<E>) -> Box<E> {
    let mut expr = core;
    for _ in 0..layers {
        expr = E::neg(expr);
    }
    expr
}

fn inversions(layers: u32, core: Box<E>) -> Box<E> {
    let mut expr = core;
    for _ in 0..layers {
        expr = E::inv(expr);
    }
    expr
}

#[test]
fn negations_cancel_in_pairs() {
    for layers in 0..9 {
        let stripped = negations(layers, E::var(Var::X)).unneg();
        let expected = if layers % 2 == 0 { "X" } else { "-(X)" };
        assert_eq!(stripped.to_string(), expected);
    }
}

#[test]
fn inversions_cancel_in_pairs() {
    for layers in 0..9 {
        let stripped = inversions(layers, E::var(Var::Y)).uninv();
        let expected = if layers % 2 == 0 { "Y" } else { "1/(Y)" };
        assert_eq!(stripped.to_string(), expected);
    }
}

#[test]
fn stripping_stops_at_the_first_other_node() {
    // the negations under the sum are not outermost
    let inner = E::add(negations(2, E::var(Var::X)), E::var(Var::Y));
    let expr = negations(2, inner);
    assert_eq!(expr.unneg().to_string(), "(-(-(X)) + Y)");
    // reciprocals do not cancel negations
    let mixed = E::neg(E::inv(E::neg(E::inv(E::var(Var::X)))));
    assert_eq!(mixed.clone().unneg().to_string(), "-(1/(-(1/(X))))");
    assert_eq!(mixed.uninv().to_string(), "-(1/(-(1/(X))))");
}

#[test]
fn unpacking_needs_two_layers() {
    assert!(E::var(Var::X).unpack_neg_neg().is_none());
    assert!(E::neg(E::var(Var::X)).unpack_neg_neg().is_none());
    assert!(E::neg(E::inv(E::var(Var::X))).unpack_neg_neg().is_none());
    assert!(E::inv(E::var(Var::X)).unpack_inv_inv().is_none());
    assert!(E::inv(E::neg(E::var(Var::X))).unpack_inv_inv().is_none());
    let inner = E::neg(E::neg(E::var(Var::Z))).unpack_neg_neg().unwrap();
    assert_eq!(inner.to_string(), "Z");
}

#[test]
fn substitute_without_match_changes_nothing() {
    let expr = E::add(
        E::mul(E::constant(Const::Named("a".into())), E::var(Var::X)),
        E::func("b".into(), E::constant(Const::Numeric(4))),
    );
    let before = expr.to_string();
    // `b` is only the name of a function here, and no constant is named `c`
    let after_b = expr.clone().substitute("b", E::constant(Const::Numeric(9)));
    let after_c = expr.substitute("c", E::constant(Const::Numeric(9)));
    assert_eq!(after_b.to_string(), before);
    assert_eq!(after_c.to_string(), before);
    assert_eq!(before, "((a * X) + b(4))");
}

#[test]
fn substitute_puts_a_whole_tree_in() {
    let expr = E::neg(E::inv(E::constant(Const::Named("a".into()))));
    let value = E::add(E::var(Var::X), E::constant(Const::Named("a".into())));
    assert_eq!(expr.substitute("a", value).to_string(), "-(1/((X + a)))");
}
