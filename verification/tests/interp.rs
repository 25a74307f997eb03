use rust_labs::interp;
use rust_labs::interp::{Context, Expr, Nothing, Stmt};
use std::cell::RefCell;
use std::rc::Rc;

// Remembers its label each time it, or anything that shares its log, runs.
struct Recorder {
    label: &'static str,
    log: Rc<RefCell<Vec<&'static str>>>,
}
impl Stmt for Recorder {
    fn exec_stmt(&mut self, _context: &Context) {
        self.log.borrow_mut().push(self.label);
    }
}

// Counts how often it, or anything that shares its counter, is evaluated.
struct CounterExpr {
    calls: Rc<RefCell<u32>>,
    value: u64,
}
impl Expr for CounterExpr {
    fn exec_expr(&mut self, _context: &Context) -> u64 {
        *self.calls.borrow_mut() += 1;
        self.value
    }
}

#[test]
fn print_struct_executes_inner_once() {
    let ctx = Context::from([("x", 0), ("y", 0)]);
    let calls = Rc::new(RefCell::new(0u32));
    let ce = CounterExpr {
        calls: calls.clone(),
        value: 123,
    };
    let mut p = interp::print(ce);
    p.exec_stmt(&ctx);
    assert_eq!(*calls.borrow(), 1);
}

#[test]
fn nothing_struct_does_nothing() {
    let ctx = Context::from([("x", 0), ("y", 0)]);
    let mut n = Nothing;
    n.exec_stmt(&ctx);
}

#[test]
fn seq_struct_executes_in_order() {
    let ctx = Context::from([("x", 0), ("y", 0)]);
    let log = Rc::new(RefCell::new(Vec::new()));
    let r1 = Recorder {
        label: "first",
        log: log.clone(),
    };
    let r2 = Recorder {
        label: "second",
        log: log.clone(),
    };
    let mut s = interp::seq(r1, r2);
    s.exec_stmt(&ctx);
    assert_eq!(&*log.borrow(), &["first", "second"]);
}

#[test]
fn seq_shorten_1_discards_trailing_nothing_and_returns_first() {
    let ctx = Context::from([("x", 0), ("y", 0)]);
    let log = Rc::new(RefCell::new(Vec::new()));
    let r = Recorder {
        label: "A",
        log: log.clone(),
    };
    let s = interp::seq(r, interp::nothing());
    // shorten_1 should return the first statement (Recorder)
    let mut first_only = s.shorten_1();
    first_only.exec_stmt(&ctx);
    assert_eq!(&*log.borrow(), &["A"]);
}

#[test]
fn seq_shorten_2_discards_leading_nothing_and_returns_second() {
    let ctx = Context::from([("x", 0), ("y", 0)]);
    let log = Rc::new(RefCell::new(Vec::new()));
    let r = Recorder {
        label: "B",
        log: log.clone(),
    };
    let s = interp::seq(interp::nothing(), r);
    // shorten_2 should return the second statement (Recorder)
    let mut second_only = s.shorten_2();
    second_only.exec_stmt(&ctx);
    assert_eq!(&*log.borrow(), &["B"]);
}

#[test]
fn seq_collapse_reduces_two_nothings_to_single_nothing() {
    let _collapsed: Nothing = interp::seq(interp::nothing(), interp::nothing()).collapse();
}

#[test]
fn when_struct_branches() {
    let ctx = Context::new();
    let mut expr0 = interp::when(0, 7u64, 8u64);
    let mut expr1 = interp::when(1, 7u64, 8u64);
    assert_eq!(expr0.exec_expr(&ctx), 8);
    assert_eq!(expr1.exec_expr(&ctx), 7);
}

#[test]
fn repeat_struct_runs_n_times() {
    let ctx = Context::new();
    let log = Rc::new(RefCell::new(Vec::new()));
    let r = Recorder {
        label: "tick",
        log: log.clone(),
    };

    let mut rep = interp::repeat::<3, _>(r);
    rep.exec_stmt(&ctx);
    assert_eq!(&*log.borrow(), &["tick", "tick", "tick"]);
}

#[test]
fn constant_struct_reads_value() {
    let ctx = Context::from([("k", 123u64)]);
    let mut program = interp::constant("k");
    assert_eq!(program.exec_expr(&ctx), 123);
}

#[test]
fn readfrom_struct_returns_value() {
    let ctx = Context::new();
    let x: u64 = 99;
    let mut program = interp::read_from(&x);
    assert_eq!(program.exec_expr(&ctx), 99);
}

#[test]
fn savein_struct_writes_and_returns() {
    let ctx = Context::new();
    let mut dst: u64 = 0;
    let mut program = interp::save_in(&mut dst, 123u64);
    let out = program.exec_expr(&ctx);
    assert_eq!(dst, 123);
    assert_eq!(out, 123);
}

#[test]
fn volatile_struct_shadows_and_updates() {
    let ctx = Context::from([("y", 10)]);
    let mut a: u64 = 0;

    let mut v1 = interp::volatile(&mut a, "y", interp::when(interp::constant("y"), 7u64, 8u64));
    let out1 = v1.exec_expr(&ctx);
    assert_eq!(out1, 8);
    assert_eq!(a, 8);

    let mut v2 = interp::volatile(&mut a, "y", interp::when(interp::constant("y"), 7u64, 8u64));
    let out2 = v2.exec_expr(&ctx);
    assert_eq!(out2, 7);
    assert_eq!(a, 7);
}

// Nesting tests
#[test]
fn nesting_when_inside_when_structs() {
    let ctx1 = Context::from([("x", 1), ("y", 1)]);
    let ctx2 = Context::from([("x", 1), ("y", 0)]);
    let ctx3 = Context::from([("x", 0), ("y", 0)]);
    let mut nested = interp::when(
        interp::when(interp::constant("y"), 1u64, 0u64),
        10u64,
        interp::when(interp::constant("x"), 20u64, 30u64),
    );
    assert_eq!(nested.exec_expr(&ctx1), 10);
    assert_eq!(nested.exec_expr(&ctx2), 20);
    assert_eq!(nested.exec_expr(&ctx3), 30);
}

#[test]
fn nesting_seq_repeat_order_structs() {
    let ctx = Context::from([("x", 0), ("y", 0)]);
    let log = Rc::new(RefCell::new(Vec::new()));
    let r_a = Recorder {
        label: "A",
        log: log.clone(),
    };
    let r_b = Recorder {
        label: "B",
        log: log.clone(),
    };
    let mut program = interp::seq(interp::repeat::<2, _>(r_a), interp::repeat::<3, _>(r_b));
    program.exec_stmt(&ctx);
    assert_eq!(&*log.borrow(), &["A", "A", "B", "B", "B"]);
}

#[test]
fn nesting_savein_then_volatile_structs() {
    let ctx = Context::from([("y", 0)]);
    let mut a: u64 = 0;
    let mut b: u64 = 0;
    let mut set_a = interp::save_in(&mut a, 5u64);
    assert_eq!(set_a.exec_expr(&ctx), 5);
    let mut expr = interp::save_in(
        &mut b,
        interp::when(
            interp::volatile(&mut a, "y", interp::when(interp::constant("y"), 1u64, 0u64)),
            9u64,
            10u64,
        ),
    );
    let out = expr.exec_expr(&ctx);
    assert_eq!(out, 9);
    assert_eq!(b, 9);
    assert_eq!(a, 1);
}

// Two integration tests that exercise everything
#[test]
fn integration_full_flow_1() {
    let ctx = Context::from([("x", 0), ("y", 10)]);
    let log = Rc::new(RefCell::new(Vec::new()));
    let mut a: u64 = 0;
    let b: u64 = 0;

    // part1
    let mut part1 = interp::seq(
        interp::print(interp::when(interp::constant("y"), 1u64, 2u64)),
        interp::print(interp::when(interp::constant("x"), 1u64, 2u64)),
    );
    part1.exec_stmt(&ctx);

    // part2: save into a, then read a in a separate step to avoid borrow conflicts
    let mut part2a = interp::print(interp::save_in(&mut a, interp::when(interp::constant("y"), 7u64, 8u64)));
    part2a.exec_stmt(&ctx);
    let mut part2b = interp::print(interp::read_from(&a));
    part2b.exec_stmt(&ctx);

    // part3
    let mut part3 = interp::seq(
        interp::repeat::<3, _>(Recorder {
            label: "tick",
            log: log.clone(),
        }),
        // Use `a` (currently 7) to shadow `y`, so branch -> 100
        interp::print(interp::volatile(&mut a, "y", interp::when(interp::constant("y"), 100u64, 200u64))),
    );
    part3.exec_stmt(&ctx);

    assert_eq!(a, 100);
    assert_eq!(b, 0);
    assert_eq!(&*log.borrow(), &["tick", "tick", "tick"]);
}

#[test]
fn integration_full_flow_2() {
    let ctx = Context::from([("x", 1), ("y", 0)]);
    let log = Rc::new(RefCell::new(Vec::new()));
    let mut a: u64 = 0;
    let mut b: u64 = 0;

    let mut a_set = interp::save_in(&mut a, interp::when(interp::constant("x"), 9u64, 10u64));
    assert_eq!(a_set.exec_expr(&ctx), 9);
    let mut b_set = interp::save_in(
        &mut b,
        interp::when(
            interp::volatile(&mut a, "y", interp::when(interp::constant("y"), 1u64, 0u64)),
            123u64,
            456u64,
        ),
    );
    assert_eq!(b_set.exec_expr(&ctx), 123);

    let mut program = interp::seq(
        interp::repeat::<2, _>(Recorder {
            label: "A",
            log: log.clone(),
        }),
        interp::repeat::<1, _>(Recorder {
            label: "B",
            log: log.clone(),
        }),
    );
    program.exec_stmt(&ctx);

    assert_eq!(a, 1);
    assert_eq!(b, 123);
    assert_eq!(&*log.borrow(), &["A", "A", "B"]);
}

#[test]
fn repeat_runs_exactly_n_times_for_zero_one_and_three() {
    let ctx = Context::new();
    let log = Rc::new(RefCell::new(Vec::new()));
    let mut zero = interp::repeat::<0, _>(Recorder {
        label: "zero",
        log: log.clone(),
    });
    zero.exec_stmt(&ctx);
    assert_eq!(log.borrow().len(), 0);
    let mut one = interp::repeat::<1, _>(Recorder {
        label: "one",
        log: log.clone(),
    });
    one.exec_stmt(&ctx);
    assert_eq!(&*log.borrow(), &["one"]);
    let mut three = interp::repeat::<3, _>(Recorder {
        label: "three",
        log: log.clone(),
    });
    three.exec_stmt(&ctx);
    assert_eq!(&*log.borrow(), &["one", "three", "three", "three"]);
}

#[test]
fn when_evaluates_only_the_branch_it_takes() {
    let ctx = Context::new();
    let on_true = Rc::new(RefCell::new(0u32));
    let on_false = Rc::new(RefCell::new(0u32));
    let mut zero = interp::when(
        0u64,
        CounterExpr {
            calls: on_true.clone(),
            value: 7,
        },
        CounterExpr {
            calls: on_false.clone(),
            value: 8,
        },
    );
    assert_eq!(zero.exec_expr(&ctx), 8);
    assert_eq!(*on_true.borrow(), 0);
    assert_eq!(*on_false.borrow(), 1);
    let mut nonzero = interp::when(
        5u64,
        CounterExpr {
            calls: on_true.clone(),
            value: 7,
        },
        CounterExpr {
            calls: on_false.clone(),
            value: 8,
        },
    );
    assert_eq!(nonzero.exec_expr(&ctx), 7);
    assert_eq!(*on_true.borrow(), 1);
    assert_eq!(*on_false.borrow(), 1);
}

#[test]
fn when_evaluates_its_condition_once() {
    let ctx = Context::new();
    let calls = Rc::new(RefCell::new(0u32));
    let mut expr = interp::when(
        CounterExpr {
            calls: calls.clone(),
            value: u64::MAX,
        },
        1u64,
        2u64,
    );
    assert_eq!(expr.exec_expr(&ctx), 1);
    assert_eq!(*calls.borrow(), 1);
}

#[test]
fn when_never_looks_into_the_branch_it_skips() {
    // the name in the skipped branch is bound nowhere
    let ctx = Context::from([("x", 3)]);
    let mut expr = interp::when(interp::constant("x"), 1u64, interp::constant("missing"));
    assert_eq!(expr.exec_expr(&ctx), 1);
}

#[test]
fn volatile_leaves_the_environment_alone() {
    let ctx = Context::from([("x", 0), ("y", 10)]);
    let mut cell: u64 = 0;
    {
        let mut shadowing = interp::volatile(&mut cell, "y", interp::constant("y"));
        // inside, `y` is what the cell holds
        assert_eq!(shadowing.exec_expr(&ctx), 0);
    }
    assert_eq!(cell, 0);
    // outside, `y` is what it was
    assert_eq!(ctx.get("y"), Some(10));
    assert_eq!(interp::constant("y").exec_expr(&ctx), 10);
    {
        let mut shadowing = interp::volatile(
            &mut cell,
            "y",
            interp::when(interp::constant("y"), 1u64, 42u64),
        );
        assert_eq!(shadowing.exec_expr(&ctx), 42);
    }
    assert_eq!(cell, 42);
    assert_eq!(ctx.get("y"), Some(10));
    assert_eq!(ctx.get("x"), Some(0));
}

#[test]
fn volatile_binds_a_name_that_was_unbound() {
    let ctx = Context::new();
    let mut cell: u64 = 17;
    let mut shadowing = interp::volatile(&mut cell, "fresh", interp::constant("fresh"));
    assert_eq!(shadowing.exec_expr(&ctx), 17);
    assert_eq!(ctx.get("fresh"), None);
}

#[test]
fn end_to_end_conditionals_on_lookups() {
    let ctx = Context::from([("x", 0), ("y", 10)]);
    let mut on_y = interp::when(interp::constant("y"), 1u64, 2u64);
    assert_eq!(on_y.exec_expr(&ctx), 1);
    let mut on_x = interp::when(interp::constant("x"), 1u64, 2u64);
    assert_eq!(on_x.exec_expr(&ctx), 2);
}

#[test]
fn context_keeps_the_last_binding_of_a_name() {
    let mut ctx = Context::from([("a", 1), ("b", 2), ("a", 3)]);
    assert_eq!(ctx.get("a"), Some(3));
    assert_eq!(ctx.get("b"), Some(2));
    assert_eq!(ctx.get("c"), None);
    ctx.insert("b", 20);
    assert_eq!(ctx.get("b"), Some(20));
    let copy = ctx.clone();
    ctx.insert("c", 30);
    assert_eq!(copy.get("c"), None);
    assert_eq!(copy.get("a"), Some(3));
    assert_eq!(ctx.get("c"), Some(30));
    assert_eq!(Context::new().get(""), None);
}

#[test]
fn save_in_evaluates_its_inner_expression_once() {
    let ctx = Context::new();
    let calls = Rc::new(RefCell::new(0u32));
    let mut cell: u64 = 1;
    let mut expr = interp::save_in(
        &mut cell,
        CounterExpr {
            calls: calls.clone(),
            value: 77,
        },
    );
    assert_eq!(expr.exec_expr(&ctx), 77);
    assert_eq!(*calls.borrow(), 1);
    assert_eq!(cell, 77);
}
