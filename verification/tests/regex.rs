use rust_study::engine::evaluator::{eval, EvalError};
use rust_study::engine::Instruction;
use rust_study::helper::{safe_add, SafeAdd};

#[test]
fn test_safe_add() {
    let n: usize = 10;
    assert_eq!(Some(30), n.safe_add(&20));

    let n: usize = !0;
    assert_eq!(None, n.safe_add(&1));

    let mut n: usize = 10;
    assert!(safe_add(&mut n, &20, || ()).is_ok());

    let mut n: usize = !0;
    assert!(safe_add(&mut n, &1, || ()).is_err());
}

#[test]
fn safe_add_leaves_value_on_overflow() {
    let mut n: usize = usize::MAX - 1;
    assert_eq!(safe_add(&mut n, &1, || "overflow"), Ok(()));
    assert_eq!(n, usize::MAX);
    assert_eq!(safe_add(&mut n, &1, || "overflow"), Err("overflow"));
    assert_eq!(n, usize::MAX);
}

fn chars(s: &str) -> Vec<char> {
    s.chars().collect()
}

/// a(b|c)
fn a_then_b_or_c() -> Vec<Instruction> {
    vec![
        Instruction::Char('a'),
        Instruction::Split(2, 4),
        Instruction::Char('b'),
        Instruction::Jump(5),
        Instruction::Char('c'),
        Instruction::Match,
    ]
}

/// (ab)*
fn ab_star() -> Vec<Instruction> {
    vec![
        Instruction::Split(1, 4),
        Instruction::Char('a'),
        Instruction::Char('b'),
        Instruction::Jump(0),
        Instruction::Match,
    ]
}

#[test]
fn eval_alternation() {
    let prog = a_then_b_or_c();
    for depth in [true, false] {
        assert_eq!(eval(&prog, &chars("ab"), depth), Ok(true));
        assert_eq!(eval(&prog, &chars("ac"), depth), Ok(true));
        assert_eq!(eval(&prog, &chars("acx"), depth), Ok(true));
        assert_eq!(eval(&prog, &chars("ad"), depth), Ok(false));
        assert_eq!(eval(&prog, &chars("a"), depth), Ok(false));
        assert_eq!(eval(&prog, &chars(""), depth), Ok(false));
    }
}

#[test]
fn eval_star() {
    let prog = ab_star();
    for depth in [true, false] {
        assert_eq!(eval(&prog, &chars(""), depth), Ok(true));
        assert_eq!(eval(&prog, &chars("abab"), depth), Ok(true));
        assert_eq!(eval(&prog, &chars("x"), depth), Ok(true));
    }
}

#[test]
fn eval_invalid_pc() {
    let prog = vec![Instruction::Char('a'), Instruction::Jump(9)];
    assert_eq!(eval(&prog, &chars("a"), true), Err(EvalError::InvalidPC));
    assert_eq!(eval(&prog, &chars("a"), false), Err(EvalError::InvalidPC));
    assert_eq!(eval(&prog, &chars("b"), true), Ok(false));
    assert_eq!(eval(&[], &chars("a"), true), Err(EvalError::InvalidPC));
    assert_eq!(eval(&[], &chars("a"), false), Err(EvalError::InvalidPC));
}

#[test]
fn eval_errors_follow_search_order() {
    // The branch tried first decides whether the broken jump is reached.
    let prog = vec![
        Instruction::Split(1, 2),
        Instruction::Jump(7),
        Instruction::Match,
    ];
    assert_eq!(eval(&prog, &chars(""), true), Err(EvalError::InvalidPC));
    assert_eq!(eval(&prog, &chars(""), false), Err(EvalError::InvalidPC));
    let prog2 = vec![
        Instruction::Split(2, 1),
        Instruction::Jump(7),
        Instruction::Match,
    ];
    assert_eq!(eval(&prog2, &chars(""), true), Ok(true));
    assert_eq!(eval(&prog2, &chars(""), false), Ok(true));
}
