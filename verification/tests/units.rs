use stackgen::evm::DataInstruction;
use stackgen::machine::{PreInstruction, PreStackInstruction};
use stackgen::numeral::Numeral;
use stackgen::parser::parse;
use stackgen::program::Expression;
use stackgen::scope::{resolve, Var};
use stackgen::spill::make_spills;
use stackgen::CompileError;

const MAX_WORD: &str =
    "115792089237316195423570985008687907853269984665640564039457584007913129639935";
const MAX_WORD_PLUS_ONE: &str =
    "115792089237316195423570985008687907853269984665640564039457584007913129639936";

#[test]
fn numeral_from_u64() {
    assert_eq!(Numeral::from_u64(0).digits, vec![0]);
    assert_eq!(Numeral::from_u64(98765).digits, vec![9, 8, 7, 6, 5]);
    assert_eq!(
        Numeral::from_u64(u64::MAX).digits,
        vec![1, 8, 4, 4, 6, 7, 4, 4, 0, 7, 3, 7, 0, 9, 5, 5, 1, 6, 1, 5]
    );
}

#[test]
fn numeral_from_ascii_strips_leading_zeros() {
    let n = Numeral::from_ascii(b"00123").unwrap();
    assert_eq!(n.digits, vec![1, 2, 3]);
    let z = Numeral::from_ascii(b"000").unwrap();
    assert_eq!(z.digits, vec![0]);
}

#[test]
fn numeral_from_ascii_bounds() {
    let max = Numeral::from_ascii(MAX_WORD.as_bytes()).unwrap();
    assert_eq!(max.digits.len(), 78);
    assert_eq!(
        Numeral::from_ascii(MAX_WORD_PLUS_ONE.as_bytes()),
        Err(CompileError::Parse)
    );
    let mut too_long = String::from("1");
    too_long.push_str(MAX_WORD);
    assert_eq!(
        Numeral::from_ascii(too_long.as_bytes()),
        Err(CompileError::Parse)
    );
}

#[test]
fn numeral_from_ascii_rejects_nondigits() {
    assert_eq!(Numeral::from_ascii(b""), Err(CompileError::Parse));
    assert_eq!(Numeral::from_ascii(b"12a"), Err(CompileError::Parse));
}

#[test]
fn operator_arities() {
    assert_eq!(DataInstruction::Pop.arity(), (1, 0));
    assert_eq!(DataInstruction::Mstore.arity(), (2, 0));
    assert_eq!(DataInstruction::Mload.arity(), (1, 1));
    assert_eq!(DataInstruction::Add.arity(), (2, 1));
}

#[test]
fn operator_names() {
    assert_eq!(DataInstruction::from_name(b"pop"), Ok(DataInstruction::Pop));
    assert_eq!(DataInstruction::from_name(b"mstore"), Ok(DataInstruction::Mstore));
    assert_eq!(DataInstruction::from_name(b"mload"), Ok(DataInstruction::Mload));
    assert_eq!(DataInstruction::from_name(b"add"), Ok(DataInstruction::Add));
    assert_eq!(
        DataInstruction::from_name(b"mul"),
        Err(CompileError::UnknownOperator)
    );
}

#[test]
fn parse_let_statement() {
    let b = parse(b"let x = const 5;").unwrap();
    assert_eq!(b.0.len(), 1);
    let stmt = &b.0[0];
    assert_eq!(stmt.0, vec![b"x".to_vec()]);
    match &stmt.1 {
        Expression::Const(n) => assert_eq!(n.digits, vec![5]),
        _ => panic!("expected a literal"),
    }
}

#[test]
fn parse_op_statement() {
    let b = parse(b"let s = add a b; pop s;").unwrap();
    assert_eq!(b.0.len(), 2);
    match &b.0[0].1 {
        Expression::Op(name, args) => {
            assert_eq!(name, b"add");
            assert_eq!(args.len(), 2);
            assert_eq!(args[0], b"a".to_vec());
            assert_eq!(args[1], b"b".to_vec());
        }
        _ => panic!("expected an operator"),
    }
    assert!(b.0[1].0.is_empty());
}

#[test]
fn parse_multiple_results() {
    let b = parse(b"let a, b = pair x;").unwrap();
    assert_eq!(b.0[0].0, vec![b"a".to_vec(), b"b".to_vec()]);
}

#[test]
fn parse_rejects_malformed_input() {
    assert!(matches!(parse(b"let = const 1;"), Err(CompileError::Parse)));
    assert!(matches!(parse(b"let x const 1;"), Err(CompileError::Parse)));
    assert!(matches!(parse(b"let x = const 1"), Err(CompileError::Parse)));
    assert!(matches!(parse(b"@"), Err(CompileError::Parse)));
    assert!(matches!(parse(b"let x = const 9z;"), Err(CompileError::Parse)));
}

#[test]
fn parse_empty_input() {
    let b = parse(b"   \n\t ").unwrap();
    assert!(b.0.is_empty());
}

#[test]
fn resolve_assigns_dense_ids() {
    let ast = parse(b"let x = const 1; let y = add x x;").unwrap();
    let rb = resolve(ast).unwrap();
    assert_eq!(rb.var_count, 2);
    match &rb.block.0[1].1 {
        Expression::Op(_, args) => {
            assert_eq!(args.len(), 2);
            assert_eq!(args[0].index(), 0);
            assert_eq!(args[1].index(), 0);
        }
        _ => panic!("expected an operator"),
    }
    assert_eq!(rb.block.0[1].0[0].index(), 1);
}

#[test]
fn resolve_shadowing_uses_latest_binding() {
    let ast = parse(b"let x = const 1; let x = const 2; pop x;").unwrap();
    let rb = resolve(ast).unwrap();
    match &rb.block.0[2].1 {
        Expression::Op(_, args) => assert_eq!(args[0].index(), 1),
        _ => panic!("expected an operator"),
    }
}

#[test]
fn resolve_rejects_unbound_names() {
    let ast = parse(b"pop z;").unwrap();
    assert!(matches!(resolve(ast), Err(CompileError::Resolve)));
}

#[test]
fn count_occurrences_per_variable() {
    let ast = parse(b"let a = const 1; let b = add a a; mstore b a;").unwrap();
    let rb = resolve(ast).unwrap();
    let counts = stackgen::analysis::count_occurrences(&rb).unwrap();
    assert_eq!(counts, vec![3, 1]);
}

#[test]
fn generate_reports_arity_errors() {
    let ast = parse(b"let a = const 1; add a;").unwrap();
    let rb = resolve(ast).unwrap();
    assert!(matches!(
        stackgen::codegen::generate(&rb),
        Err(CompileError::Arity)
    ));
    let ast2 = parse(b"let a, b = const 1;").unwrap();
    let rb2 = resolve(ast2).unwrap();
    assert!(matches!(
        stackgen::codegen::generate(&rb2),
        Err(CompileError::Arity)
    ));
}

#[test]
fn generate_reports_unknown_operators() {
    let ast = parse(b"let a = const 1; frob a;").unwrap();
    let rb = resolve(ast).unwrap();
    assert!(matches!(
        stackgen::codegen::generate(&rb),
        Err(CompileError::UnknownOperator)
    ));
}

#[test]
fn error_messages_name_each_kind() {
    assert!(!CompileError::Parse.message().is_empty());
    assert!(!CompileError::Resolve.message().is_empty());
    assert!(!CompileError::Arity.message().is_empty());
    assert!(!CompileError::UnknownOperator.message().is_empty());
    assert!(!CompileError::Internal.message().is_empty());
}

#[test]
fn var_identity() {
    let v = Var::new(7);
    assert_eq!(v.index(), 7);
}

#[test]
fn planner_runs_identically_twice() {
    let mut code: Vec<PreInstruction> = Vec::new();
    for i in 0..17u64 {
        code.push(PreInstruction::Stack(PreStackInstruction::Push(
            Numeral::from_u64(i),
        )));
    }
    code.push(PreInstruction::Stack(PreStackInstruction::Rotate {
        from_depth: 16,
        to_depth: 0,
    }));
    code.push(PreInstruction::Data(DataInstruction::Pop));
    let a = make_spills(&code).unwrap();
    let b = make_spills(&code).unwrap();
    assert_eq!(a, b);
    assert!(a.iter().any(|s| s.outward));
}

#[test]
fn machine_rejects_popping_an_empty_stack() {
    let mut m = stackgen::machine::Machine::new(0);
    assert_eq!(m.pop(), Err(CompileError::Internal));
}

#[test]
fn machine_tracks_pushed_variables() {
    let mut m = stackgen::machine::Machine::new(2);
    m.push(Var::new(0), Numeral::from_u64(5)).unwrap();
    m.push(Var::new(1), Numeral::from_u64(6)).unwrap();
    assert_eq!(m.find(Var::new(0)), Ok(1));
    assert_eq!(m.find(Var::new(1)), Ok(0));
    // a second canonical copy of a live variable is an internal fault
    assert_eq!(
        m.push(Var::new(0), Numeral::from_u64(7)),
        Err(CompileError::Internal)
    );
}
