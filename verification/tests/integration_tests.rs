use vm_calculator::compiler::{self, Compiler, NumberTable, OwnedToken};
use vm_calculator::lexer::{FuncType, Lexer, Token};
use vm_calculator::vm::{self, Request, Step, VirtualMachine};

/// The binary64 words of every literal the lexer finds in `src`.
fn number_table(src: &[u8]) -> NumberTable {
    let mut t = NumberTable::new();
    let mut lexer = Lexer::new(src);
    loop {
        match lexer.scan() {
            Ok(Token::Number(digits)) => {
                if let Ok(s) = std::str::from_utf8(digits) {
                    if let Ok(v) = s.parse::<f64>() {
                        t.insert(digits.to_vec(), v.to_bits());
                    }
                }
            }
            Ok(_) => {}
            Err(_) => break,
        }
    }
    t
}

fn apply(req: Request) -> u64 {
    match req {
        Request::Binary { op, lhs, rhs } => {
            let a = f64::from_bits(lhs);
            let b = f64::from_bits(rhs);
            let r = match op {
                1 => a + b,
                2 => a - b,
                3 => a * b,
                4 => a / b,
                _ => panic!("not a binary opcode: {}", op),
            };
            r.to_bits()
        }
        Request::Call1 { func, arg } => {
            let a = f64::from_bits(arg);
            let r = match func {
                FuncType::Sqrt => a.sqrt(),
                FuncType::Log => a.ln(),
                FuncType::Sin => a.sin(),
                FuncType::Cos => a.cos(),
                FuncType::Pow => panic!("pow takes two arguments"),
            };
            r.to_bits()
        }
        Request::Call2 { base, exponent, .. } => {
            f64::from_bits(base).powf(f64::from_bits(exponent)).to_bits()
        }
    }
}

fn interpret(vm: &mut VirtualMachine, opcodes: &[u8]) -> Result<f64, vm::Error> {
    loop {
        match vm.step(opcodes) {
            Step::Done(bits) => return Ok(f64::from_bits(bits)),
            Step::Failed(e) => return Err(e),
            Step::Stuck => panic!("malformed bytecode"),
            Step::Request(req) => {
                vm.provide(apply(req))?;
            }
        }
    }
}

#[derive(Debug, PartialEq)]
enum EvalError {
    Compile(compiler::Error),
    Interpret(vm::Error),
}

/// The whole pipeline, with a caller-supplied previous answer.
fn evaluate_with(src: &[u8], ans: Option<f64>) -> Result<f64, EvalError> {
    let table = number_table(src);
    let mut lexer = Lexer::new(src);
    let mut compiler = Compiler::default();
    compiler.compile(&mut lexer, &table).map_err(EvalError::Compile)?;
    let mut vm = VirtualMachine::new(ans.map(f64::to_bits));
    interpret(&mut vm, compiler.opcodes()).map_err(EvalError::Interpret)
}

fn evaluate(src: &[u8]) -> Result<f64, EvalError> {
    evaluate_with(src, None)
}

fn approx(a: f64, b: f64, delta: f64) -> bool {
    a.abs() >= b.abs() - delta && a.abs() <= b.abs() + delta
}

#[test]
fn integration_tests_test_addition() {
    let src = b"1 + 2";
    let table = number_table(src);
    let mut lexer = Lexer::new(src);
    let mut compiler = Compiler::default();
    let compiled = compiler.compile(&mut lexer, &table);
    assert!(compiled.is_ok());
    let mut vm = VirtualMachine::default();
    let res = interpret(&mut vm, compiler.opcodes());
    assert!(res.is_ok());
    assert!(approx(res.unwrap(), 3.0f64, 1e-6));
}

#[test]
fn test_empty() {
    let src = b"";
    let table = number_table(src);
    let mut lexer = Lexer::new(src.as_slice());
    let mut compiler = Compiler::default();
    let compiled = compiler.compile(&mut lexer, &table);
    assert!(compiled.is_ok());
    let mut vm = VirtualMachine::default();
    let res = interpret(&mut vm, compiler.opcodes());
    assert!(res.is_err());
    assert_eq!(res.unwrap_err(), vm::Error::EmptyStack);
}

#[test]
fn integration_tests_test_complex_expression() {
    let src = b"1.5 * (4 - 10 / 2 - (-1 * 4e-1))"; // -0.899999
    let table = number_table(src);
    let mut lexer = Lexer::new(src.as_slice());
    let mut compiler = Compiler::default();
    let compiled = compiler.compile(&mut lexer, &table);
    assert!(compiled.is_ok());
    let mut vm = VirtualMachine::default();
    let res = interpret(&mut vm, compiler.opcodes());
    assert!(res.is_ok());
    assert!(approx(res.unwrap(), -0.89999f64, 1e-4f64));
}

#[test]
fn test_unterminated_group() {
    let src = b"1 + (2 + 1 * (1 - 3)";
    let table = number_table(src);
    let mut lexer = Lexer::new(src.as_slice());
    let mut compiler = Compiler::default();
    let compiled = compiler.compile(&mut lexer, &table);
    assert!(compiled.is_err());
    assert_eq!(compiled.unwrap_err(), compiler::Error::UnterminedGroup);
}

#[test]
fn test_empty_group() {
    let src = b"1 + ()";
    let table = number_table(src);
    let mut lexer = Lexer::new(src.as_slice());
    let mut compiler = Compiler::default();
    let compiled = compiler.compile(&mut lexer, &table);
    assert!(compiled.is_err());
    assert_eq!(
        compiled.unwrap_err(),
        compiler::Error::InvalidTokenBefore {
            prev: OwnedToken::RightParen,
            current: None
        }
    );
}

#[test]
fn test_expression_multiple_functions_invalid_pow() {
    // pow(-1, -1.5) yields NaN; sine and cosine never fail, so here the
    // NaN reaches no square root or logarithm and propagates through the
    // whole evaluation, which completes on a NaN result.
    let src = b"-(cos(sqrt(144) * sin(1 + pow(-1, -1.5))) * 1 / sqrt(44) * 0.005e2)";
    let table = number_table(src);
    let mut lexer = Lexer::new(src.as_slice());
    let mut compiler = Compiler::default();
    let compiled = compiler.compile(&mut lexer, &table);
    assert!(compiled.is_ok());
    let mut vm = VirtualMachine::default();
    let res = interpret(&mut vm, compiler.opcodes());
    assert!(res.is_ok());
    assert!(res.unwrap().is_nan());
}

#[test]
fn test_expression_multiple_functions() {
    let src = b"-(cos(sqrt(144) * sin(1 + pow(-1, -2))) * 1 / sqrt(44) * 0.005e2)";
    let table = number_table(src);
    let mut lexer = Lexer::new(src.as_slice());
    let mut compiler = Compiler::default();
    let compiled = compiler.compile(&mut lexer, &table);
    assert!(compiled.is_ok());
    let mut vm = VirtualMachine::default();
    let res = interpret(&mut vm, compiler.opcodes());
    assert!(res.is_ok());
    println!("{}; {}", res.unwrap(), 0.00632468f64);
    assert!(approx(res.unwrap(), 0.00632468f64, 1e-8));
}

#[test]
fn test_literal_round_trips() {
    // Evaluating a lone literal yields exactly the platform text-to-double
    // of that literal.
    for src in [
        b"1.25".as_slice(),
        b"0",
        b"1234",
        b"2e-3",
        b"0.005e2",
        b"1234.5678",
        b"1e300",
        b"0.1",
        b"127",
        b"128",
        b"3.141592653589793",
    ] {
        let expected: f64 = std::str::from_utf8(src).unwrap().parse().unwrap();
        assert_eq!(evaluate(src), Ok(expected));
    }
}

#[test]
fn test_commutativity_of_addition_and_multiplication() {
    assert_eq!(evaluate(b"0.1 + 0.2"), evaluate(b"0.2 + 0.1"));
    assert_eq!(evaluate(b"1.5 * 2e-3"), evaluate(b"2e-3 * 1.5"));
}

#[test]
fn test_associativity_within_tolerance() {
    let left = evaluate(b"(0.1 + 0.2) + 0.3").unwrap();
    let right = evaluate(b"0.1 + (0.2 + 0.3)").unwrap();
    assert!((left - right).abs() <= 1e-6 * left.abs().max(right.abs()));
}

#[test]
fn test_left_associativity() {
    assert_eq!(evaluate(b"7 - 2 - 3"), Ok((7.0 - 2.0) - 3.0));
    assert_eq!(evaluate(b"8 / 2 / 2"), Ok((8.0 / 2.0) / 2.0));
}

#[test]
fn test_precedence() {
    assert_eq!(evaluate(b"2 + 3 * 4"), Ok(2.0 + 3.0 * 4.0));
    assert_eq!(evaluate(b"- 2 * 3"), Ok(-(2.0 * 3.0)));
    assert_eq!(evaluate(b"2 - 6 / 3"), Ok(0.0));
}

#[test]
fn test_grouping_transparency() {
    for src in [b"2 + 3 * 4".as_slice(), b"1.5 * 2e-3", b"sqrt(4)", b"7 - 2 - 3"] {
        let mut wrapped = Vec::new();
        wrapped.push(b'(');
        wrapped.extend_from_slice(src);
        wrapped.push(b')');
        assert_eq!(evaluate(&wrapped), evaluate(src));
    }
}

#[test]
fn test_grouping_edge_trailing_point() {
    // A literal may end in a point only at the end of the input: wrapped in
    // parentheses, the point runs into the closing parenthesis and the
    // lexer rejects it. Grouping transparency stops exactly here.
    assert_eq!(evaluate(b"1."), Ok(1.0));
    assert_eq!(
        evaluate(b"(1.)"),
        Err(EvalError::Compile(compiler::Error::FromLexer(
            vm_calculator::lexer::Error::InvalidNumberFormat(')')
        )))
    );
}

#[test]
fn test_division_by_zero() {
    assert_eq!(
        evaluate(b"1 / 0"),
        Err(EvalError::Interpret(vm::Error::DivisionByZero))
    );
}

#[test]
fn test_log_of_negative_fails() {
    match evaluate(b"log(- 1)") {
        Err(EvalError::Interpret(vm::Error::InvalidFunctionArgs { func_type, .. })) => {
            assert_eq!(func_type, FuncType::Log);
        }
        other => panic!("unexpected outcome: {:?}", other),
    }
}

#[test]
fn test_sqrt_of_negative_fails() {
    match evaluate(b"sqrt(- 1)") {
        Err(EvalError::Interpret(vm::Error::InvalidFunctionArgs { func_type, .. })) => {
            assert_eq!(func_type, FuncType::Sqrt);
        }
        other => panic!("unexpected outcome: {:?}", other),
    }
}

#[test]
fn test_ans_sequence() {
    // Two REPL turns: "2+3" then "ans*2".
    assert_eq!(
        evaluate(b"ans"),
        Err(EvalError::Interpret(vm::Error::AnsNotAvailable))
    );
    let first = evaluate(b"2+3").unwrap();
    assert_eq!(first, 5.0);
    let second = evaluate_with(b"ans*2", Some(first)).unwrap();
    assert_eq!(second, 10.0);
}

#[test]
fn test_repl_turns_share_state() {
    // One compiler and one machine across turns, reset between them, as a
    // shell drives them.
    let mut compiler = Compiler::default();
    let mut vm = VirtualMachine::default();
    let mut ans: Option<u64> = None;
    let mut results = Vec::new();
    for src in [b"2+3".as_slice(), b"ans*2", b"ans - 0.5"] {
        let table = number_table(src);
        let mut lexer = Lexer::new(src);
        compiler.compile(&mut lexer, &table).unwrap();
        let res = interpret(&mut vm, compiler.opcodes()).unwrap();
        ans = Some(res.to_bits());
        results.push(res);
        vm.reset(ans);
        compiler.reset();
    }
    assert_eq!(results, vec![5.0, 10.0, 9.5]);
}

#[test]
fn test_nan_propagates_into_function_error() {
    // pow may return NaN without failing; a later sqrt or log reports it.
    match evaluate(b"sqrt(pow(- 1, - 1.5))") {
        Err(EvalError::Interpret(vm::Error::InvalidFunctionArgs { func_type, .. })) => {
            assert_eq!(func_type, FuncType::Sqrt);
        }
        other => panic!("unexpected outcome: {:?}", other),
    }
}

#[test]
fn test_scenario_expression() {
    let res = evaluate(b"-(1 + 2) * 3 / (2 * 3 - (1 / 2)) + 1").unwrap();
    assert!(approx(res, -0.6363, 1e-4));
}

#[test]
fn test_error_descriptions() {
    assert_eq!(vm::Error::DivisionByZero.describe(), "division by zero");
    assert_eq!(vm::Error::EmptyStack.describe(), "empty stack");
    assert_eq!(vm::Error::AnsNotAvailable.describe(), "no previous answer");
    assert_eq!(compiler::Error::UnterminedGroup.describe(), "untermined group");
    assert_eq!(
        compiler::Error::MissingFunctionParen.describe(),
        "missing function parenthesis"
    );
    assert_eq!(
        vm_calculator::lexer::Error::InvalidChar('@').describe(),
        "invalid character"
    );
}

#[test]
fn test_number_table_first_entry_wins() {
    let mut t = NumberTable::new();
    t.insert(b"1.5".to_vec(), 1.5f64.to_bits());
    t.insert(b"1.5".to_vec(), 99.0f64.to_bits());
    assert_eq!(t.lookup(b"1.5"), Some(1.5f64.to_bits()));
    assert_eq!(t.lookup(b"2.5"), None);
}
