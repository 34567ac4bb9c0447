use vm_calculator::compiler::{Compiler, NumberTable, Op};
use vm_calculator::lexer::{FuncType, Lexer, Token};
use vm_calculator::vm::{check_stream, Error, Request, Step, VirtualMachine};

/// Perform the arithmetic the machine asked for, on real doubles.
fn apply(req: Request) -> u64 {
    match req {
        Request::Binary { op, lhs, rhs } => {
            let a = f64::from_bits(lhs);
            let b = f64::from_bits(rhs);
            let r = match op {
                1 => a + b,
                2 => a - b,
                3 => a * b,
                4 => a / b,
                _ => panic!("not a binary opcode: {}", op),
            };
            r.to_bits()
        }
        Request::Call1 { func, arg } => {
            let a = f64::from_bits(arg);
            let r = match func {
                FuncType::Sqrt => a.sqrt(),
                FuncType::Log => a.ln(),
                FuncType::Sin => a.sin(),
                FuncType::Cos => a.cos(),
                FuncType::Pow => panic!("pow takes two arguments"),
            };
            r.to_bits()
        }
        Request::Call2 { base, exponent, .. } => {
            f64::from_bits(base).powf(f64::from_bits(exponent)).to_bits()
        }
    }
}

/// Drive the machine over a whole program.
fn interpret(vm: &mut VirtualMachine, opcodes: &[u8]) -> Result<f64, Error> {
    loop {
        match vm.step(opcodes) {
            Step::Done(bits) => return Ok(f64::from_bits(bits)),
            Step::Failed(e) => return Err(e),
            Step::Stuck => panic!("malformed bytecode"),
            Step::Request(req) => {
                vm.provide(apply(req))?;
            }
        }
    }
}

fn approx(a: f64, b: f64, delta: f64) -> bool {
    a.abs() >= b.abs() - delta && a.abs() <= b.abs() + delta
}

fn number_to_bytes(n: f64) -> Vec<u8> {
    let as_u64 = n.to_bits();
    let mut bytes = Vec::with_capacity(8);
    for i in 0u64..8u64 {
        bytes.push(((as_u64 >> (i * 8)) & 0xFF) as u8);
    }
    bytes
}

#[test]
fn vm_test_single_number() {
    let mut vm = VirtualMachine::default();
    let mut opcodes: Vec<_> = vec![Op::Number.code()];
    let n = 1.0f64;
    opcodes.append(&mut number_to_bytes(n));
    let res = interpret(&mut vm, &opcodes);
    assert!(res.is_ok());
    assert!(approx(res.unwrap(), n, 1e-6));
}

#[test]
fn test_negation() {
    let mut vm = VirtualMachine::default();
    let mut opcodes = vec![Op::Number.code()];
    let n = 1.0f64;
    opcodes.append(&mut number_to_bytes(n));
    opcodes.push(Op::Negate.code());
    let res = interpret(&mut vm, &opcodes);
    assert!(res.is_ok());
    assert!(approx(res.unwrap(), -n, 1e-6));
}

#[test]
fn vm_test_addition() {
    let mut vm = VirtualMachine::default();

    let mut opcodes = vec![Op::Number.code()];
    let a = 1.0f64;
    opcodes.append(&mut number_to_bytes(a));

    opcodes.push(Op::Number.code());
    let b = 3.0f64;
    opcodes.append(&mut number_to_bytes(b));

    opcodes.push(Op::Plus.code());

    let res = interpret(&mut vm, &opcodes);
    assert!(res.is_ok());
    assert!(approx(res.unwrap(), a + b, 1e-6));
}

#[test]
fn vm_test_complex_expression() {
    // -(1 + 2) * 3 / (2 * 3 - (1 / 2)) + 1 = -0.6363
    let mut vm = VirtualMachine::default();
    let mut opcodes = vec![Op::Number.code()];
    opcodes.append(&mut number_to_bytes(1.0));
    opcodes.push(Op::Number.code());
    opcodes.append(&mut number_to_bytes(2.0));

    opcodes.push(Op::Plus.code());

    opcodes.push(Op::Negate.code());

    opcodes.push(Op::Number.code());
    opcodes.append(&mut number_to_bytes(3.0));

    opcodes.push(Op::Mult.code());

    opcodes.push(Op::Number.code());
    opcodes.append(&mut number_to_bytes(2.0));
    opcodes.push(Op::Number.code());
    opcodes.append(&mut number_to_bytes(3.0));

    opcodes.push(Op::Mult.code());

    opcodes.push(Op::Number.code());
    opcodes.append(&mut number_to_bytes(1.0));
    opcodes.push(Op::Number.code());
    opcodes.append(&mut number_to_bytes(2.0));

    opcodes.push(Op::Div.code());

    opcodes.push(Op::Minus.code());

    opcodes.push(Op::Div.code());

    opcodes.push(Op::Number.code());
    opcodes.append(&mut number_to_bytes(1.0));

    opcodes.push(Op::Plus.code());

    let res = interpret(&mut vm, &opcodes);
    assert!(res.is_ok());
    assert!(approx(res.unwrap(), -0.6363f64, 1e-4f64));
}

#[test]
fn test_function_sin() {
    let mut vm = VirtualMachine::default();

    let n = 10f64;
    let mut opcodes = vec![Op::Number.code()];
    opcodes.append(&mut number_to_bytes(n));
    opcodes.push(Op::Func.code());
    opcodes.push(FuncType::Sin.code());

    let res = interpret(&mut vm, &opcodes);
    assert!(res.is_ok());
    assert!(approx(res.unwrap(), n.sin(), 1e-6));
}

#[test]
fn test_function_cos() {
    let mut vm = VirtualMachine::default();

    let n = 10f64;
    let mut opcodes = vec![Op::Number.code()];
    opcodes.append(&mut number_to_bytes(n));
    opcodes.push(Op::Func.code());
    opcodes.push(FuncType::Cos.code());

    let res = interpret(&mut vm, &opcodes);
    assert!(res.is_ok());
    assert!(approx(res.unwrap(), n.cos(), 1e-6));
}

#[test]
fn test_function_log() {
    let mut vm = VirtualMachine::default();

    let n = 10f64;
    let mut opcodes = vec![Op::Number.code()];
    opcodes.append(&mut number_to_bytes(n));
    opcodes.push(Op::Func.code());
    opcodes.push(FuncType::Log.code());

    let res = interpret(&mut vm, &opcodes);
    assert!(res.is_ok());
    assert!(approx(res.unwrap(), n.ln(), 1e-6));
}

#[test]
fn test_function_log_invalid() {
    let mut vm = VirtualMachine::default();

    let n = -10f64;
    let mut opcodes = vec![Op::Number.code()];
    opcodes.append(&mut number_to_bytes(n));
    opcodes.push(Op::Func.code());
    opcodes.push(FuncType::Log.code());

    let res = interpret(&mut vm, &opcodes);
    assert!(res.is_err());
}

#[test]
fn test_function_sqrt() {
    let mut vm = VirtualMachine::default();

    let n = 10f64;
    let mut opcodes = vec![Op::Number.code()];
    opcodes.append(&mut number_to_bytes(n));
    opcodes.push(Op::Func.code());
    opcodes.push(FuncType::Sqrt.code());

    let res = interpret(&mut vm, &opcodes);
    assert!(res.is_ok());
    assert!(approx(res.unwrap(), n.sqrt(), 1e-6));
}

#[test]
fn test_function_sqrt_invalid() {
    let mut vm = VirtualMachine::default();

    let n = -10f64;
    let mut opcodes = vec![Op::Number.code()];
    opcodes.append(&mut number_to_bytes(n));
    opcodes.push(Op::Func.code());
    opcodes.push(FuncType::Sqrt.code());

    let res = interpret(&mut vm, &opcodes);
    assert!(res.is_err());
}

#[test]
fn test_function_pow() {
    let mut vm = VirtualMachine::default();

    let base = 2f64;
    let exponent = 3f64;
    let mut opcodes = vec![Op::Number.code()];
    opcodes.append(&mut number_to_bytes(base));
    opcodes.push(Op::Number.code());
    opcodes.append(&mut number_to_bytes(exponent));
    opcodes.push(Op::Func.code());
    opcodes.push(FuncType::Pow.code());

    let res = interpret(&mut vm, &opcodes);
    assert!(res.is_ok());
    assert!(approx(res.unwrap(), base.powf(exponent), 1e-6));
}

#[test]
fn test_i8_opcode() {
    let mut vm = VirtualMachine::default();

    let mut opcodes = vec![Op::NumberI8.code()];
    let n = -15;
    opcodes.push((n as i8) as u8);
    let res = interpret(&mut vm, &opcodes);
    assert!(res.is_ok());
    assert_eq!(res.unwrap(), n as f64);
}

#[test]
fn test_i8_opcode_exhaustive() {
    // Every one-byte payload pushes exactly the double of its signed value.
    for b in 0..=255u8 {
        let mut vm = VirtualMachine::default();
        let opcodes = vec![Op::NumberI8.code(), b];
        let res = interpret(&mut vm, &opcodes);
        assert_eq!(res.unwrap(), (b as i8) as f64);
    }
}

#[test]
fn test_division_by_zero_fails() {
    let mut vm = VirtualMachine::default();
    let opcodes = vec![Op::NumberI8.code(), 1, Op::NumberI8.code(), 0, Op::Div.code()];
    assert_eq!(interpret(&mut vm, &opcodes), Err(Error::DivisionByZero));
}

#[test]
fn test_division_by_negative_zero_fails() {
    let mut vm = VirtualMachine::default();
    let mut opcodes = vec![Op::NumberI8.code(), 1, Op::Number.code()];
    opcodes.append(&mut number_to_bytes(-0.0));
    opcodes.push(Op::Div.code());
    assert_eq!(interpret(&mut vm, &opcodes), Err(Error::DivisionByZero));
}

#[test]
fn test_empty_program_fails() {
    let mut vm = VirtualMachine::default();
    assert_eq!(interpret(&mut vm, &[]), Err(Error::EmptyStack));
}

#[test]
fn test_ans_not_available() {
    let mut vm = VirtualMachine::default();
    let opcodes = vec![Op::Ans.code()];
    assert_eq!(interpret(&mut vm, &opcodes), Err(Error::AnsNotAvailable));
}

#[test]
fn test_ans_pushes_saved_answer() {
    let mut vm = VirtualMachine::new(Some(5.0f64.to_bits()));
    let opcodes = vec![Op::Ans.code()];
    assert_eq!(interpret(&mut vm, &opcodes), Ok(5.0));
}

#[test]
fn test_reset_replays_same_result() {
    let mut vm = VirtualMachine::default();
    let mut opcodes = vec![Op::Number.code()];
    opcodes.append(&mut number_to_bytes(6.5));
    opcodes.push(Op::Number.code());
    opcodes.append(&mut number_to_bytes(2.0));
    opcodes.push(Op::Mult.code());
    let first = interpret(&mut vm, &opcodes).unwrap();
    vm.reset(None);
    let second = interpret(&mut vm, &opcodes).unwrap();
    assert_eq!(first, second);
    assert_eq!(first, 13.0);
}

#[test]
fn test_check_stream_agrees_with_execution() {
    // Clean streams are accepted; the stuck ones below are refused.
    let mut good = vec![Op::Number.code()];
    good.append(&mut number_to_bytes(2.0));
    good.push(Op::Negate.code());
    assert!(check_stream(&good));
    assert!(check_stream(&[]));
    assert!(check_stream(&[Op::NumberI8.code(), 7, Op::Func.code(), 2]));
    assert!(!check_stream(&[9]));
    assert!(!check_stream(&[Op::Number.code(), 1, 2]));
    assert!(!check_stream(&[Op::Negate.code()]));
    assert!(!check_stream(&[Op::NumberI8.code(), 7, Op::Plus.code()]));
    assert!(!check_stream(&[Op::Func.code(), 7]));
}

#[test]
fn test_compiled_streams_are_clean() {
    // What the compiler emits for ordinary inputs passes the stream check.
    for src in [
        b"1 + 2".as_slice(),
        b"1.5 * (4 - 10 / 2 - (-1 * 4e-1))",
        b"-(cos(sqrt(144) * sin(1 + pow(-1, -2))) * 1 / sqrt(44) * 0.005e2)",
        b"",
    ] {
        let mut t = NumberTable::new();
        let mut lexer = Lexer::new(src);
        loop {
            match lexer.scan() {
                Ok(Token::Number(digits)) => {
                    let v: f64 = std::str::from_utf8(digits).unwrap().parse().unwrap();
                    t.insert(digits.to_vec(), v.to_bits());
                }
                Ok(_) => {}
                Err(_) => break,
            }
        }
        let mut lexer = Lexer::new(src);
        let mut compiler = Compiler::default();
        assert!(compiler.compile(&mut lexer, &t).is_ok());
        assert!(check_stream(compiler.opcodes()));
    }
}

#[test]
fn test_malformed_stream_goes_stuck() {
    // An unknown opcode, a truncated payload, and an underflowing
    // operation are reported as `Stuck`, never executed.
    let mut vm = VirtualMachine::default();
    assert_eq!(vm.step(&[9]), Step::Stuck);
    vm.reset(None);
    assert_eq!(vm.step(&[Op::Number.code(), 1, 2]), Step::Stuck);
    vm.reset(None);
    assert_eq!(vm.step(&[Op::Negate.code()]), Step::Stuck);
    vm.reset(None);
    assert_eq!(vm.step(&[Op::Plus.code()]), Step::Stuck);
    vm.reset(None);
    assert_eq!(vm.step(&[Op::Func.code(), 7]), Step::Stuck);
}

#[test]
fn test_left_to_right_requests() {
    // The stream for a - b - c asks for (a - b) first, then for the
    // result minus c: subtraction associates to the left.
    let mut vm = VirtualMachine::default();
    let a = 7.0f64.to_bits();
    let b = 2.0f64.to_bits();
    let c = 3.0f64.to_bits();
    let mut opcodes = vec![Op::Number.code()];
    opcodes.append(&mut number_to_bytes(7.0));
    opcodes.push(Op::Number.code());
    opcodes.append(&mut number_to_bytes(2.0));
    opcodes.push(Op::Minus.code());
    opcodes.push(Op::Number.code());
    opcodes.append(&mut number_to_bytes(3.0));
    opcodes.push(Op::Minus.code());

    let r1 = match vm.step(&opcodes) {
        Step::Request(req) => {
            assert_eq!(req, Request::Binary { op: 2, lhs: a, rhs: b });
            apply(req)
        }
        other => panic!("unexpected step: {:?}", other),
    };
    assert!(vm.provide(r1).is_ok());
    let r2 = match vm.step(&opcodes) {
        Step::Request(req) => {
            assert_eq!(req, Request::Binary { op: 2, lhs: r1, rhs: c });
            apply(req)
        }
        other => panic!("unexpected step: {:?}", other),
    };
    assert!(vm.provide(r2).is_ok());
    assert_eq!(vm.step(&opcodes), Step::Done(2.0f64.to_bits()));
}
