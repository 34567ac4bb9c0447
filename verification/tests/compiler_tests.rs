use vm_calculator::compiler::{Compiler, Error, NumberTable, Op, OwnedToken};
use vm_calculator::lexer::Error as LexerError;
use vm_calculator::lexer::{FuncType, Lexer, Token};

/// The binary64 words of every literal the lexer finds in `src`, keyed by
/// the raw digit bytes.
fn number_table(src: &[u8]) -> NumberTable {
    let mut t = NumberTable::new();
    let mut lexer = Lexer::new(src);
    loop {
        match lexer.scan() {
            Ok(Token::Number(digits)) => {
                if let Ok(s) = std::str::from_utf8(digits) {
                    if let Ok(v) = s.parse::<f64>() {
                        t.insert(digits.to_vec(), v.to_bits());
                    }
                }
            }
            Ok(_) => {}
            Err(_) => break,
        }
    }
    t
}

fn compile_src(src: &[u8]) -> (Compiler<'_>, Result<(), vm_calculator::compiler::Error>) {
    let table = number_table(src);
    let mut lexer = Lexer::new(src);
    let mut compiler = Compiler::default();
    let res = compiler.compile(&mut lexer, &table);
    (compiler, res)
}

fn parse_number(bytes: &[u8]) -> (u64, f64) {
    let integer = {
        let mut res = 0;
        for (i, &b) in bytes.iter().enumerate() {
            res |= (b as u64) << (i as u64 * 8);
        }
        res
    };
    let float = f64::from_bits(integer);
    (integer, float)
}

fn parse_i8(n: u8) -> f64 {
    n as i8 as f64
}

fn eight_bytes_num(start: usize) -> std::ops::RangeInclusive<usize> {
    start..=start + 7
}

#[test]
fn compiler_test_single_number() {
    let (compiler, res) = compile_src(b"1");
    assert!(res.is_ok());
    let chunk = compiler.opcodes();
    assert_eq!(chunk[0], Op::NumberI8.code());
    let float = parse_i8(chunk[1]);
    assert_eq!(float, 1.0);
}

#[test]
fn test_single_negative_number() {
    let (compiler, res) = compile_src(b"- 1");
    assert!(res.is_ok());
    let chunk = compiler.opcodes();
    assert_eq!(chunk[0], Op::NumberI8.code());
    let float = parse_i8(chunk[1]);
    assert_eq!(float, 1.0);
    assert_eq!(chunk[2], Op::Negate.code());
}

#[test]
fn test_sum_of_two_numbers() {
    let (compiler, res) = compile_src(b"1 + 2");
    assert!(res.is_ok());
    let chunk = compiler.opcodes();
    assert_eq!(chunk[0], Op::NumberI8.code());
    let float = parse_i8(chunk[1]);
    assert_eq!(float, 1.0);

    assert_eq!(chunk[2], Op::NumberI8.code());
    let float = parse_i8(chunk[3]);
    assert_eq!(float, 2.0);

    assert_eq!(chunk[4], Op::Plus.code());
}

#[test]
fn test_grouping() {
    let (compiler, res) = compile_src(b"2 * (1 + 1.5)");
    assert!(res.is_ok());
    let chunk = compiler.opcodes();
    assert_eq!(chunk[0], Op::NumberI8.code());
    let float = parse_i8(chunk[1]);
    assert_eq!(float, 2.0);

    assert_eq!(chunk[2], Op::NumberI8.code());
    let float = parse_i8(chunk[3]);
    assert_eq!(float, 1.0);

    assert_eq!(chunk[4], Op::Number.code());
    let (_, float) = parse_number(&chunk[eight_bytes_num(5)]);
    assert_eq!(float, 1.5);

    assert_eq!(chunk[13], Op::Plus.code());
}

#[test]
fn test_long_complex_expression() {
    let (compiler, res) = compile_src(b"1 + (2e-3 / 4 + 2) * 2 - 1");
    assert!(res.is_ok());
    let chunk = compiler.opcodes();

    assert_eq!(chunk[0], Op::NumberI8.code());
    let float = parse_i8(chunk[1]);
    assert_eq!(float, 1.0);

    assert_eq!(chunk[2], Op::Number.code());
    let (_, float) = parse_number(&chunk[eight_bytes_num(3)]);
    assert_eq!(float, 2e-3);

    assert_eq!(chunk[11], Op::NumberI8.code());
    let float = parse_i8(chunk[12]);
    assert_eq!(float, 4.0);

    assert_eq!(chunk[13], Op::Div.code());

    assert_eq!(chunk[14], Op::NumberI8.code());
    let float = parse_i8(chunk[15]);
    assert_eq!(float, 2.0);

    assert_eq!(chunk[16], Op::Plus.code());

    assert_eq!(chunk[17], Op::NumberI8.code());
    let float = parse_i8(chunk[18]);
    assert_eq!(float, 2.0);

    assert_eq!(chunk[19], Op::Mult.code());

    assert_eq!(chunk[20], Op::Plus.code());

    assert_eq!(chunk[21], Op::NumberI8.code());
    let float = parse_i8(chunk[22]);
    assert_eq!(float, 1.0);

    assert_eq!(chunk[23], Op::Minus.code());
}

#[test]
fn compiler_test_sin() {
    let (compiler, res) = compile_src(b"sin(4)");
    assert!(res.is_ok());
    let chunk = compiler.opcodes();
    assert_eq!(chunk[0], Op::NumberI8.code());
    let float = parse_i8(chunk[1]);
    assert_eq!(float, 4.0);
    assert_eq!(chunk[2], Op::Func.code());
    assert_eq!(chunk[3], FuncType::Sin.code());
}

#[test]
fn compiler_test_cos() {
    let (compiler, res) = compile_src(b"cos(4)");
    assert!(res.is_ok());
    let chunk = compiler.opcodes();
    assert_eq!(chunk[0], Op::NumberI8.code());
    let float = parse_i8(chunk[1]);
    assert_eq!(float, 4.0);
    assert_eq!(chunk[2], Op::Func.code());
    assert_eq!(chunk[3], FuncType::Cos.code());
}

#[test]
fn compiler_test_log() {
    let (compiler, res) = compile_src(b"log(4)");
    assert!(res.is_ok());
    let chunk = compiler.opcodes();
    assert_eq!(chunk[0], Op::NumberI8.code());
    let float = parse_i8(chunk[1]);
    assert_eq!(float, 4.0);
    assert_eq!(chunk[2], Op::Func.code());
    assert_eq!(chunk[3], FuncType::Log.code());
}

#[test]
fn compiler_test_sqrt() {
    let (compiler, res) = compile_src(b"sqrt(4)");
    assert!(res.is_ok());
    let chunk = compiler.opcodes();
    assert_eq!(chunk[0], Op::NumberI8.code());
    let float = parse_i8(chunk[1]);
    assert_eq!(float, 4.0);
    assert_eq!(chunk[2], Op::Func.code());
    assert_eq!(chunk[3], FuncType::Sqrt.code());
}

#[test]
fn compiler_test_pow() {
    let (compiler, res) = compile_src(b"pow(3, 2)");
    assert!(res.is_ok());
    assert_eq!(compiler.opcodes()[0], Op::NumberI8.code());
    let chunk = compiler.opcodes();
    let float = parse_i8(chunk[1]);
    assert_eq!(float, 3.0);

    assert_eq!(chunk[2], Op::NumberI8.code());
    let float = parse_i8(chunk[3]);
    assert_eq!(float, 2.0);
    assert_eq!(chunk[4], Op::Func.code());
    assert_eq!(chunk[5], FuncType::Pow.code());
}

#[test]
fn test_encoding_rule_small_integers() {
    // A literal denoting an integer in [0, 127] is embedded as one signed
    // byte, whatever surface form it was written in.
    for src in [b"127".as_slice(), b"1e2", b"2.0", b"0.5e1", b"120.00", b"0e5"] {
        let (compiler, res) = compile_src(src);
        assert!(res.is_ok());
        assert_eq!(compiler.opcodes()[0], Op::NumberI8.code());
    }
    assert_eq!(compile_src(b"127").0.opcodes()[1], 127);
    assert_eq!(compile_src(b"1e2").0.opcodes()[1], 100);
    assert_eq!(compile_src(b"0e5").0.opcodes()[1], 0);
}

#[test]
fn test_encoding_rule_wide_numbers() {
    // Any other literal carries the full eight-byte word.
    for (src, expected) in [
        (b"128".as_slice(), 128.0f64),
        (b"0.5", 0.5),
        (b"2e-3", 2e-3),
        (b"1e300", 1e300),
    ] {
        let (compiler, res) = compile_src(src);
        assert!(res.is_ok());
        let chunk = compiler.opcodes();
        assert_eq!(chunk[0], Op::Number.code());
        assert_eq!(chunk.len(), 9);
        let (_, float) = parse_number(&chunk[1..=8]);
        assert_eq!(float, expected);
    }
}

#[test]
fn test_trailing_exponent_marker_is_rejected() {
    let (_, res) = compile_src(b"1e");
    assert_eq!(
        res.unwrap_err(),
        vm_calculator::compiler::Error::InvalidNumber(b"1e".to_vec())
    );
    let (_, res) = compile_src(b"1e-");
    assert_eq!(
        res.unwrap_err(),
        vm_calculator::compiler::Error::InvalidNumber(b"1e-".to_vec())
    );
}

#[test]
fn test_missing_function_paren() {
    let (_, res) = compile_src(b"sin 4");
    assert_eq!(res.unwrap_err(), vm_calculator::compiler::Error::MissingFunctionParen);
}

#[test]
fn test_missing_comma_in_function_call() {
    let (_, res) = compile_src(b"pow(1 2)");
    assert_eq!(
        res.unwrap_err(),
        vm_calculator::compiler::Error::MissingCommaInFunctionCall
    );
}

#[test]
fn test_trailing_token_is_invalid() {
    let (_, res) = compile_src(b"1 2");
    assert_eq!(res.unwrap_err(), Error::InvalidToken(OwnedToken::Number(b"2".to_vec())));
}

#[test]
fn test_lexer_error_surfaces_wrapped() {
    let (_, res) = compile_src(b"1 + @");
    assert_eq!(res.unwrap_err(), Error::FromLexer(LexerError::InvalidChar('@')));
}

#[test]
fn test_reset_replays_same_bytes() {
    // Compiling the same source after a reset emits the same bytes.
    let src = b"1.5 * (4 - 10 / 2)";
    let table = number_table(src);
    let mut compiler = Compiler::default();
    let mut lexer = Lexer::new(src);
    assert!(compiler.compile(&mut lexer, &table).is_ok());
    let first = compiler.opcodes().to_vec();
    compiler.reset();
    assert_eq!(compiler.opcodes().len(), 0);
    let mut lexer = Lexer::new(src);
    assert!(compiler.compile(&mut lexer, &table).is_ok());
    assert_eq!(first, compiler.opcodes().to_vec());
}

#[test]
fn test_op_codes() {
    assert_eq!(Op::Number.code(), 0);
    assert_eq!(Op::Plus.code(), 1);
    assert_eq!(Op::Minus.code(), 2);
    assert_eq!(Op::Mult.code(), 3);
    assert_eq!(Op::Div.code(), 4);
    assert_eq!(Op::Negate.code(), 5);
    assert_eq!(Op::Func.code(), 6);
    assert_eq!(Op::Ans.code(), 7);
    assert_eq!(Op::NumberI8.code(), 8);
    assert_eq!(Op::try_from(4).unwrap(), Op::Div);
    assert!(Op::try_from(9).is_err());
}
