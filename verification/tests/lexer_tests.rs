use vm_calculator::lexer::{Error, FuncType, Lexer, Priority, Token};

#[test]
fn test_single_token() {
    let mut l = Lexer::new(b"(".as_slice());
    let token = l.scan();
    assert!(token.is_ok());
    assert_eq!(token.unwrap(), Token::LeftParen);
    let eof = l.scan();
    assert!(eof.is_err());
    assert_eq!(eof.unwrap_err(), Error::Eof);
}

#[test]
fn test_mult_no_other_chars() {
    let mut l = Lexer::new(b"*".as_slice());
    let token = l.scan();
    assert!(token.is_ok());
    assert_eq!(token.unwrap(), Token::Mult);
    let eof = l.scan();
    assert!(eof.is_err());
    assert_eq!(eof.unwrap_err(), Error::Eof);
}

#[test]
fn test_mult_other_chars() {
    let mut l = Lexer::new(b"* 2".as_slice());
    let token = l.scan();
    assert!(token.is_ok());
    assert_eq!(token.unwrap(), Token::Mult);
}

#[test]
fn test_single_integer_single_digit_number() {
    let mut l = Lexer::new(b"1".as_slice());
    let token = l.scan();
    assert!(token.is_ok());
    assert_eq!(token.unwrap(), Token::Number(b"1".as_slice()));
    let eof = l.scan();
    assert!(eof.is_err());
    assert_eq!(eof.unwrap_err(), Error::Eof);
}

#[test]
fn test_single_integer_multiple_digits_number() {
    let mut l = Lexer::new(b"1234".as_slice());
    let token = l.scan();
    assert!(token.is_ok());
    assert_eq!(token.unwrap(), Token::Number(b"1234".as_slice()));
    let eof = l.scan();
    assert!(eof.is_err());
    assert_eq!(eof.unwrap_err(), Error::Eof);
}

#[test]
fn test_single_floating_point() {
    let mut l = Lexer::new(b"1.25".as_slice());
    let token = l.scan();
    assert!(token.is_ok());
    assert_eq!(token.unwrap(), Token::Number(b"1.25".as_slice()));
    let eof = l.scan();
    assert!(eof.is_err());
    assert_eq!(eof.unwrap_err(), Error::Eof);
}

#[test]
fn test_single_floating_point_exponential_lowercase() {
    let mut l = Lexer::new(b"1e2".as_slice());
    let token = l.scan();
    assert!(token.is_ok());
    assert_eq!(token.unwrap(), Token::Number(b"1e2".as_slice()));
    let eof = l.scan();
    assert!(eof.is_err());
    assert_eq!(eof.unwrap_err(), Error::Eof);
}

#[test]
fn test_single_floating_point_negative_exponential_lowercase() {
    let mut l = Lexer::new(b"1e-2".as_slice());
    let token = l.scan();
    assert!(token.is_ok());
    assert_eq!(token.unwrap(), Token::Number(b"1e-2".as_slice()));
    let eof = l.scan();
    assert!(eof.is_err());
    assert_eq!(eof.unwrap_err(), Error::Eof);
}

#[test]
fn test_single_invalid_integer() {
    let mut l = Lexer::new(b"1.4.e1".as_slice());
    let token = l.scan();
    assert!(token.is_err());
    assert_eq!(token.unwrap_err(), Error::InvalidNumberFormat('.'));
}

#[test]
fn test_expression_with_parens() {
    let mut l = Lexer::new(b"(1.2 / 3.0e-1)".as_slice());

    let token = l.scan();
    assert!(token.is_ok());
    assert_eq!(token.unwrap(), Token::LeftParen);

    let token = l.scan();
    assert!(token.is_ok());
    assert_eq!(token.unwrap(), Token::Number(b"1.2"));

    let token = l.scan();
    assert!(token.is_ok());
    assert_eq!(token.unwrap(), Token::Div);

    let token = l.scan();
    assert!(token.is_ok());
    assert_eq!(token.unwrap(), Token::Number(b"3.0e-1"));

    let token = l.scan();
    assert!(token.is_ok());
    assert_eq!(token.unwrap(), Token::RightParen);

    let eof = l.scan();
    assert!(eof.is_err());
    assert_eq!(eof.unwrap_err(), Error::Eof);
}

#[test]
fn test_expression() {
    let mut l = Lexer::new(b" 1.2 + 10 - 2e-3  ".as_slice());
    let token = l.scan();
    assert!(token.is_ok());
    assert_eq!(token.unwrap(), Token::Number(b"1.2"));

    let token = l.scan();
    assert!(token.is_ok());
    assert_eq!(token.unwrap(), Token::Plus);

    let token = l.scan();
    assert!(token.is_ok());
    assert_eq!(token.unwrap(), Token::Number(b"10"));

    let token = l.scan();
    assert!(token.is_ok());
    assert_eq!(token.unwrap(), Token::Minus);

    let token = l.scan();
    assert!(token.is_ok());
    assert_eq!(token.unwrap(), Token::Number(b"2e-3"));

    let eof = l.scan();
    assert!(eof.is_err());
    assert_eq!(eof.unwrap_err(), Error::Eof);
}

#[test]
fn lexer_test_sin() {
    let mut l = Lexer::new(b"sin".as_slice());
    let t = l.scan();
    assert!(t.is_ok());
    assert_eq!(t.unwrap(), Token::Func(FuncType::Sin));
    assert_eq!(l.scan(), Err(Error::Eof))
}

#[test]
fn lexer_test_cos() {
    let mut l = Lexer::new(b"cos".as_slice());
    let t = l.scan();
    assert!(t.is_ok());
    assert_eq!(t.unwrap(), Token::Func(FuncType::Cos));
    assert_eq!(l.scan(), Err(Error::Eof))
}

#[test]
fn lexer_test_log() {
    let mut l = Lexer::new(b"log".as_slice());
    let t = l.scan();
    assert!(t.is_ok());
    assert_eq!(t.unwrap(), Token::Func(FuncType::Log));
    assert_eq!(l.scan(), Err(Error::Eof))
}

#[test]
fn lexer_test_sqrt() {
    let mut l = Lexer::new(b"sqrt".as_slice());
    let t = l.scan();
    assert!(t.is_ok());
    assert_eq!(t.unwrap(), Token::Func(FuncType::Sqrt));
    assert_eq!(l.scan(), Err(Error::Eof))
}

#[test]
fn lexer_test_pow() {
    let mut l = Lexer::new(b"pow".as_slice());
    let t = l.scan();
    assert!(t.is_ok());
    assert_eq!(t.unwrap(), Token::Func(FuncType::Pow));
    assert_eq!(l.scan(), Err(Error::Eof))
}

#[test]
fn test_unknown_char_fails() {
    let mut l = Lexer::new(b"1 + @".as_slice());
    assert_eq!(l.scan(), Ok(Token::Number(b"1".as_slice())));
    assert_eq!(l.scan(), Ok(Token::Plus));
    assert_eq!(l.scan(), Err(Error::InvalidChar('@')));
}

#[test]
fn test_truncated_keyword_fails() {
    let mut l = Lexer::new(b"sq".as_slice());
    assert_eq!(l.scan(), Err(Error::InvalidChar('s')));
}

#[test]
fn test_minus_inside_number_fails() {
    // A minus may only follow the exponent marker inside a literal.
    let mut l = Lexer::new(b"1-2".as_slice());
    assert_eq!(l.scan(), Err(Error::InvalidNumberFormat('-')));
}

#[test]
fn test_ans_token() {
    let mut l = Lexer::new(b"ans".as_slice());
    assert_eq!(l.scan(), Ok(Token::Ans));
    assert_eq!(l.scan(), Err(Error::Eof));
}

#[test]
fn test_comma_token() {
    let mut l = Lexer::new(b",".as_slice());
    assert_eq!(l.scan(), Ok(Token::Comma));
    assert_eq!(l.scan(), Err(Error::Eof));
}

#[test]
fn test_priority_ladder() {
    assert_eq!(Priority::Null.next(), Priority::Comma);
    assert_eq!(Priority::Comma.next(), Priority::Number);
    assert_eq!(Priority::Number.next(), Priority::Term);
    assert_eq!(Priority::Term.next(), Priority::Factor);
    assert_eq!(Priority::Factor.next(), Priority::Unary);
    assert_eq!(Priority::Unary.next(), Priority::Group);
    assert_eq!(Priority::Group.next(), Priority::Group);
    assert_eq!(Token::Plus.priority(), Priority::Term);
    assert_eq!(Token::Mult.priority(), Priority::Factor);
    assert_eq!(Token::LeftParen.priority(), Priority::Group);
    assert_eq!(Token::RightParen.priority(), Priority::Null);
    assert_eq!(Token::Ans.priority(), Priority::Number);
    assert_eq!(Token::Comma.priority(), Priority::Comma);
}

#[test]
fn test_func_arity_and_codes() {
    assert_eq!(FuncType::Pow.arity(), 2);
    assert_eq!(FuncType::Sqrt.arity(), 1);
    assert_eq!(FuncType::Log.arity(), 1);
    assert_eq!(FuncType::Sin.arity(), 1);
    assert_eq!(FuncType::Cos.arity(), 1);
    assert_eq!(FuncType::Sqrt.code(), 0);
    assert_eq!(FuncType::Log.code(), 1);
    assert_eq!(FuncType::Sin.code(), 2);
    assert_eq!(FuncType::Cos.code(), 3);
    assert_eq!(FuncType::Pow.code(), 4);
    assert!(FuncType::try_from(2).is_ok());
    assert_eq!(FuncType::try_from(2).unwrap(), FuncType::Sin);
    assert!(FuncType::try_from(9).is_err());
}
