use passage::command::Command;
use passage::command_parser::{parse, ParseError, Token, TokenKind, Tokenizer};

#[test]
fn tokenizer_happy_path() {
    let input = b"hello world\r\n";
    let mut tokens = Tokenizer::new(input);
    let mut next = || tokens.next().unwrap().unwrap();

    assert!(matches!(next().kind, TokenKind::Word));
    assert!(matches!(next().kind, TokenKind::WS));
    assert!(matches!(next().kind, TokenKind::Word));
    assert!(matches!(next().kind, TokenKind::CRLF));
    assert!(matches!(tokens.next(), None));
}

#[test]
fn tokenizer_take_while() {
    let input = b"hello world\r\n";
    let mut tokenizer = Tokenizer::new(input);
    let mut tokens: Vec<Token> = Vec::new();
    loop {
        match tokenizer.next() {
            Some(Ok(t)) => tokens.push(t),
            _ => break,
        }
    }
    assert_eq!(4, tokens.len());
    assert_eq!(13, tokenizer.position());
}

#[test]
fn parse_get() {
    let input = b"get drink\r\n";
    let cmd = parse(input).unwrap();
    assert!(matches!(cmd, Command::Get(_)));
}

#[test]
fn parse_set() {
    let input = b"set drink whisky\r\n";
    let cmd = parse(input).unwrap();
    assert!(matches!(cmd, Command::Put(..)));
}

#[test]
fn parse_remove() {
    let input = b"remove drink\r\n";
    let cmd = parse(input).unwrap();
    assert!(matches!(cmd, Command::Remove(_)));
}

#[test]
fn parse_line_argument_values() {
    let cmd = parse(b"set drink whisky\r\n").unwrap();
    if let Command::Put(k, v) = cmd {
        assert_eq!(k, "drink");
        assert_eq!(v, "whisky");
    } else {
        panic!("expected a set command");
    }
}

#[test]
fn parse_line_errors() {
    assert!(matches!(parse(b""), Err(ParseError::UnknownCommand)));
    assert!(matches!(parse(b"!boom\r\n"), Err(ParseError::UnknownToken(0))));
    assert!(matches!(parse(b" get x\r\n"), Err(ParseError::Other)));
    assert!(matches!(parse(b"jump up\r\n"), Err(ParseError::Other)));
    assert!(matches!(parse(b"set lonely\r\n"), Err(ParseError::Other)));
}
