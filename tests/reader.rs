use rutex::errors::{Error, ErrorKind};
use rutex::parsing::{
    decode_at, CharacterType, DecodeError, Input, InputResult, Parser, TexCharacterMap, Token,
};

fn read_all(bytes: Vec<u8>) -> Vec<InputResult<DecodeError>> {
    let mut input = Input::new_from_source("t", bytes);
    let mut out = Vec::new();
    loop {
        let r = input.read_char();
        let stop = !matches!(r, InputResult::Char(_));
        out.push(r);
        if stop {
            return out;
        }
    }
}

#[test]
fn decoder_conformance() {
    let r = read_all(vec![0xC2, 0xA9]);
    assert_eq!(r.len(), 2);
    assert!(matches!(r[0], InputResult::Char('\u{A9}')));
    assert!(matches!(r[1], InputResult::Eof));
    assert!(matches!(read_all(vec![0xC0, 0x80])[0], InputResult::Error(DecodeError::Overlong)));
    assert!(matches!(read_all(vec![0x80])[0], InputResult::Error(DecodeError::UnexpectedContinuation)));
}

#[test]
fn decoder_classifies_malformed_sequences() {
    let bytes = vec![0xC0, 0x80];
    assert!(matches!(decode_at(&bytes, 0), (InputResult::Error(DecodeError::Overlong), 1)));
    let bytes = vec![0xE0, 0x80, 0x80];
    assert!(matches!(decode_at(&bytes, 0), (InputResult::Error(DecodeError::Overlong), 1)));
    let bytes = vec![0xED, 0xA0, 0x80];
    assert!(matches!(decode_at(&bytes, 0), (InputResult::Error(DecodeError::NotScalar), 1)));
    let bytes = vec![0xF4, 0x90, 0x80, 0x80];
    assert!(matches!(decode_at(&bytes, 0), (InputResult::Error(DecodeError::NotScalar), 1)));
    let bytes = vec![0xF8, 0x88, 0x80, 0x80, 0x80];
    assert!(matches!(decode_at(&bytes, 0), (InputResult::Error(DecodeError::InvalidLeadingByte), 1)));
    let bytes = vec![0xC2, 0x41];
    assert!(matches!(decode_at(&bytes, 0), (InputResult::Error(DecodeError::BadContinuation), 1)));
    let bytes = vec![0xE2, 0x82];
    assert!(matches!(decode_at(&bytes, 0), (InputResult::Error(DecodeError::BadContinuation), 1)));
    let bytes = vec![0xBF];
    assert!(matches!(decode_at(&bytes, 0), (InputResult::Error(DecodeError::UnexpectedContinuation), 1)));
}

#[test]
fn decoder_reads_each_width() {
    let bytes = vec![0x41, 0xC2, 0xA9, 0xE2, 0x82, 0xAC, 0xF0, 0x9F, 0x98, 0x80];
    assert!(matches!(decode_at(&bytes, 0), (InputResult::Char('A'), 1)));
    assert!(matches!(decode_at(&bytes, 1), (InputResult::Char('\u{A9}'), 2)));
    assert!(matches!(decode_at(&bytes, 3), (InputResult::Char('\u{20AC}'), 3)));
    assert!(matches!(decode_at(&bytes, 6), (InputResult::Char('\u{1F600}'), 4)));
    assert!(matches!(decode_at(&bytes, 10), (InputResult::Eof, 0)));
}

#[test]
fn input_tracks_lines_and_columns() {
    let mut input = Input::new_from_source("doc", "ab\nc".as_bytes().to_vec());
    assert_eq!(input.name(), "doc");
    assert_eq!((input.line(), input.col(), input.pos()), (1, 1, 0));
    input.read_char();
    input.read_char();
    assert_eq!((input.line(), input.col(), input.pos()), (1, 3, 2));
    input.read_char();
    assert_eq!((input.line(), input.col(), input.pos()), (2, 1, 3));
    input.read_char();
    assert_eq!((input.line(), input.col(), input.pos()), (2, 2, 4));
    assert!(matches!(input.read_char(), InputResult::Eof));
    assert_eq!(input.pos(), 4);
}

#[test]
fn reader_table_defaults_and_scopes() {
    let outer = TexCharacterMap::new();
    assert_eq!(outer.get('\\'), Some(CharacterType::Escape));
    assert_eq!(outer.get('\t'), Some(CharacterType::Other));
    assert_eq!(outer.get('\r'), Some(CharacterType::Other));
    assert_eq!(outer.get(' '), Some(CharacterType::Space));
    assert_eq!(outer.get('Q'), Some(CharacterType::Letter));
    assert_eq!(outer.get('~'), Some(CharacterType::Active));
    assert_eq!(outer.get('\u{e9}'), None);
    assert_eq!(outer.get_or('\u{e9}', CharacterType::Other), CharacterType::Other);
    let mut inner = TexCharacterMap::new_with_parent(outer);
    assert_eq!(inner.get('{'), Some(CharacterType::BeginGroup));
    inner.set('{', CharacterType::Other);
    assert_eq!(inner.get('{'), Some(CharacterType::Other));
    inner.set('~', CharacterType::Other);
    assert_eq!(inner.get_or('~', CharacterType::Active), CharacterType::Other);
}

#[test]
fn parser_makes_tokens_of_characters() {
    let mut p = Parser::new();
    assert!(matches!(p.parse_token(), Ok(Token::EndOfFile)));
    p.input.push(Input::new_from_source("s", "{x$\u{e9}".as_bytes().to_vec()));
    assert!(matches!(p.parse_token(), Ok(Token::BeginGroup)));
    assert!(matches!(p.parse_token(), Ok(Token::SingleCharacter('x'))));
    assert!(matches!(p.parse_token(), Ok(Token::MathShift)));
    assert!(matches!(p.parse_token(), Ok(Token::SingleCharacter('\u{e9}'))));
    assert!(matches!(p.parse_token(), Ok(Token::EndOfFile)));
    p.input.push(Input::new_from_source("bad", vec![0xFF]));
    assert!(matches!(p.parse_token(), Err(DecodeError::InvalidLeadingByte)));
}

#[test]
fn error_text() {
    let e = Error::new(ErrorKind::UnknownMacroError, "\\foo".to_string());
    assert_eq!(e.to_string(), "[UnknownMacroError] \\foo");
    let located = Error::new_with_location(
        Some(("a.tex".to_string(), 12, 3)),
        ErrorKind::ParseError,
        "bad number".to_string(),
    );
    assert_eq!(located.to_string(), "a.tex:12:3 [ParseError] bad number");
    let eof = Error::eof();
    assert_eq!(eof.kind, ErrorKind::EndOfFile);
    assert!(eof.location.is_none());
    assert_eq!(ErrorKind::EndOfFile.name(), "EndOfFile");
}
