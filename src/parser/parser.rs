//! Tokens and their values.
use vstd::prelude::*;
use crate::parser::lexer::CharacterCategory;
use crate::text::{decimal, push_char, push_decimal};

verus! {

/// One unit of input after tokenizing.
#[derive(Debug)]
pub enum Token {
    Character(char, CharacterCategory),
    ControlSequence(String),
    Parameter(char, u8),
}

/// The mathematical value of a token: a control sequence is known by the
/// characters of its name.
pub enum TokenView {
    Character(char, CharacterCategory),
    ControlSequence(Seq<char>),
    Parameter(char, u8),
}

impl View for Token {
    type V = TokenView;

    open spec fn view(&self) -> TokenView {
        match self {
            Token::Character(c, k) => TokenView::Character(*c, *k),
            Token::ControlSequence(s) => TokenView::ControlSequence(s@),
            Token::Parameter(c, i) => TokenView::Parameter(*c, *i),
        }
    }
}

/// The values of a sequence of tokens.
pub open spec fn tokens_view(s: Seq<Token>) -> Seq<TokenView> {
    s.map_values(|t: Token| t@)
}

/// The text that a token stands for.
pub open spec fn token_text(t: TokenView) -> Seq<char> {
    match t {
        TokenView::Character(c, _) => seq![c],
        TokenView::ControlSequence(s) => s,
        TokenView::Parameter(c, i) => seq![c] + decimal(i as nat),
    }
}

impl Clone for Token {
    fn clone(&self) -> (r: Self)
        ensures
            r == *self,
    {
        match self {
            Token::Character(c, k) => Token::Character(*c, *k),
            Token::ControlSequence(s) => Token::ControlSequence(s.clone()),
            Token::Parameter(c, i) => Token::Parameter(*c, *i),
        }
    }
}

impl PartialEq for Token {
    fn eq(&self, other: &Token) -> (r: bool)
        ensures
            r == (self@ == other@),
    {
        match (self, other) {
            (Token::Character(a, k), Token::Character(b, l)) => *a == *b && *k == *l,
            (Token::ControlSequence(s), Token::ControlSequence(t)) => *s == *t,
            (Token::Parameter(a, i), Token::Parameter(b, j)) => *a == *b && *i == *j,
            _ => false,
        }
    }
}

impl vstd::std_specs::cmp::PartialEqSpecImpl for Token {
    open spec fn obeys_eq_spec() -> bool {
        true
    }

    open spec fn eq_spec(&self, other: &Token) -> bool {
        self@ == other@
    }
}

impl Token {
    /// The text that the token stands for: the character, the control
    /// sequence's name, or the parameter character followed by its number.
    pub fn to_string(&self) -> (r: String)
        ensures
            r@ == token_text(self@),
    {
        match self {
            Token::Character(c, _) => {
                let mut s = String::new();
                push_char(&mut s, *c);
                s
            },
            Token::ControlSequence(s) => s.clone(),
            Token::Parameter(c, i) => {
                let mut s = String::new();
                push_char(&mut s, *c);
                push_decimal(&mut s, *i as u64);
                s
            },
        }
    }
}

} // verus!
