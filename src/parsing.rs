//! Reading raw input bytes as characters, with UTF-8 validation, and the
//! character classes of the byte-level reader.
use vstd::prelude::*;
use crate::parser::lexer::{category_by_default, default_category, CharacterCategory};
use crate::assoc::{assoc_map, lemma_assoc_absent, lemma_assoc_first, lemma_assoc_map_push, lemma_assoc_map_update};
use vstd::utf8::{
    char_u32_cast, decode_first_codepoint, decode_first_scalar, is_continuation_byte,
    length_of_first_scalar, not_overlong_encoding, valid_first_scalar,
    valid_leading_and_continuation_bytes_first_codepoint,
};

verus! {

/// Why a byte sequence does not start with a well-formed UTF-8 character.
#[derive(Debug, Clone, Copy, PartialEq, Eq, Structural)]
pub enum DecodeError {
    /// A continuation byte stands where a leading byte was expected.
    UnexpectedContinuation,
    /// A byte that can begin no encoding (`0xF8` to `0xFF`).
    InvalidLeadingByte,
    /// A continuation byte is missing or outside `0x80..=0xBF`.
    BadContinuation,
    /// More bytes than the value needs.
    Overlong,
    /// A surrogate, or a value above `0x10FFFF`.
    NotScalar,
}

/// What reading one character gives.
#[derive(Debug, Clone, Copy)]
pub enum InputResult<E> {
    Char(char),
    Eof,
    Error(E),
}

/// Why `b`, which is not empty and does not start with a well-formed
/// encoding, is rejected.
pub open spec fn decode_error(b: Seq<u8>) -> DecodeError {
    if is_continuation_byte(b[0]) {
        DecodeError::UnexpectedContinuation
    } else if b[0] >= 0xf8 {
        DecodeError::InvalidLeadingByte
    } else if !valid_leading_and_continuation_bytes_first_codepoint(b) {
        DecodeError::BadContinuation
    } else if b[0] >= 0xf0 && decode_first_codepoint(b) > 0x10ffff {
        DecodeError::NotScalar
    } else if !not_overlong_encoding(decode_first_codepoint(b), vstd::utf8::length_of_first_codepoint(b)) {
        DecodeError::Overlong
    } else {
        DecodeError::NotScalar
    }
}

/// The result of decoding the first character of `b`, with the number of
/// bytes it takes: a character where `b` starts with a well-formed
/// encoding, the end where `b` is empty, else an error that takes one byte.
pub open spec fn decode_spec(b: Seq<u8>) -> (InputResult<DecodeError>, nat) {
    if b.len() == 0 {
        (InputResult::Eof, 0)
    } else if valid_first_scalar(b) {
        (InputResult::Char(decode_first_scalar(b) as char), length_of_first_scalar(b) as nat)
    } else {
        (InputResult::Error(decode_error(b)), 1)
    }
}

/// Relies on `char::from_u32`: `Some` exactly for the Unicode scalar values,
/// holding the character with that value.
#[verifier::external_body]
fn scalar_to_char(v: u32) -> (r: Option<char>)
    ensures
        r is Some <==> (v <= 0x10ffff && !(0xd800 <= v <= 0xdfff)),
        r is Some ==> r->Some_0 as u32 == v,
{
    char::from_u32(v)
}

fn is_continuation(b: u8) -> (r: bool)
    ensures
        r == is_continuation_byte(b),
{
    0x80 <= b && b <= 0xbf
}

/// Decodes the character that starts at byte `i` of `bytes`.
pub fn decode_at(bytes: &Vec<u8>, i: usize) -> (r: (InputResult<DecodeError>, usize))
    requires
        i <= bytes@.len(),
    ensures
        (r.0, r.1 as nat) == decode_spec(bytes@.skip(i as int)),
{
    let ghost b = bytes@.skip(i as int);
    if i == bytes.len() {
        return (InputResult::Eof, 0);
    }
    let b0 = bytes[i];
    if b0 <= 0x7f {
        let c = b0 as char;
        assert(c as u32 == b0 as u32);
        assert((b0 & 0x7f) == b0) by (bit_vector)
            requires
                b0 <= 0x7f,
        ;
        proof {
            char_u32_cast(c, c as u32);
        }
        return (InputResult::Char(c), 1);
    }
    if b0 <= 0xbf {
        return (InputResult::Error(DecodeError::UnexpectedContinuation), 1);
    }
    if b0 >= 0xf8 {
        return (InputResult::Error(DecodeError::InvalidLeadingByte), 1);
    }
    let n: usize = if b0 <= 0xdf {
        2
    } else if b0 <= 0xef {
        3
    } else {
        4
    };
    if bytes.len() - i < n {
        return (InputResult::Error(DecodeError::BadContinuation), 1);
    }
    let b1 = bytes[i + 1];
    if !is_continuation(b1) {
        return (InputResult::Error(DecodeError::BadContinuation), 1);
    }
    let v: u32 = if n == 2 {
        let v2: u32 = (((b0 & 0x1f) as u32) << 6) | ((b1 & 0x3f) as u32);
        assert(v2 <= 0x7ff) by (bit_vector)
            requires
                v2 == (((b0 & 0x1f) as u32) << 6) | ((b1 & 0x3f) as u32),
        ;
        v2
    } else if n == 3 {
        let b2 = bytes[i + 2];
        if !is_continuation(b2) {
            return (InputResult::Error(DecodeError::BadContinuation), 1);
        }
        let v3: u32 = (((b0 & 0x0f) as u32) << 12) | (((b1 & 0x3f) as u32) << 6) | ((b2 & 0x3f) as u32);
        assert(v3 <= 0xffff) by (bit_vector)
            requires
                v3 == (((b0 & 0x0f) as u32) << 12) | (((b1 & 0x3f) as u32) << 6) | ((b2 & 0x3f) as u32),
        ;
        v3
    } else {
        let b2 = bytes[i + 2];
        let b3 = bytes[i + 3];
        if !is_continuation(b2) || !is_continuation(b3) {
            return (InputResult::Error(DecodeError::BadContinuation), 1);
        }
        (((b0 & 0x07) as u32) << 18) | (((b1 & 0x3f) as u32) << 12) | (((b2 & 0x3f) as u32) << 6)
            | ((b3 & 0x3f) as u32)
    };
    assert(v == decode_first_codepoint(b));
    if n == 4 && v > 0x10ffff {
        return (InputResult::Error(DecodeError::NotScalar), 1);
    }
    if (n == 2 && v < 0x80) || (n == 3 && v < 0x800) || (n == 4 && v < 0x10000) {
        return (InputResult::Error(DecodeError::Overlong), 1);
    }
    match scalar_to_char(v) {
        Some(c) => {
            proof {
                char_u32_cast(c, v);
            }
            (InputResult::Char(c), n)
        },
        None => (InputResult::Error(DecodeError::NotScalar), 1),
    }
}

/// A source of input bytes, read one character at a time.
pub struct Input {
    name: String,
    bytes: Vec<u8>,
    offset: usize,
    pos: usize,
    line: usize,
    col: usize,
}

impl View for Input {
    /// The bytes still to be read.
    type V = Seq<u8>;

    closed spec fn view(&self) -> Seq<u8> {
        if self.offset <= self.bytes.len() {
            self.bytes@.skip(self.offset as int)
        } else {
            Seq::empty()
        }
    }
}

impl Input {
    pub closed spec fn spec_name(&self) -> Seq<char> {
        self.name@
    }

    /// Characters read so far.
    pub closed spec fn spec_pos(&self) -> nat {
        self.pos as nat
    }

    pub closed spec fn spec_line(&self) -> nat {
        self.line as nat
    }

    pub closed spec fn spec_col(&self) -> nat {
        self.col as nat
    }

    pub fn new_from_source(name: &str, source: Vec<u8>) -> (r: Self)
        ensures
            r@ == source@,
            r.spec_name() == name@,
            r.spec_pos() == 0,
            r.spec_line() == 1,
            r.spec_col() == 1,
    {
        let r = Self { name: name.to_string(), bytes: source, offset: 0, pos: 0, line: 1, col: 1 };
        assert(r@ =~= source@);
        r
    }

    pub fn name(&self) -> (r: &String)
        ensures
            r@ == self.spec_name(),
    {
        &self.name
    }

    pub fn line(&self) -> (r: usize)
        ensures
            r == self.spec_line(),
    {
        self.line
    }

    pub fn col(&self) -> (r: usize)
        ensures
            r == self.spec_col(),
    {
        self.col
    }

    pub fn pos(&self) -> (r: usize)
        ensures
            r == self.spec_pos(),
    {
        self.pos
    }

    /// Reads one character. After a character the line and column move on
    /// (a line break starts a new line at column one); the counters stop at
    /// the largest `usize`.
    pub fn read_char(&mut self) -> (r: InputResult<DecodeError>)
        ensures
            r == decode_spec(old(self)@).0,
            final(self)@ == old(self)@.skip(decode_spec(old(self)@).1 as int),
            final(self).spec_name() == old(self).spec_name(),
            r is Char ==> final(self).spec_pos() == sat_inc(old(self).spec_pos()),
            r is Char && r->Char_0 == '\n' ==> final(self).spec_line() == sat_inc(old(self).spec_line())
                && final(self).spec_col() == 1,
            r is Char && r->Char_0 != '\n' ==> final(self).spec_line() == old(self).spec_line()
                && final(self).spec_col() == sat_inc(old(self).spec_col()),
            !(r is Char) ==> final(self).spec_pos() == old(self).spec_pos()
                && final(self).spec_line() == old(self).spec_line()
                && final(self).spec_col() == old(self).spec_col(),
    {
        if self.offset > self.bytes.len() {
            self.offset = self.bytes.len();
        }
        assert(self@ == old(self)@);
        let (r, n) = decode_at(&self.bytes, self.offset);
        self.offset = self.offset + n;
        assert(self@ =~= old(self)@.skip(n as int));
        match r {
            InputResult::Char(c) => {
                if self.pos < usize::MAX {
                    self.pos = self.pos + 1;
                }
                if c == '\n' {
                    if self.line < usize::MAX {
                        self.line = self.line + 1;
                    }
                    self.col = 1;
                } else if self.col < usize::MAX {
                    self.col = self.col + 1;
                }
            },
            _ => {},
        }
        r
    }
}

/// `n + 1`, or `n` where that would not fit in a `usize`.
pub open spec fn sat_inc(n: nat) -> nat {
    if n < usize::MAX {
        n + 1
    } else {
        n
    }
}

/// The class of a character for the byte-level reader.
#[derive(Debug, Clone, Copy, PartialEq, Eq, Structural)]
pub enum CharacterType {
    Escape,
    BeginGroup,
    EndGroup,
    MathShift,
    AlignmentTab,
    EndOfLine,
    Parameter,
    Superscript,
    Subscript,
    Ignored,
    Space,
    Letter,
    Other,
    Active,
    Comment,
    Invalid,
}

/// The reader's class for a category.
pub open spec fn as_character_type(k: CharacterCategory) -> CharacterType {
    match k {
        CharacterCategory::Escape => CharacterType::Escape,
        CharacterCategory::BeginGroup => CharacterType::BeginGroup,
        CharacterCategory::EndGroup => CharacterType::EndGroup,
        CharacterCategory::MathShift => CharacterType::MathShift,
        CharacterCategory::AlignmentTab => CharacterType::AlignmentTab,
        CharacterCategory::EndOfLine => CharacterType::EndOfLine,
        CharacterCategory::Parameter => CharacterType::Parameter,
        CharacterCategory::Superscript => CharacterType::Superscript,
        CharacterCategory::Subscript => CharacterType::Subscript,
        CharacterCategory::Ignored => CharacterType::Ignored,
        CharacterCategory::Space => CharacterType::Space,
        CharacterCategory::Letter => CharacterType::Letter,
        CharacterCategory::Other => CharacterType::Other,
        CharacterCategory::Active => CharacterType::Active,
        CharacterCategory::Comment => CharacterType::Comment,
        CharacterCategory::Invalid => CharacterType::Invalid,
    }
}

fn character_type(k: CharacterCategory) -> (r: CharacterType)
    ensures
        r == as_character_type(k),
{
    match k {
        CharacterCategory::Escape => CharacterType::Escape,
        CharacterCategory::BeginGroup => CharacterType::BeginGroup,
        CharacterCategory::EndGroup => CharacterType::EndGroup,
        CharacterCategory::MathShift => CharacterType::MathShift,
        CharacterCategory::AlignmentTab => CharacterType::AlignmentTab,
        CharacterCategory::EndOfLine => CharacterType::EndOfLine,
        CharacterCategory::Parameter => CharacterType::Parameter,
        CharacterCategory::Superscript => CharacterType::Superscript,
        CharacterCategory::Subscript => CharacterType::Subscript,
        CharacterCategory::Ignored => CharacterType::Ignored,
        CharacterCategory::Space => CharacterType::Space,
        CharacterCategory::Letter => CharacterType::Letter,
        CharacterCategory::Other => CharacterType::Other,
        CharacterCategory::Active => CharacterType::Active,
        CharacterCategory::Comment => CharacterType::Comment,
        CharacterCategory::Invalid => CharacterType::Invalid,
    }
}

/// The class that a fresh reader's table gives `c`: the default category
/// for each ASCII character, and no entry above.
pub open spec fn reader_default(c: char) -> Option<CharacterType> {
    if (c as u32) < 128 {
        Some(as_character_type(default_category(c)))
    } else {
        None
    }
}

fn reader_default_of(c: char) -> (r: Option<CharacterType>)
    ensures
        r == reader_default(c),
{
    if (c as u32) < 128 {
        Some(character_type(category_by_default(c)))
    } else {
        None
    }
}

/// The entries of a fresh reader's table.
pub open spec fn reader_defaults() -> Map<char, CharacterType> {
    Map::new(|c: char| reader_default(c) is Some, |c: char| reader_default(c)->Some_0)
}

/// The entries among the characters below code `n`.
pub open spec fn reader_defaults_below(n: u32) -> Map<char, CharacterType> {
    Map::new(|c: char| (c as u32) < n && reader_default(c) is Some, |c: char| reader_default(c)->Some_0)
}

/// The class that the tables give `c`, from the last (innermost) outwards.
pub open spec fn chain_lookup(chain: Seq<Map<char, CharacterType>>, c: char) -> Option<CharacterType>
    decreases chain.len(),
{
    if chain.len() == 0 {
        None
    } else if chain.last().contains_key(c) {
        Some(chain.last()[c])
    } else {
        chain_lookup(chain.drop_last(), c)
    }
}

/// A table of character classes with an optional enclosing table that
/// answers for characters it does not hold.
pub struct TexCharacterMap {
    parent: Option<Box<TexCharacterMap>>,
    map: Vec<(char, CharacterType)>,
}

/// The tables from the outermost to `m`.
pub closed spec fn chain_of(m: TexCharacterMap) -> Seq<Map<char, CharacterType>>
    decreases m,
{
    match m.parent {
        Some(p) => chain_of(*p).push(assoc_map(m.map@)),
        None => seq![assoc_map(m.map@)],
    }
}

impl View for TexCharacterMap {
    type V = Seq<Map<char, CharacterType>>;

    open spec fn view(&self) -> Seq<Map<char, CharacterType>> {
        chain_of(*self)
    }
}

impl TexCharacterMap {
    pub proof fn lemma_nonempty(&self)
        ensures
            self@.len() >= 1,
    {
        reveal(chain_of);
    }

    /// A table with the reader's default classes and no enclosing table.
    pub fn new() -> (r: Self)
        ensures
            r@ == seq![reader_defaults()],
    {
        let mut m = Self { parent: None, map: Vec::new() };
        let mut b: u8 = 0;
        assert(assoc_map(m.map@) =~= reader_defaults_below(0));
        while b < 128
            invariant
                b <= 128,
                m.parent is None,
                assoc_map(m.map@) == reader_defaults_below(b as u32),
            decreases 128 - b,
        {
            let c = b as char;
            assert(c as u32 == b as u32);
            match reader_default_of(c) {
                Some(t) => {
                    m.set_own(c, t);
                },
                None => {},
            }
            assert forall|d: char| #[trigger] reader_defaults_below((b + 1) as u32).contains_key(d)
                <==> (reader_defaults_below(b as u32).contains_key(d)
                    || (d == c && reader_default(c) is Some)) by {
                if (d as u32) == (b as u32) {
                    char_u32_cast(d, d as u32);
                    char_u32_cast(c, c as u32);
                }
            }
            b = b + 1;
            assert(assoc_map(m.map@) =~= reader_defaults_below(b as u32));
        }
        assert(reader_defaults_below(128) =~= reader_defaults()) by {
            assert forall|d: char| reader_default(d) is Some implies (d as u32) < 128 by {}
        }
        proof {
            reveal(chain_of);
        }
        m
    }

    /// An empty table inside `parent`.
    pub fn new_with_parent(parent: TexCharacterMap) -> (r: Self)
        ensures
            r@ == parent@.push(Map::empty()),
    {
        let r = Self { parent: Some(Box::new(parent)), map: Vec::new() };
        proof {
            reveal(chain_of);
            assert(assoc_map(r.map@) =~= Map::<char, CharacterType>::empty());
        }
        r
    }

    fn set_own(&mut self, c: char, t: CharacterType)
        ensures
            assoc_map(final(self).map@) == assoc_map(old(self).map@).insert(c, t),
            final(self).parent == old(self).parent,
    {
        let mut i: usize = 0;
        while i < self.map.len()
            invariant
                i <= self.map@.len(),
                self.map@ == old(self).map@,
                self.parent == old(self).parent,
                forall|j: int| 0 <= j < i ==> self.map@[j].0 != c,
            decreases self.map@.len() - i,
        {
            if self.map[i].0 == c {
                proof {
                    lemma_assoc_map_update(self.map@, i as int, c, t);
                }
                self.map.set(i, (c, t));
                return;
            }
            i = i + 1;
        }
        proof {
            lemma_assoc_map_push(self.map@, c, t);
        }
        self.map.push((c, t));
    }

    /// Gives `c` class `t` in this (the innermost) table.
    pub fn set(&mut self, c: char, t: CharacterType)
        ensures
            final(self)@ == old(self)@.update(old(self)@.len() - 1, old(self)@.last().insert(c, t)),
    {
        self.set_own(c, t);
        proof {
            reveal(chain_of);
            assert(final(self)@ =~= old(self)@.update(old(self)@.len() - 1, old(self)@.last().insert(c, t)));
        }
    }

    /// The class of `c`, looked up from this table outwards.
    pub fn get(&self, c: char) -> (r: Option<CharacterType>)
        ensures
            r == chain_lookup(self@, c),
        decreases self,
    {
        proof {
            reveal(chain_of);
        }
        let mut i: usize = 0;
        while i < self.map.len()
            invariant
                i <= self.map@.len(),
                forall|j: int| 0 <= j < i ==> self.map@[j].0 != c,
            decreases self.map@.len() - i,
        {
            if self.map[i].0 == c {
                proof {
                    lemma_assoc_first(self.map@, i as int, c);
                }
                return Some(self.map[i].1);
            }
            i = i + 1;
        }
        proof {
            lemma_assoc_absent(self.map@, c);
        }
        match &self.parent {
            Some(p) => {
                assert(self@.drop_last() =~= p@);
                p.get(c)
            },
            None => {
                assert(self@.drop_last() =~= Seq::<Map<char, CharacterType>>::empty());
                None
            },
        }
    }

    /// The class of `c`, or `default` where no table holds one.
    pub fn get_or(&self, c: char, default: CharacterType) -> (r: CharacterType)
        ensures
            r == (match chain_lookup(self@, c) {
                Some(t) => t,
                None => default,
            }),
    {
        match self.get(c) {
            Some(t) => t,
            None => default,
        }
    }
}

/// A token of the byte-level reader.
#[derive(Debug, Clone)]
pub enum Token {
    Word(String),
    SingleCharacter(char),
    ControlSequence(String),
    BeginGroup,
    EndGroup,
    MathShift,
    AlignmentTab,
    EndOfLine,
    Superscript,
    Subscript,
    EndOfFile,
}

/// The token that the reader makes of character `c` of class `k`.
pub open spec fn reader_token(c: char, k: CharacterType) -> Token {
    match k {
        CharacterType::BeginGroup => Token::BeginGroup,
        CharacterType::EndGroup => Token::EndGroup,
        CharacterType::MathShift => Token::MathShift,
        CharacterType::AlignmentTab => Token::AlignmentTab,
        CharacterType::EndOfLine => Token::EndOfLine,
        CharacterType::Superscript => Token::Superscript,
        CharacterType::Subscript => Token::Subscript,
        _ => Token::SingleCharacter(c),
    }
}

/// The byte-level reader: a stack of inputs, the last one current, and a
/// table of character classes.
pub struct Parser {
    pub input: Vec<Input>,
    pub map: TexCharacterMap,
}

impl Parser {
    pub fn new() -> (r: Self)
        ensures
            r.input@.len() == 0,
            r.map@ == seq![reader_defaults()],
    {
        Self { input: Vec::new(), map: TexCharacterMap::new() }
    }

    /// Reads one character from the current input and makes a token of it;
    /// characters the table does not classify count as `Other`. The end of
    /// the input, or no input at all, gives `EndOfFile`; a malformed byte
    /// sequence gives its decoding error.
    pub fn parse_token(&mut self) -> (r: Result<Token, DecodeError>)
        ensures
            old(self).input@.len() == 0 ==> r == Ok::<Token, DecodeError>(Token::EndOfFile)
                && final(self).input@ == old(self).input@,
            old(self).input@.len() > 0 ==> final(self).input@.len() == old(self).input@.len()
                && final(self).input@.drop_last() == old(self).input@.drop_last()
                && final(self).input@.last()@ == old(self).input@.last()@.skip(
                    decode_spec(old(self).input@.last()@).1 as int,
                )
                && r == match decode_spec(old(self).input@.last()@).0 {
                    InputResult::Char(c) => Ok(reader_token(c, match chain_lookup(old(self).map@, c) {
                        Some(k) => k,
                        None => CharacterType::Other,
                    })),
                    InputResult::Eof => Ok(Token::EndOfFile),
                    InputResult::Error(e) => Err(e),
                },
            final(self).map@ == old(self).map@,
    {
        let mut current = match self.input.pop() {
            Some(i) => i,
            None => {
                return Ok(Token::EndOfFile);
            },
        };
        let c = current.read_char();
        self.input.push(current);
        assert(self.input@.drop_last() =~= old(self).input@.drop_last());
        match c {
            InputResult::Char(c) => {
                let k = self.map.get_or(c, CharacterType::Other);
                Ok(match k {
                    CharacterType::BeginGroup => Token::BeginGroup,
                    CharacterType::EndGroup => Token::EndGroup,
                    CharacterType::MathShift => Token::MathShift,
                    CharacterType::AlignmentTab => Token::AlignmentTab,
                    CharacterType::EndOfLine => Token::EndOfLine,
                    CharacterType::Superscript => Token::Superscript,
                    CharacterType::Subscript => Token::Subscript,
                    _ => Token::SingleCharacter(c),
                })
            },
            InputResult::Eof => Ok(Token::EndOfFile),
            InputResult::Error(e) => Err(e),
        }
    }
}

} // verus!
