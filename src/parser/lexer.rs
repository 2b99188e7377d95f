//! Character categories, the per-scope category table, and input files.
use vstd::prelude::*;
use vstd::utf8::char_u32_cast;
use crate::text::chars_of;
use crate::assoc::{assoc_map, lemma_assoc_absent, lemma_assoc_first, lemma_assoc_map_push, lemma_assoc_map_update};

verus! {


/// The class that a character belongs to; it decides how the tokenizer treats it.
#[derive(Debug, Clone, Copy, PartialEq, Eq, Structural)]
pub enum CharacterCategory {
    Escape,
    BeginGroup,
    EndGroup,
    MathShift,
    AlignmentTab,
    EndOfLine,
    Parameter,
    Superscript,
    Subscript,
    Ignored,
    Space,
    Letter,
    Other,
    Active,
    Comment,
    Invalid,
}

/// An ASCII letter.
pub open spec fn is_ascii_letter(c: char) -> bool {
    (0x41 <= c as u32 <= 0x5a) || (0x61 <= c as u32 <= 0x7a)
}

/// The category that the outermost scope gives a character before any
/// reassignment; everything not listed is `Other`.
pub open spec fn default_category(c: char) -> CharacterCategory {
    if c == '\\' {
        CharacterCategory::Escape
    } else if c == '{' {
        CharacterCategory::BeginGroup
    } else if c == '}' {
        CharacterCategory::EndGroup
    } else if c == '$' {
        CharacterCategory::MathShift
    } else if c == '&' {
        CharacterCategory::AlignmentTab
    } else if c == '\n' {
        CharacterCategory::EndOfLine
    } else if c == '#' {
        CharacterCategory::Parameter
    } else if c == '^' {
        CharacterCategory::Superscript
    } else if c == '_' {
        CharacterCategory::Subscript
    } else if c == '\0' {
        CharacterCategory::Ignored
    } else if c == ' ' {
        CharacterCategory::Space
    } else if is_ascii_letter(c) {
        CharacterCategory::Letter
    } else if c == '~' {
        CharacterCategory::Active
    } else if c == '%' {
        CharacterCategory::Comment
    } else if c == '\x7f' {
        CharacterCategory::Invalid
    } else {
        CharacterCategory::Other
    }
}

/// The explicit entries that a fresh outermost scope holds: one for each
/// ASCII character.
pub open spec fn ascii_defaults() -> Map<char, CharacterCategory> {
    Map::new(|c: char| (c as u32) < 128, |c: char| default_category(c))
}

/// The default entries of the characters below code `n`.
pub open spec fn defaults_below(n: u32) -> Map<char, CharacterCategory> {
    Map::new(|c: char| (c as u32) < n, |c: char| default_category(c))
}

/// Executable form of `default_category`.
pub fn category_by_default(c: char) -> (r: CharacterCategory)
    ensures
        r == default_category(c),
{
    match c {
        '\\' => CharacterCategory::Escape,
        '{' => CharacterCategory::BeginGroup,
        '}' => CharacterCategory::EndGroup,
        '$' => CharacterCategory::MathShift,
        '&' => CharacterCategory::AlignmentTab,
        '\n' => CharacterCategory::EndOfLine,
        '#' => CharacterCategory::Parameter,
        '^' => CharacterCategory::Superscript,
        '_' => CharacterCategory::Subscript,
        '\0' => CharacterCategory::Ignored,
        ' ' => CharacterCategory::Space,
        'A'..='Z' | 'a'..='z' => CharacterCategory::Letter,
        '~' => CharacterCategory::Active,
        '%' => CharacterCategory::Comment,
        '\x7f' => CharacterCategory::Invalid,
        _ => CharacterCategory::Other,
    }
}

/// Category assignments of one scope, as an association list.
#[derive(Debug)]
pub struct CharacterMap(Vec<(char, CharacterCategory)>);

impl View for CharacterMap {
    type V = Map<char, CharacterCategory>;

    closed spec fn view(&self) -> Map<char, CharacterCategory> {
        assoc_map(self.0@)
    }
}

impl Clone for CharacterMap {
    fn clone(&self) -> (r: Self)
        ensures
            r@ == self@,
    {
        self.copy()
    }
}

impl CharacterMap {
    pub fn new() -> (r: Self)
        ensures
            r@ == Map::<char, CharacterCategory>::empty(),
    {
        let r = CharacterMap(Vec::new());
        assert(r@ =~= Map::<char, CharacterCategory>::empty());
        r
    }

    pub fn new_and_init() -> (r: Self)
        ensures
            r@ == ascii_defaults(),
    {
        let mut s = Self::new();
        s.init();
        assert(s@ =~= ascii_defaults());
        s
    }

    /// Gives every ASCII character its default category.
    pub fn init(&mut self)
        ensures
            final(self)@ == old(self)@.union_prefer_right(ascii_defaults()),
    {
        let mut b: u8 = 0;
        while b < 128
            invariant
                b <= 128,
                self@ == old(self)@.union_prefer_right(defaults_below(b as u32)),
            decreases 128 - b,
        {
            let c = b as char;
            assert(c as u32 == b as u32);
            let ghost before = self@;
            self.set(c, category_by_default(c));
            assert forall|d: char| #[trigger] defaults_below((b + 1) as u32).contains_key(d)
                <==> defaults_below(b as u32).insert(c, default_category(c)).contains_key(d) by {
                if (d as u32) == (b as u32) {
                    char_u32_cast(d, d as u32);
                    char_u32_cast(c, c as u32);
                }
            }
            assert(defaults_below((b + 1) as u32) =~= defaults_below(b as u32).insert(c, default_category(c)));
            b = b + 1;
            assert(self@ =~= old(self)@.union_prefer_right(defaults_below(b as u32)));
        }
        assert(defaults_below(128) =~= ascii_defaults());
    }

    pub fn set(&mut self, chr: char, cat: CharacterCategory)
        ensures
            final(self)@ == old(self)@.insert(chr, cat),
    {
        let mut i: usize = 0;
        while i < self.0.len()
            invariant
                i <= self.0@.len(),
                self.0@ == old(self).0@,
                forall|j: int| 0 <= j < i ==> self.0@[j].0 != chr,
            decreases self.0@.len() - i,
        {
            if self.0[i].0 == chr {
                proof {
                    lemma_assoc_map_update(self.0@, i as int, chr, cat);
                }
                self.0.set(i, (chr, cat));
                return;
            }
            i = i + 1;
        }
        proof {
            lemma_assoc_map_push(self.0@, chr, cat);
        }
        self.0.push((chr, cat));
    }

    pub fn get(&self, chr: char) -> (r: Option<CharacterCategory>)
        ensures
            r == (if self@.contains_key(chr) { Some(self@[chr]) } else { None }),
    {
        let mut i: usize = 0;
        while i < self.0.len()
            invariant
                i <= self.0@.len(),
                forall|j: int| 0 <= j < i ==> self.0@[j].0 != chr,
            decreases self.0@.len() - i,
        {
            if self.0[i].0 == chr {
                proof {
                    lemma_assoc_first(self.0@, i as int, chr);
                }
                return Some(self.0[i].1);
            }
            i = i + 1;
        }
        proof {
            lemma_assoc_absent(self.0@, chr);
        }
        None
    }

    /// An independent map with the same assignments.
    pub fn copy(&self) -> (r: Self)
        ensures
            r@ == self@,
    {
        let mut v: Vec<(char, CharacterCategory)> = Vec::new();
        let mut i: usize = 0;
        while i < self.0.len()
            invariant
                i <= self.0@.len(),
                v@ == self.0@.subrange(0, i as int),
            decreases self.0@.len() - i,
        {
            v.push(self.0[i]);
            i = i + 1;
            assert(v@ =~= self.0@.subrange(0, i as int));
        }
        assert(v@ =~= self.0@);
        CharacterMap(v)
    }
}

/// Number of line breaks among the first `p` characters of `t`.
pub open spec fn newlines_before(t: Seq<char>, p: int) -> nat
    decreases p,
{
    if p <= 0 {
        0
    } else if t[p - 1] == '\n' {
        newlines_before(t, p - 1) + 1
    } else {
        newlines_before(t, p - 1)
    }
}

/// Index of the last line break among the first `p` characters of `t`, or
/// zero if there is none.
pub open spec fn last_newline_before(t: Seq<char>, p: int) -> int
    decreases p,
{
    if p <= 0 {
        0
    } else if t[p - 1] == '\n' {
        p - 1
    } else {
        last_newline_before(t, p - 1)
    }
}

/// One input file: its name, where it came from, its text and how far it has
/// been read.
#[derive(Debug)]
pub struct TexFile {
    file_name: String,
    path: String,
    contents: Vec<char>,
    position: usize,
}

impl View for TexFile {
    /// The characters that are still to be read.
    type V = Seq<char>;

    closed spec fn view(&self) -> Seq<char> {
        if self.position <= self.contents.len() {
            self.contents@.skip(self.position as int)
        } else {
            Seq::empty()
        }
    }
}

impl TexFile {
    /// The whole text of the file.
    pub closed spec fn text(&self) -> Seq<char> {
        self.contents@
    }

    /// How many characters have been read.
    pub closed spec fn offset(&self) -> int {
        if self.position <= self.contents.len() {
            self.position as int
        } else {
            self.contents.len() as int
        }
    }

    /// The file's name.
    pub closed spec fn name(&self) -> Seq<char> {
        self.file_name@
    }

    /// What remains to be read fits in memory.
    pub proof fn lemma_len_fits(&self)
        ensures
            self@.len() <= usize::MAX,
    {
    }

    pub fn new_from_contents(name: String, contents: String) -> (r: Self)
        ensures
            r.name() == name@,
            r.text() == contents@,
            r.offset() == 0,
            r@ == contents@,
    {
        let chars = chars_of(contents.as_str());
        let r = Self { file_name: name, path: "custom".to_string(), contents: chars, position: 0 };
        assert(r@ =~= contents@);
        r
    }

    /// The line (counted from one) and the column of the read position; the
    /// column is the distance from the last line break before it.
    pub fn get_text_position(&self) -> (r: (usize, usize))
        ensures
            r.0 as int == if newlines_before(self.text(), self.offset()) < usize::MAX {
                newlines_before(self.text(), self.offset()) + 1int
            } else {
                usize::MAX as int
            },
            r.1 as int == self.offset() - last_newline_before(self.text(), self.offset()),
    {
        let p = if self.position <= self.contents.len() {
            self.position
        } else {
            self.contents.len()
        };
        let mut lines: usize = 0;
        let mut last: usize = 0;
        let mut i: usize = 0;
        while i < p
            invariant
                i <= p <= self.contents.len(),
                p == self.offset(),
                lines == newlines_before(self.contents@, i as int),
                lines <= i,
                last as int == last_newline_before(self.contents@, i as int),
                last <= i,
            decreases p - i,
        {
            if self.contents[i] == '\n' {
                lines = lines + 1;
                last = i;
            }
            i = i + 1;
        }
        let line = if lines < usize::MAX { lines + 1 } else { lines };
        (line, p - last)
    }

    pub fn file_name(&self) -> (r: String)
        ensures
            r@ == self.name(),
    {
        self.file_name.clone()
    }

    pub fn get_current_char(&self, offset: usize) -> (r: Option<char>)
        ensures
            r == (if offset < self@.len() { Some(self@[offset as int]) } else { None }),
    {
        if self.position <= self.contents.len() && offset < self.contents.len() - self.position {
            Some(self.contents[self.position + offset])
        } else {
            None
        }
    }

    /// Moves the read position `offset` characters on, if that many remain.
    pub fn advance(&mut self, offset: usize) -> (r: Result<(), ()>)
        ensures
            offset <= old(self)@.len() ==> r is Ok && final(self)@ == old(self)@.skip(offset as int)
                && final(self).offset() == old(self).offset() + offset,
            offset > old(self)@.len() ==> r is Err && final(self)@ == old(self)@
                && final(self).offset() == old(self).offset(),
            final(self).text() == old(self).text(),
            final(self).name() == old(self).name(),
    {
        let remaining = if self.position <= self.contents.len() {
            self.contents.len() - self.position
        } else {
            0
        };
        if offset <= remaining {
            if offset > 0 {
                self.position = self.position + offset;
            }
            assert(self@ =~= old(self)@.skip(offset as int));
            Ok(())
        } else {
            Err(())
        }
    }
}

} // verus!
