//! Macros: the definition primitive and user macros, and the table that
//! binds them to names in one scope.
use vstd::prelude::*;
use crate::assoc::{assoc_map, lemma_assoc_absent, lemma_assoc_first, lemma_assoc_map_push, lemma_assoc_map_update};
use crate::parser::lexer::CharacterCategory;
use crate::parser::parser::Token;
use crate::engine::{macro_effect, TexState};
use crate::errors::Error;
use crate::text::push_char;

pub mod pattern_matcher;
pub mod primitives;

verus! {

/// Number of parameter tokens in `s`.
pub open spec fn count_parameters(s: Seq<Token>) -> nat
    decreases s.len(),
{
    if s.len() == 0 {
        0
    } else {
        count_parameters(s.drop_last()) + if s.last() is Parameter { 1nat } else { 0nat }
    }
}

/// A character token of category `BeginGroup`.
pub open spec fn is_begin_group(t: Token) -> bool {
    t is Character && t->Character_1 == CharacterCategory::BeginGroup
}

/// A character token of category `EndGroup`.
pub open spec fn is_end_group(t: Token) -> bool {
    t is Character && t->Character_1 == CharacterCategory::EndGroup
}

/// What a definition read from the input looks like: the parameter count
/// is the number of parameter tokens in the pattern; the pattern ends with
/// the begin-group character that closed it and holds no other; the
/// replacement text ends with the end-group character that closed it and
/// holds no other.
pub open spec fn definition_shape(u: UserDefinedMacroView) -> bool {
    &&& u.parameter_count == count_parameters(u.parameters)
    &&& u.parameters.len() >= 1
    &&& is_begin_group(u.parameters.last())
    &&& forall|i: int| 0 <= i < u.parameters.len() - 1 ==> !is_begin_group(#[trigger] u.parameters[i])
    &&& u.replacements.len() >= 1
    &&& is_end_group(u.replacements.last())
    &&& forall|i: int| 0 <= i < u.replacements.len() - 1 ==> !is_end_group(#[trigger] u.replacements[i])
}

/// The delimiters and parameters that invocations are matched against: the
/// pattern without the begin-group character that closed it.
pub open spec fn parameter_text(p: Seq<Token>) -> Seq<Token> {
    if p.len() > 0 && is_begin_group(p.last()) {
        p.drop_last()
    } else {
        p
    }
}

/// The tokens that replace an invocation: the replacement text without the
/// end-group character that closed it.
pub open spec fn replacement_body(r: Seq<Token>) -> Seq<Token> {
    if r.len() > 0 && is_end_group(r.last()) {
        r.drop_last()
    } else {
        r
    }
}

/// Executable form of `parameter_text`.
pub fn parameter_text_of(p: &Vec<Token>) -> (r: Vec<Token>)
    ensures
        r@ == parameter_text(p@),
{
    let mut v = clone_tokens(p);
    let n = v.len();
    if n > 0 {
        let closes = match &v[n - 1] {
            Token::Character(_, CharacterCategory::BeginGroup) => true,
            _ => false,
        };
        if closes {
            v.pop();
        }
    }
    v
}

/// Executable form of `replacement_body`.
pub fn replacement_body_of(r: &Vec<Token>) -> (b: Vec<Token>)
    ensures
        b@ == replacement_body(r@),
{
    let mut v = clone_tokens(r);
    let n = v.len();
    if n > 0 {
        let closes = match &v[n - 1] {
            Token::Character(_, CharacterCategory::EndGroup) => true,
            _ => false,
        };
        if closes {
            v.pop();
        }
    }
    v
}

/// A copy of a token list, element by element.
pub fn clone_tokens(v: &Vec<Token>) -> (r: Vec<Token>)
    ensures
        r@ == v@,
{
    let mut out: Vec<Token> = Vec::new();
    let mut i: usize = 0;
    while i < v.len()
        invariant
            i <= v@.len(),
            out@ == v@.subrange(0, i as int),
        decreases v@.len() - i,
    {
        out.push(v[i].clone());
        i = i + 1;
        assert(out@ =~= v@.subrange(0, i as int));
    }
    assert(out@ =~= v@);
    out
}

/// A macro written by the user: its name, the pattern that binds its
/// arguments, and the tokens that replace an invocation.
#[derive(Debug)]
pub struct UserDefinedMacro {
    name: String,
    parameters: Vec<Token>,
    replacements: Vec<Token>,
    parameter_count: u8,
}

/// The value of a user macro.
pub struct UserDefinedMacroView {
    pub name: Seq<char>,
    pub parameters: Seq<Token>,
    pub replacements: Seq<Token>,
    pub parameter_count: u8,
}

impl View for UserDefinedMacro {
    type V = UserDefinedMacroView;

    closed spec fn view(&self) -> UserDefinedMacroView {
        UserDefinedMacroView {
            name: self.name@,
            parameters: self.parameters@,
            replacements: self.replacements@,
            parameter_count: self.parameter_count,
        }
    }
}

impl Clone for UserDefinedMacro {
    fn clone(&self) -> (r: Self)
        ensures
            r@ == self@,
    {
        UserDefinedMacro {
            name: self.name.clone(),
            parameters: clone_tokens(&self.parameters),
            replacements: clone_tokens(&self.replacements),
            parameter_count: self.parameter_count,
        }
    }
}

impl UserDefinedMacro {
    pub fn new(
        name: String,
        parameters: Vec<Token>,
        replacements: Vec<Token>,
        parameter_count: u8,
    ) -> (r: UserDefinedMacro)
        ensures
            r@ == (UserDefinedMacroView {
                name: name@,
                parameters: parameters@,
                replacements: replacements@,
                parameter_count,
            }),
    {
        Self { name, parameters, replacements, parameter_count }
    }

    pub fn name(&self) -> (r: String)
        ensures
            r@ == self@.name,
    {
        self.name.clone()
    }

    pub fn parameters(&self) -> (r: &Vec<Token>)
        ensures
            r@ == self@.parameters,
    {
        &self.parameters
    }

    pub fn replacements(&self) -> (r: &Vec<Token>)
        ensures
            r@ == self@.replacements,
    {
        &self.replacements
    }

    pub fn parameter_count(&self) -> (r: u8)
        ensures
            r == self@.parameter_count,
    {
        self.parameter_count
    }
}

/// A macro: the definition primitive, or one that the user defined.
#[derive(Debug)]
pub enum Macro {
    Def(primitives::Def),
    UserDefined(UserDefinedMacro),
}

/// The value of a macro.
pub enum MacroView {
    Def,
    UserDefined(UserDefinedMacroView),
}

impl View for Macro {
    type V = MacroView;

    open spec fn view(&self) -> MacroView {
        match self {
            Macro::Def(_) => MacroView::Def,
            Macro::UserDefined(m) => MacroView::UserDefined(m@),
        }
    }
}

impl Clone for Macro {
    fn clone(&self) -> (r: Self)
        ensures
            r@ == self@,
    {
        match self {
            Macro::Def(_) => Macro::Def(primitives::Def),
            Macro::UserDefined(m) => Macro::UserDefined(m.clone()),
        }
    }
}

/// The name under which a macro value is invoked.
pub open spec fn macro_name(m: MacroView) -> Seq<char> {
    match m {
        MacroView::Def => seq!['\\', 'd', 'e', 'f'],
        MacroView::UserDefined(u) => u.name,
    }
}

/// The name of the definition primitive.
pub fn def_name() -> (r: String)
    ensures
        r@ == macro_name(MacroView::Def),
{
    let mut s = String::new();
    push_char(&mut s, '\\');
    push_char(&mut s, 'd');
    push_char(&mut s, 'e');
    push_char(&mut s, 'f');
    assert(s@ =~= macro_name(MacroView::Def));
    s
}

impl Macro {
    /// Runs the macro on the engine.
    pub fn run(&self, state: &mut TexState) -> (r: Result<(), Error>)
        ensures
            macro_effect(*final(state), *old(state), self@, r),
    {
        match self {
            Macro::Def(d) => d.run(state),
            Macro::UserDefined(m) => m.run(state),
        }
    }

    /// Every macro may be used anywhere.
    pub fn safe(&self, state: &TexState) -> (r: bool)
        ensures
            r,
    {
        true
    }

    pub fn name(&self) -> (r: String)
        ensures
            r@ == macro_name(self@),
    {
        match self {
            Macro::Def(_) => def_name(),
            Macro::UserDefined(m) => m.name(),
        }
    }
}

/// The pairs of an association list of macros, keyed by the names' characters.
pub open spec fn macro_entries(s: Seq<(String, Macro)>) -> Seq<(Seq<char>, MacroView)> {
    s.map_values(|e: (String, Macro)| (e.0@, e.1@))
}

/// Macro bindings of one scope, by name.
#[derive(Debug)]
pub struct MacroMap(Vec<(String, Macro)>);

impl View for MacroMap {
    type V = Map<Seq<char>, MacroView>;

    closed spec fn view(&self) -> Map<Seq<char>, MacroView> {
        assoc_map(macro_entries(self.0@))
    }
}

impl Clone for MacroMap {
    fn clone(&self) -> (r: Self)
        ensures
            r@ == self@,
    {
        let mut v: Vec<(String, Macro)> = Vec::new();
        let mut i: usize = 0;
        while i < self.0.len()
            invariant
                i <= self.0@.len(),
                v@.len() == i,
                macro_entries(v@) == macro_entries(self.0@.subrange(0, i as int)),
            decreases self.0@.len() - i,
        {
            let name = self.0[i].0.clone();
            let m = self.0[i].1.clone();
            let ghost prev = v@;
            v.push((name, m));
            assert forall|j: int| 0 <= j <= i implies #[trigger] macro_entries(v@)[j] == macro_entries(
                self.0@.subrange(0, i + 1),
            )[j] by {
                if j < i {
                    assert(v@[j] == prev[j]);
                    assert(macro_entries(prev)[j] == macro_entries(self.0@.subrange(0, i as int))[j]);
                }
            }
            i = i + 1;
            assert(macro_entries(v@) =~= macro_entries(self.0@.subrange(0, i as int)));
        }
        assert(self.0@.subrange(0, i as int) =~= self.0@);
        MacroMap(v)
    }
}

impl MacroMap {
    pub fn new() -> (r: Self)
        ensures
            r@ == Map::<Seq<char>, MacroView>::empty(),
    {
        let r = MacroMap(Vec::new());
        assert(r@ =~= Map::<Seq<char>, MacroView>::empty());
        r
    }

    /// Binds the built-in primitives.
    pub fn init(&mut self)
        ensures
            final(self)@ == old(self)@.insert(macro_name(MacroView::Def), MacroView::Def),
    {
        self.set(def_name(), Macro::Def(primitives::Def));
    }

    pub fn new_and_init() -> (r: Self)
        ensures
            r@ == Map::<Seq<char>, MacroView>::empty().insert(macro_name(MacroView::Def), MacroView::Def),
    {
        let mut m = Self::new();
        m.init();
        m
    }

    /// Index of the first entry named `s`, if any.
    fn find(&self, s: &String) -> (r: Option<usize>)
        ensures
            match r {
                Some(i) => i < self.0@.len() && self.0@[i as int].0@ == s@
                    && forall|j: int| 0 <= j < i ==> self.0@[j].0@ != s@,
                None => forall|j: int| 0 <= j < self.0@.len() ==> self.0@[j].0@ != s@,
            },
    {
        let mut i: usize = 0;
        while i < self.0.len()
            invariant
                i <= self.0@.len(),
                forall|j: int| 0 <= j < i ==> self.0@[j].0@ != s@,
            decreases self.0@.len() - i,
        {
            if self.0[i].0 == *s {
                return Some(i);
            }
            i = i + 1;
        }
        None
    }

    pub fn get(&self, s: &String) -> (r: Option<&Macro>)
        ensures
            match r {
                Some(m) => self@.contains_key(s@) && m@ == self@[s@],
                None => !self@.contains_key(s@),
            },
    {
        let ghost e = macro_entries(self.0@);
        match self.find(s) {
            Some(i) => {
                proof {
                    assert forall|j: int| 0 <= j < i implies e[j].0 != s@ by {}
                    lemma_assoc_first(e, i as int, s@);
                }
                Some(&self.0[i].1)
            },
            None => {
                proof {
                    assert forall|j: int| 0 <= j < e.len() implies e[j].0 != s@ by {}
                    lemma_assoc_absent(e, s@);
                }
                None
            },
        }
    }

    pub fn contains(&self, s: String) -> (r: bool)
        ensures
            r == self@.contains_key(s@),
    {
        self.get(&s).is_some()
    }

    pub fn set(&mut self, s: String, mcro: Macro)
        ensures
            final(self)@ == old(self)@.insert(s@, mcro@),
    {
        let ghost e = macro_entries(self.0@);
        let ghost k = s@;
        let ghost v = mcro@;
        match self.find(&s) {
            Some(i) => {
                proof {
                    assert forall|j: int| 0 <= j < i implies e[j].0 != k by {}
                    lemma_assoc_map_update(e, i as int, k, v);
                }
                self.0.set(i, (s, mcro));
                assert(macro_entries(self.0@) =~= e.update(i as int, (k, v)));
            },
            None => {
                proof {
                    assert forall|j: int| 0 <= j < e.len() implies e[j].0 != k by {}
                    lemma_assoc_map_push(e, k, v);
                }
                self.0.push((s, mcro));
                assert(macro_entries(self.0@) =~= e.push((k, v)));
            },
        }
    }
}

} // verus!
