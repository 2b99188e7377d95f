//! The engine: a stack of input files, the scope stack, and the loop that
//! reads tokens and executes them.
use vstd::prelude::*;
use crate::errors::{Error, ErrorKind};
use crate::group::{category_in, empty_frame, macro_in, with_macro, FrameView, TexGroupState};
use crate::macros::{definition_shape, parameter_text, replacement_body, Macro, MacroView, UserDefinedMacroView};
use crate::macros::primitives::{def_phase, definition_complete, definition_stops};
use crate::macros::pattern_matcher::{expansion, first_binding};
use crate::parser::lexer::{CharacterCategory, TexFile};
use crate::parser::parser::{tokens_view, Token, TokenView};
use crate::text::push_char;

verus! {

/// What the files still hold, counting one for each file besides its
/// characters; it bounds how much can still be read.
pub open spec fn files_measure(fs: Seq<TexFile>) -> nat
    decreases fs.len(),
{
    if fs.len() == 0 {
        0
    } else {
        files_measure(fs.drop_last()) + fs.last()@.len() + 1
    }
}

/// Adds `k` to the count of characters that a tokenizing result consumed.
pub open spec fn shift(r: Result<(TokenView, nat), ErrorKind>, k: nat) -> Result<(TokenView, nat), ErrorKind> {
    match r {
        Ok((t, n)) => Ok((t, n + k)),
        Err(e) => Err(e),
    }
}

/// Length of the run of letters (under the categories of `fs`) that starts `t`.
pub open spec fn letter_run(t: Seq<char>, fs: Seq<FrameView>) -> nat
    decreases t.len(),
{
    if t.len() > 0 && category_in(fs, t[0]) == CharacterCategory::Letter {
        1 + letter_run(t.drop_first(), fs)
    } else {
        0
    }
}

/// A decimal digit `0`..`9`.
pub open spec fn is_digit(c: char) -> bool {
    0x30 <= c as u32 <= 0x39
}

/// Length of the run of decimal digits that starts `t`.
pub open spec fn digit_run(t: Seq<char>) -> nat
    decreases t.len(),
{
    if t.len() > 0 && is_digit(t[0]) {
        1 + digit_run(t.drop_first())
    } else {
        0
    }
}

/// The number that a string of decimal digits denotes.
pub open spec fn digits_value(d: Seq<char>) -> nat
    decreases d.len(),
{
    if d.len() == 0 {
        0
    } else {
        digits_value(d.drop_last()) * 10 + ((d.last() as u32) - 0x30) as nat
    }
}

/// The control sequence that follows an escape character, with the number
/// of characters after the escape that it takes: the escape is followed by
/// a maximal run of letters, and one space after them is absorbed, or by a
/// single other character.
pub open spec fn lex_control(t: Seq<char>, fs: Seq<FrameView>) -> Result<(TokenView, nat), ErrorKind> {
    if t.len() == 0 {
        Err(ErrorKind::EndOfFile)
    } else if category_in(fs, t[0]) == CharacterCategory::Letter {
        let n = letter_run(t, fs);
        let space: nat = if n < t.len() && category_in(fs, t[n as int]) == CharacterCategory::Space {
            1
        } else {
            0
        };
        Ok((TokenView::ControlSequence(seq!['\\'] + t.take(n as int)), n + space))
    } else {
        Ok((TokenView::ControlSequence(seq!['\\', t[0]]), 1))
    }
}

/// The parameter token for parameter character `c` followed by `t`: the
/// digits that follow give its number, which must fit in a byte.
pub open spec fn lex_parameter(c: char, t: Seq<char>) -> Result<(TokenView, nat), ErrorKind> {
    let m = digit_run(t);
    let v = digits_value(t.take(m as int));
    if m == 0 || v > 255 {
        Err(ErrorKind::ParseError)
    } else {
        Ok((TokenView::Parameter(c, v as u8), m))
    }
}

/// The next token of `s` under the categories of `fs`, and how many
/// characters of `s` it takes.
pub open spec fn lex(s: Seq<char>, fs: Seq<FrameView>) -> Result<(TokenView, nat), ErrorKind>
    decreases s.len(), 1nat,
{
    if s.len() == 0 {
        Err(ErrorKind::EndOfFile)
    } else {
        let c = s[0];
        let t = s.drop_first();
        match category_in(fs, c) {
            CharacterCategory::Escape => shift(lex_control(t, fs), 1),
            CharacterCategory::Active => Ok((TokenView::ControlSequence(seq![c]), 1)),
            CharacterCategory::Parameter => shift(lex_parameter(c, t), 1),
            CharacterCategory::Comment => shift(lex_after_comment(t, fs), 1),
            k => Ok((TokenView::Character(c, k), 1)),
        }
    }
}

/// The next token after a comment character: the comment runs up to and
/// including the next end-of-line character.
pub open spec fn lex_after_comment(t: Seq<char>, fs: Seq<FrameView>) -> Result<(TokenView, nat), ErrorKind>
    decreases t.len(), 0nat,
{
    if t.len() == 0 {
        Err(ErrorKind::EndOfFile)
    } else if category_in(fs, t[0]) == CharacterCategory::EndOfLine {
        shift(lex(t.drop_first(), fs), 1)
    } else {
        shift(lex_after_comment(t.drop_first(), fs), 1)
    }
}

/// `new` is `old` after `\def` read the tokens `ts` and bound `u`: the first
/// token is the name, the pattern follows, then the replacement text; the
/// macro is bound in the scope that was current before.
pub open spec fn definition_read(new: TexState, old: TexState, u: UserDefinedMacroView, ts: Seq<TokenView>) -> bool {
    &&& definition_shape(u)
    &&& def_phase(ts) is Done
    &&& new.state@ == with_macro(old.state@, MacroView::UserDefined(u), old.state@.last().global_defs)
    &&& gives_elements(read_elements(old.pending(), old.input(), old.state@, ts.len()), ts, new.pending(), new.input())
    &&& ts.len() == 1 + u.parameters.len() + u.replacements.len()
    &&& ts[0] == TokenView::ControlSequence(u.name)
    &&& ts.subrange(1, 1 + u.parameters.len() as int) == tokens_view(u.parameters)
    &&& ts.subrange(1 + u.parameters.len() as int, ts.len() as int) == tokens_view(u.replacements)
}

/// `new` is `old` after `\def` ran with result `r`. It succeeds exactly when
/// the tokens that follow read as a complete definition; then the macro is
/// bound. Otherwise the scopes are as before and the error is that of the
/// read that failed, or `UnknownError` for a name that is not a control
/// sequence or a 256th parameter.
pub open spec fn def_effect(new: TexState, old: TexState, r: Result<(), Error>) -> bool {
    &&& new.expansions_left() == old.expansions_left()
    &&& new.passed() == old.passed()
    &&& new.measure() <= old.measure()
    &&& new.files@.len() == old.files@.len()
    &&& new.files@.drop_last() == old.files@.drop_last()
    &&& (r is Ok <==> exists|k: nat| #[trigger] definition_complete(old.pending(), old.input(), old.state@, k))
    &&& r is Ok ==> new.measure() < old.measure()
        && exists|u: UserDefinedMacroView, ts: Seq<TokenView>| #[trigger] definition_read(new, old, u, ts)
    &&& r is Err ==> new.state@ == old.state@
        && exists|k: nat| #[trigger] definition_stops(old.pending(), old.input(), old.state@, k, r->Err_0.kind)
}

/// Reading under frames with a group opened above them gives what it gives
/// under the frames alone.
pub proof fn lemma_next_element_pushed(p: Seq<Token>, i: Seq<char>, fs: Seq<FrameView>, g: bool)
    ensures
        next_element(p, i, fs.push(empty_frame(g))) == next_element(p, i, fs),
{
    assert forall|c: char| #[trigger] category_in(fs.push(empty_frame(g)), c) == category_in(fs, c) by {
        lemma_push_keeps_categories(fs, g, c);
    }
    lemma_lex_same_categories(i, fs.push(empty_frame(g)), fs);
}

/// `args` are the tokens that reading from `old` gives first, and the
/// shortest run of them that can be bound to `pattern`.
pub open spec fn arguments_bound(old: TexState, pattern: Seq<Token>, args: Seq<Token>) -> bool {
    let r = read_elements(old.pending(), old.input(), old.state@, args.len());
    &&& r is Ok
    &&& r->Ok_0.0 == tokens_view(args)
    &&& first_binding(pattern, args) is Some
    &&& forall|k: int| 0 <= k < args.len() ==> first_binding(pattern, #[trigger] args.take(k)) is None
}

/// Reading from `old` gives `args`, no run of them (all of them included)
/// can be bound to `pattern`, and the next read fails with `kind`.
pub open spec fn arguments_fail(old: TexState, pattern: Seq<Token>, args: Seq<Token>, kind: ErrorKind) -> bool {
    let r = read_elements(old.pending(), old.input(), old.state@, args.len());
    &&& r is Ok
    &&& r->Ok_0.0 == tokens_view(args)
    &&& forall|k: int| 0 <= k <= args.len() ==> first_binding(pattern, #[trigger] args.take(k)) is None
    &&& read_elements(old.pending(), old.input(), old.state@, args.len() + 1) is Err
    &&& read_elements(old.pending(), old.input(), old.state@, args.len() + 1)->Err_0 == kind
}

/// `new` is `old` after the arguments `args` of an invocation with pattern
/// `pattern` were read (`arguments_bound`); those after the part that the
/// binding covers are to be read again, the first of them next.
pub open spec fn arguments_read(new: TexState, old: TexState, pattern: Seq<Token>, args: Seq<Token>) -> bool {
    let r = read_elements(old.pending(), old.input(), old.state@, args.len());
    &&& arguments_bound(old, pattern, args)
    &&& new.input() == r->Ok_0.2
    &&& new.pending() == r->Ok_0.1 + args.skip(first_binding(pattern, args)->Some_0.1 as int).reverse()
    &&& new.files@.len() == old.files@.len()
    &&& new.files@.drop_last() == old.files@.drop_last()
}

/// `new` is `old` after user macro `u` was invoked: its arguments `args`
/// were read and bound to its parameter text, and the groups were
/// substituted into the body of its replacement text, which is then read
/// next.
pub open spec fn invocation_read(new: TexState, old: TexState, u: UserDefinedMacroView, args: Seq<Token>) -> bool {
    let r = read_elements(old.pending(), old.input(), old.state@, args.len());
    let b = first_binding(parameter_text(u.parameters), args);
    let e = expansion(replacement_body(u.replacements), b->Some_0.0);
    &&& arguments_bound(old, parameter_text(u.parameters), args)
    &&& e is Some
    &&& new.input() == r->Ok_0.2
    &&& new.pending() == r->Ok_0.1 + args.skip(b->Some_0.1 as int).reverse() + e->Some_0.reverse()
    &&& new.files@.len() == old.files@.len()
    &&& new.files@.drop_last() == old.files@.drop_last()
}

/// `new` is `old` after user macro `u` was invoked with result `r`. It
/// fails exactly when the input fails before its arguments can be bound
/// (with that read's error), or when they are bound but the replacement
/// names a parameter that does not exist or no expansion is left
/// (`UnknownError`). On success one expansion of those allowed is used.
pub open spec fn expansion_effect(new: TexState, old: TexState, u: UserDefinedMacroView, r: Result<(), Error>) -> bool {
    &&& new.state@ == old.state@
    &&& new.passed() == old.passed()
    &&& new.no_growth(old)
    &&& r is Ok ==> new.expansions_left() + 1 == old.expansions_left()
        && exists|args: Seq<Token>| #[trigger] invocation_read(new, old, u, args)
    &&& r is Err ==> (exists|args: Seq<Token>| #[trigger] arguments_fail(old, parameter_text(u.parameters), args, r->Err_0.kind))
        || (r->Err_0.kind == ErrorKind::UnknownError && exists|args: Seq<Token>|
            #[trigger] arguments_bound(old, parameter_text(u.parameters), args)
            && (expansion(
                replacement_body(u.replacements),
                first_binding(parameter_text(u.parameters), args)->Some_0.0,
            ) is None || old.expansions_left() == 0))
}

/// `new` is `old` after macro `m` ran.
pub open spec fn macro_effect(new: TexState, old: TexState, m: MacroView, r: Result<(), Error>) -> bool {
    match m {
        MacroView::Def => def_effect(new, old, r),
        MacroView::UserDefined(u) => expansion_effect(new, old, u, r),
    }
}

/// The next token that reading gives where `pending` holds tokens left by
/// expansions (the next one last) and `input` the characters still to be
/// read, under the categories of `fs`; with what is left after it.
pub open spec fn next_element(pending: Seq<Token>, input: Seq<char>, fs: Seq<FrameView>) -> Result<(TokenView, Seq<Token>, Seq<char>), ErrorKind> {
    if pending.len() > 0 {
        Ok((pending.last()@, pending.drop_last(), input))
    } else {
        match lex(input, fs) {
            Ok((t, n)) => Ok((t, pending, input.skip(n as int))),
            Err(e) => Err(e),
        }
    }
}

/// The first `k` tokens that reading gives, and what is left after them.
pub open spec fn read_elements(pending: Seq<Token>, input: Seq<char>, fs: Seq<FrameView>, k: nat) -> Result<(Seq<TokenView>, Seq<Token>, Seq<char>), ErrorKind>
    decreases k,
{
    if k == 0 {
        Ok((Seq::empty(), pending, input))
    } else {
        match read_elements(pending, input, fs, (k - 1) as nat) {
            Ok((ts, p, i)) => match next_element(p, i, fs) {
                Ok((t, p2, i2)) => Ok((ts.push(t), p2, i2)),
                Err(e) => Err(e),
            },
            Err(e) => Err(e),
        }
    }
}

/// `r` is a successful read of `t`, leaving `p` and `i`.
pub open spec fn gives_element(r: Result<(TokenView, Seq<Token>, Seq<char>), ErrorKind>, t: TokenView, p: Seq<Token>, i: Seq<char>) -> bool {
    r is Ok && r->Ok_0 == (t, p, i)
}

/// `r` is a successful read of `ts`, leaving `p` and `i`.
pub open spec fn gives_elements(r: Result<(Seq<TokenView>, Seq<Token>, Seq<char>), ErrorKind>, ts: Seq<TokenView>, p: Seq<Token>, i: Seq<char>) -> bool {
    r is Ok && r->Ok_0 == (ts, p, i)
}

/// Opening a group changes no category.
pub proof fn lemma_push_keeps_categories(fs: Seq<FrameView>, g: bool, c: char)
    ensures
        category_in(fs.push(empty_frame(g)), c) == category_in(fs, c),
{
    assert(fs.push(empty_frame(g)).drop_last() =~= fs);
}

proof fn lemma_letter_run_same(t: Seq<char>, fs1: Seq<FrameView>, fs2: Seq<FrameView>)
    requires
        forall|c: char| #[trigger] category_in(fs1, c) == category_in(fs2, c),
    ensures
        letter_run(t, fs1) == letter_run(t, fs2),
    decreases t.len(),
{
    if t.len() > 0 {
        lemma_letter_run_same(t.drop_first(), fs1, fs2);
    }
}

/// Tokenizing depends on the frames only through the categories they give.
pub proof fn lemma_lex_same_categories(s: Seq<char>, fs1: Seq<FrameView>, fs2: Seq<FrameView>)
    requires
        forall|c: char| #[trigger] category_in(fs1, c) == category_in(fs2, c),
    ensures
        lex(s, fs1) == lex(s, fs2),
    decreases s.len(), 1nat,
{
    if s.len() > 0 {
        let t = s.drop_first();
        lemma_letter_run_same(t, fs1, fs2);
        lemma_lex_after_comment_same(t, fs1, fs2);
    }
}

proof fn lemma_lex_after_comment_same(t: Seq<char>, fs1: Seq<FrameView>, fs2: Seq<FrameView>)
    requires
        forall|c: char| #[trigger] category_in(fs1, c) == category_in(fs2, c),
    ensures
        lex_after_comment(t, fs1) == lex_after_comment(t, fs2),
    decreases t.len(), 0nat,
{
    if t.len() > 0 {
        lemma_lex_same_categories(t.drop_first(), fs1, fs2);
        lemma_lex_after_comment_same(t.drop_first(), fs1, fs2);
    }
}

/// An escape followed by a character that is not a letter makes a control
/// sequence of that one character: one character after the escape is
/// taken, whatever follows it, letters included.
pub proof fn lemma_control_symbol(c: char, rest: Seq<char>, fs: Seq<FrameView>)
    requires
        category_in(fs, c) != CharacterCategory::Letter,
    ensures
        lex_control(seq![c] + rest, fs) == Ok::<(TokenView, nat), ErrorKind>((TokenView::ControlSequence(seq!['\\', c]), 1)),
{
    assert((seq![c] + rest)[0] == c);
}

/// `new` is `old` after token `t` was executed with result `r`: a control
/// sequence runs the macro bound to its name, a begin-group or end-group
/// character opens or closes a group, any other character is passed
/// through, and a parameter token is an error.
pub open spec fn executed(new: TexState, old: TexState, t: TokenView, r: Result<(), Error>) -> bool {
    match t {
        TokenView::ControlSequence(name) => match macro_in(old.state@, name) {
            None => r is Err && r->Err_0.kind == ErrorKind::UnknownMacroError && new == old,
            Some(m) => macro_effect(new, old, m, r),
        },
        TokenView::Character(_, CharacterCategory::BeginGroup) => r is Ok
            && new.state@ == old.state@.push(empty_frame(old.state@.last().global_defs))
            && new.files@ == old.files@ && new.pending() == old.pending()
            && new.expansions_left() == old.expansions_left()
            && new.passed() == old.passed(),
        TokenView::Character(_, CharacterCategory::EndGroup) => (r is Ok <==> old.state@.len() > 1)
            && (r is Ok ==> new.state@ == old.state@.drop_last())
            && (r is Err ==> r->Err_0.kind == ErrorKind::UnknownError && new.state@ == old.state@)
            && new.files@ == old.files@ && new.pending() == old.pending()
            && new.expansions_left() == old.expansions_left()
            && new.passed() == old.passed(),
        TokenView::Character(c, k) => r is Ok && new.passed() == old.passed().push((c, k))
            && new.state@ == old.state@
            && new.files@ == old.files@ && new.pending() == old.pending()
            && new.expansions_left() == old.expansions_left(),
        TokenView::Parameter(_, _) => r is Err && r->Err_0.kind == ErrorKind::UnknownError
            && new == old,
    }
}

/// `new` is `old` after one step of the run: `t` was read, leaving `mid`,
/// and then executed with result `r`.
pub open spec fn stepped(new: TexState, old: TexState, mid: TexState, t: TokenView, r: Result<(), Error>) -> bool {
    &&& gives_element(next_element(old.pending(), old.input(), old.state@), t, mid.pending(), mid.input())
    &&& mid.files@.len() == old.files@.len()
    &&& mid.files@.drop_last() == old.files@.drop_last()
    &&& mid.state@ == old.state@
    &&& mid.expansions_left() == old.expansions_left()
    &&& mid.passed() == old.passed()
    &&& executed(new, mid, t, r)
}

/// One step of the run from `old`, giving `new` with result `r`: the next
/// token is read and executed, or reading it fails.
pub open spec fn run_step(new: TexState, old: TexState, r: Result<(), Error>) -> bool {
    match next_element(old.pending(), old.input(), old.state@) {
        Err(kind) => r is Err && r->Err_0.kind == kind && new.read_from(old),
        Ok(_) => exists|mid: TexState, t: TokenView| #[trigger] stepped(new, old, mid, t, r),
    }
}

/// `new` is `old` after a step that ended the current file (`mid`, with
/// error `e` of kind `EndOfFile`) and the closing of that file.
pub open spec fn file_closed(new: TexState, old: TexState, mid: TexState, e: Error) -> bool {
    &&& run_step(mid, old, Err(e))
    &&& e.kind == ErrorKind::EndOfFile
    &&& mid.files@.len() > 0
    &&& new.files@ == mid.files@.drop_last()
    &&& new.state@ == mid.state@
    &&& new.pending() == mid.pending()
    &&& new.expansions_left() == mid.expansions_left()
    &&& new.passed() == mid.passed()
}

/// The run goes from `a` to `b`: by a step that succeeds, or by one that
/// ends a file which is then closed.
pub open spec fn run_link(a: TexState, b: TexState) -> bool {
    ||| run_step(b, a, Ok(()))
    ||| exists|mid: TexState, e: Error| #[trigger] file_closed(b, a, mid, e)
}

/// The run from `old` passes through the states `tr` and ends in `new`
/// with a step that fails with `e`.
pub open spec fn run_outcome(new: TexState, old: TexState, tr: Seq<TexState>, e: Error) -> bool {
    &&& tr.len() >= 1
    &&& tr[0] == old
    &&& forall|i: int| 0 <= i < tr.len() - 1 ==> #[trigger] run_link(tr[i], tr[i + 1])
    &&& run_step(new, tr.last(), Err(e))
}

/// Reading an escape character followed by a character that is not a
/// letter gives the control sequence of that one character and takes
/// exactly these two characters, letters after them included or not.
pub proof fn lemma_control_symbol_read(s: Seq<char>, fs: Seq<FrameView>)
    requires
        s.len() >= 2,
        category_in(fs, s[0]) == CharacterCategory::Escape,
        category_in(fs, s[1]) != CharacterCategory::Letter,
    ensures
        lex(s, fs) == Ok::<(TokenView, nat), ErrorKind>((TokenView::ControlSequence(seq!['\\', s[1]]), 2)),
{
    assert(seq![s[1]] + s.skip(2) =~= s.drop_first());
    lemma_control_symbol(s[1], s.skip(2), fs);
}

/// The engine's whole state.
pub struct TexState {
    /// Open input files; the last is read from.
    pub files: Vec<TexFile>,
    /// The scope stack.
    pub state: TexGroupState,
    /// Tokens that an expansion left to be read next; the last is next.
    pub pending: Vec<Token>,
    /// How many more macro expansions may take place.
    pub expansions_left: u64,
    /// Characters passed through, in order.
    pub output: Vec<(char, CharacterCategory)>,
}

/// The number of macro expansions that a fresh engine allows.
pub const EXPANSION_LIMIT: u64 = 1_000_000_000;

impl TexState {
    /// Tokens left by expansions, the next one last.
    pub open spec fn pending(&self) -> Seq<Token> {
        self.pending@
    }

    pub open spec fn expansions_left(&self) -> nat {
        self.expansions_left as nat
    }

    /// Characters passed through so far.
    pub open spec fn passed(&self) -> Seq<(char, CharacterCategory)> {
        self.output@
    }

    /// Bound on what can still be read.
    pub open spec fn measure(&self) -> nat {
        self.pending().len() + files_measure(self.files@)
    }

    /// The characters still to be read from the current file.
    pub open spec fn input(&self) -> Seq<char> {
        if self.files@.len() > 0 {
            self.files@.last()@
        } else {
            Seq::empty()
        }
    }

    /// `self` is `old` with `n` characters of the current file read.
    pub open spec fn read_on(self, old: TexState, n: nat) -> bool {
        &&& n <= old.input().len()
        &&& self.files@.len() == old.files@.len()
        &&& self.files@.drop_last() == old.files@.drop_last()
        &&& self.input() == old.input().skip(n as int)
        &&& self.state@ == old.state@
        &&& self.pending() == old.pending()
        &&& self.expansions_left() == old.expansions_left()
        &&& self.passed() == old.passed()
    }

    /// `self` is `old` with some characters of the current file read.
    pub open spec fn read_from(self, old: TexState) -> bool {
        &&& self.files@.len() == old.files@.len()
        &&& self.files@.drop_last() == old.files@.drop_last()
        &&& self.input().len() <= old.input().len()
        &&& self.state@ == old.state@
        &&& self.pending() == old.pending()
        &&& self.expansions_left() == old.expansions_left()
        &&& self.passed() == old.passed()
    }

    proof fn lemma_read_from_measure(self, old: TexState)
        requires
            self.read_from(old),
        ensures
            self.measure() <= old.measure(),
    {
        if old.files@.len() > 0 {
            assert(self.files@.drop_last() == old.files@.drop_last());
        }
    }

    /// Neither more expansions allowed nor, with as many allowed, more left
    /// to read than in `old`.
    pub open spec fn no_growth(self, old: TexState) -> bool {
        ||| self.expansions_left() < old.expansions_left()
        ||| (self.expansions_left() == old.expansions_left() && self.measure() <= old.measure())
    }

    /// Fewer expansions allowed than in `old`, or as many and less left to
    /// read.
    pub open spec fn progress(self, old: TexState) -> bool {
        ||| self.expansions_left() < old.expansions_left()
        ||| (self.expansions_left() == old.expansions_left() && self.measure() < old.measure())
    }

    proof fn lemma_read_on_trans(c: TexState, b: TexState, a: TexState, n: nat, m: nat)
        requires
            b.read_on(a, n),
            c.read_on(b, m),
        ensures
            c.read_on(a, n + m),
    {
        assert(c.input() =~= a.input().skip((n + m) as int));
    }

    proof fn lemma_read_from_trans(c: TexState, b: TexState, a: TexState, n: nat)
        requires
            b.read_on(a, n),
            c.read_from(b),
        ensures
            c.read_from(a),
    {
    }

    proof fn lemma_read_on_measure(self, old: TexState, n: nat)
        requires
            self.read_on(old, n),
        ensures
            self.measure() + n == old.measure(),
    {
        if old.files@.len() > 0 {
            assert(self.files@.drop_last() == old.files@.drop_last());
        }
    }

    pub fn new() -> (r: Self)
        ensures
            r.files@.len() == 0,
            r.state@ == seq![crate::group::initial_frame()],
            r.pending().len() == 0,
            r.expansions_left() == EXPANSION_LIMIT,
            r.passed().len() == 0,
    {
        TexState {
            files: Vec::new(),
            state: TexGroupState::initial(),
            pending: Vec::new(),
            expansions_left: EXPANSION_LIMIT,
            output: Vec::new(),
        }
    }

    /// Opens a file above the current one; reading continues in it.
    pub fn add_file(&mut self, file: TexFile)
        ensures
            final(self).files@ == old(self).files@.push(file),
            final(self).state@ == old(self).state@,
            final(self).pending() == old(self).pending(),
            final(self).expansions_left() == old(self).expansions_left(),
            final(self).passed() == old(self).passed(),
    {
        self.files.push(file);
    }

    /// Characters passed through so far, in order.
    pub fn output(&self) -> (r: &Vec<(char, CharacterCategory)>)
        ensures
            r@ == self.passed(),
    {
        &self.output
    }

    /// Moves one character on in the current file, if there is one left.
    pub fn advance(&mut self)
        ensures
            final(self).read_on(*old(self), if old(self).input().len() > 0 { 1nat } else { 0nat }),
    {
        match self.files.pop() {
            Some(mut f) => {
                let _ = f.advance(1);
                self.files.push(f);
                assert(self.files@.drop_last() =~= old(self).files@.drop_last());
            },
            None => {},
        }
        assert(self.input() =~= old(self).input().skip(if old(self).input().len() > 0 { 1int } else { 0int }));
    }

    /// Moves `n` characters on in the current file, or to its end.
    pub fn advance_by(&mut self, n: usize)
        ensures
            final(self).read_on(*old(self), if n <= old(self).input().len() { n as nat } else { old(self).input().len() }),
    {
        let mut i: usize = 0;
        assert(self.input() =~= old(self).input().skip(0));
        while i < n
            invariant
                i <= n,
                self.read_on(*old(self), if i <= old(self).input().len() { i as nat } else { old(self).input().len() }),
            decreases n - i,
        {
            self.advance();
            i = i + 1;
            assert(self.input() =~= old(self).input().skip(
                if i <= old(self).input().len() { i as int } else { old(self).input().len() as int },
            ));
        }
    }

    /// Reads the next character of the current file.
    pub fn read_character(&mut self) -> (r: Option<char>)
        ensures
            old(self).input().len() > 0 ==> r == Some(old(self).input()[0]) && final(self).read_on(*old(self), 1),
            old(self).input().len() == 0 ==> r is None && final(self).read_on(*old(self), 0),
    {
        let c = self.read_ahead_character(0);
        self.advance();
        c
    }

    /// The character `n` places ahead in the current file, without reading it.
    pub fn read_ahead_character(&self, n: usize) -> (r: Option<char>)
        ensures
            r == (if n < self.input().len() { Some(self.input()[n as int]) } else { None }),
            self.input().len() <= usize::MAX,
    {
        let k = self.files.len();
        if k > 0 {
            proof {
                self.files@.last().lemma_len_fits();
            }
        }
        if k == 0 {
            None
        } else {
            self.files[k - 1].get_current_char(n)
        }
    }

    /// The character `n` places ahead and its category, without reading it.
    fn get_char_and_category(&self, n: usize) -> (r: Option<(char, CharacterCategory)>)
        ensures
            r == (if n < self.input().len() {
                Some((self.input()[n as int], category_in(self.state@, self.input()[n as int])))
            } else {
                None
            }),
            self.input().len() <= usize::MAX,
    {
        match self.read_ahead_character(n) {
            Some(c) => Some((c, self.get_category(c))),
            None => None,
        }
    }

    fn get_category(&self, c: char) -> (r: CharacterCategory)
        ensures
            r == category_in(self.state@, c),
    {
        self.state.get_category(c)
    }

    /// Opens a group: a new innermost frame.
    pub fn push_group(&mut self)
        ensures
            final(self).state@ == old(self).state@.push(empty_frame(old(self).state@.last().global_defs)),
            final(self).files@ == old(self).files@,
            final(self).pending() == old(self).pending(),
            final(self).expansions_left() == old(self).expansions_left(),
            final(self).passed() == old(self).passed(),
    {
        self.state.push_frame();
    }

    /// Closes the innermost group; fails with `UnknownError` where only the
    /// outermost frame is open.
    pub fn pop_group(&mut self) -> (r: Result<(), Error>)
        ensures
            old(self).state@.len() > 1 ==> r is Ok && final(self).state@ == old(self).state@.drop_last(),
            old(self).state@.len() == 1 ==> r is Err && r->Err_0.kind == ErrorKind::UnknownError
                && final(self).state@ == old(self).state@,
            final(self).files@ == old(self).files@,
            final(self).pending() == old(self).pending(),
            final(self).expansions_left() == old(self).expansions_left(),
            final(self).passed() == old(self).passed(),
    {
        proof {
            self.state.lemma_nonempty();
        }
        if self.state.pop_frame() {
            Ok(())
        } else {
            Err(Error::new(ErrorKind::UnknownError, "No states left to pop".to_string()))
        }
    }

    /// Binds a macro under its name in the current scope.
    pub fn define(&mut self, d: Macro)
        ensures
            final(self).state@ == with_macro(old(self).state@, d@, old(self).state@.last().global_defs),
            final(self).files@ == old(self).files@,
            final(self).pending() == old(self).pending(),
            final(self).expansions_left() == old(self).expansions_left(),
            final(self).passed() == old(self).passed(),
    {
        self.state.set_macro(d);
    }

    /// Scans the control sequence that follows an escape character.
    fn get_control(&mut self) -> (r: Result<Token, Error>)
        ensures
            match r {
                Ok(t) => lex_control(old(self).input(), old(self).state@) is Ok
                    && lex_control(old(self).input(), old(self).state@)->Ok_0.0 == t@
                    && final(self).read_on(*old(self), lex_control(old(self).input(), old(self).state@)->Ok_0.1),
                Err(e) => lex_control(old(self).input(), old(self).state@) is Err
                    && lex_control(old(self).input(), old(self).state@)->Err_0 == e.kind
                    && final(self).read_from(*old(self)),
            },
    {
        let ghost s0 = self.input();
        let ghost fs = self.state@;
        let c = match self.read_character() {
            Some(c) => c,
            None => {
                return Err(Error::eof());
            },
        };
        let cat = self.get_category(c);
        let mut name = String::new();
        push_char(&mut name, '\\');
        push_char(&mut name, c);
        if cat == CharacterCategory::Letter {
            let mut n: usize = 0;
            assert(s0.skip(1) =~= s0.drop_first());
            loop
                invariant
                    self.read_on(*old(self), 1),
                    fs == self.state@,
                    s0 == old(self).input(),
                    n < s0.len(),
                    name@ == seq!['\\'] + s0.take(n + 1),
                    letter_run(s0, fs) == n + 1 + letter_run(s0.skip(n + 1), fs),
                ensures
                    self.read_on(*old(self), 1),
                    fs == self.state@,
                    n < s0.len(),
                    name@ == seq!['\\'] + s0.take(n + 1),
                    letter_run(s0, fs) == n + 1,
                decreases s0.len() - n,
            {
                match self.get_char_and_category(n) {
                    Some((d, k)) => {
                        assert(s0.skip(n + 1).drop_first() =~= s0.skip(n + 2));
                        if k == CharacterCategory::Letter {
                            push_char(&mut name, d);
                            n = n + 1;
                            assert(name@ =~= seq!['\\'] + s0.take(n + 1));
                        } else {
                            assert(letter_run(s0.skip(n + 1), fs) == 0);
                            break;
                        }
                    },
                    None => {
                        assert(letter_run(s0.skip(n + 1), fs) == 0);
                        break;
                    },
                }
            }
            self.advance_by(n);
            match self.get_char_and_category(0) {
                Some((_, CharacterCategory::Space)) => {
                    self.advance();
                },
                _ => {},
            }
            assert(self.input() =~= s0.skip(lex_control(s0, fs)->Ok_0.1 as int));
        } else {
            assert(name@ =~= seq!['\\', c]);
        }
        Ok(Token::ControlSequence(name))
    }


    /// Scans the number of a parameter token whose parameter character `c`
    /// has just been read.
    fn get_parameter(&mut self, c: char) -> (r: Result<Token, Error>)
        ensures
            match r {
                Ok(t) => lex_parameter(c, old(self).input()) is Ok
                    && lex_parameter(c, old(self).input())->Ok_0.0 == t@
                    && final(self).read_on(*old(self), lex_parameter(c, old(self).input())->Ok_0.1),
                Err(e) => lex_parameter(c, old(self).input()) is Err
                    && lex_parameter(c, old(self).input())->Err_0 == e.kind
                    && final(self).read_from(*old(self)),
            },
    {
        let ghost s0 = self.input();
        let mut m: usize = 0;
        let mut v: u32 = 0;
        assert(s0.take(0) =~= Seq::<char>::empty());
        assert(s0.skip(0) =~= s0);
        loop
            invariant
                s0 == self.input(),
                *self == *old(self),
                m <= s0.len(),
                v as nat == if digits_value(s0.take(m as int)) > 255 { 256 } else { digits_value(s0.take(m as int)) },
                digit_run(s0) == m + digit_run(s0.skip(m as int)),
            ensures
                m <= s0.len(),
                *self == *old(self),
                v as nat == if digits_value(s0.take(m as int)) > 255 { 256 } else { digits_value(s0.take(m as int)) },
                digit_run(s0) == m,
            decreases s0.len() - m,
        {
            match self.read_ahead_character(m) {
                Some(d) => {
                    if (d as u32) >= 48 && (d as u32) <= 57 {
                        assert(s0.skip(m as int).drop_first() =~= s0.skip(m + 1));
                        assert(s0.take(m + 1).drop_last() =~= s0.take(m as int));
                        let dv: u32 = (d as u32) - 48;
                        if v > 255 {
                            v = 256;
                        } else {
                            let w: u32 = v * 10 + dv;
                            v = if w > 255 { 256 } else { w };
                        }
                        m = m + 1;
                    } else {
                        assert(digit_run(s0.skip(m as int)) == 0);
                        break;
                    }
                },
                None => {
                    assert(digit_run(s0.skip(m as int)) == 0);
                    break;
                },
            }
        }
        self.advance_by(m);
        if m == 0 || v > 255 {
            Err(Error::new(ErrorKind::ParseError, "Invalid parameter number".to_string()))
        } else {
            Ok(Token::Parameter(c, v as u8))
        }
    }

    /// Skips the rest of a comment, up to and including the next
    /// end-of-line character.
    fn skip_comment(&mut self) -> (r: Result<(), Error>)
        ensures
            match r {
                Ok(_) => final(self).read_on(*old(self), (old(self).input().len() - final(self).input().len()) as nat)
                    && lex_after_comment(old(self).input(), old(self).state@)
                        == shift(lex(final(self).input(), old(self).state@), (old(self).input().len() - final(self).input().len()) as nat),
                Err(e) => e.kind == ErrorKind::EndOfFile && final(self).read_from(*old(self))
                    && lex_after_comment(old(self).input(), old(self).state@) == Err::<(TokenView, nat), ErrorKind>(ErrorKind::EndOfFile),
            },
    {
        let ghost s0 = self.input();
        let ghost fs = self.state@;
        assert(s0.skip(0) =~= s0);
        loop
            invariant
                self.read_on(*old(self), (s0.len() - self.input().len()) as nat),
                s0 == old(self).input(),
                fs == old(self).state@,
                self.input().len() <= s0.len(),
                lex_after_comment(s0, fs) == shift(lex_after_comment(self.input(), fs), (s0.len() - self.input().len()) as nat),
            decreases self.input().len(),
        {
            let ghost before = *self;
            match self.read_character() {
                Some(e) => {
                    proof {
                        TexState::lemma_read_on_trans(*self, before, *old(self), (s0.len() - before.input().len()) as nat, 1);
                    }
                    if self.get_category(e) == CharacterCategory::EndOfLine {
                        return Ok(());
                    }
                },
                None => {
                    return Err(Error::eof());
                },
            }
        }
    }

    /// The next token: one that an expansion left if there is any, else the
    /// next one tokenized from the current file under the current
    /// categories. Comments are skipped.
    pub fn get_element(&mut self) -> (r: Result<Token, Error>)
        ensures
            old(self).pending().len() > 0 ==> r is Ok && r->Ok_0 == old(self).pending().last()
                && final(self).pending() == old(self).pending().drop_last()
                && final(self).files@ == old(self).files@
                && final(self).state@ == old(self).state@
                && final(self).expansions_left() == old(self).expansions_left()
                && final(self).passed() == old(self).passed(),
            old(self).pending().len() == 0 ==> match r {
                Ok(t) => lex(old(self).input(), old(self).state@) is Ok
                    && lex(old(self).input(), old(self).state@)->Ok_0.0 == t@
                    && final(self).read_on(*old(self), lex(old(self).input(), old(self).state@)->Ok_0.1),
                Err(e) => lex(old(self).input(), old(self).state@) is Err
                    && lex(old(self).input(), old(self).state@)->Err_0 == e.kind
                    && final(self).read_from(*old(self)),
            },
            r is Err ==> next_element(old(self).pending(), old(self).input(), old(self).state@) is Err
                && next_element(old(self).pending(), old(self).input(), old(self).state@)->Err_0 == r->Err_0.kind,
            r is Ok ==> gives_element(
                next_element(old(self).pending(), old(self).input(), old(self).state@),
                r->Ok_0@,
                final(self).pending(),
                final(self).input(),
            ),
            final(self).files@.len() == old(self).files@.len(),
            final(self).files@.drop_last() == old(self).files@.drop_last(),
            final(self).state@ == old(self).state@,
            final(self).expansions_left() == old(self).expansions_left(),
            final(self).passed() == old(self).passed(),
            final(self).measure() <= old(self).measure(),
            r is Ok ==> final(self).measure() < old(self).measure(),
    {
        match self.pending.pop() {
            Some(t) => {
                return Ok(t);
            },
            None => {},
        }
        let ghost s0 = self.input();
        let ghost fs = self.state@;
        assert(s0.skip(0) =~= s0);
        loop
            invariant
                self.pending@.len() == 0,
                self.read_on(*old(self), (s0.len() - self.input().len()) as nat),
                s0 == old(self).input(),
                fs == old(self).state@,
                self.input().len() <= s0.len(),
                lex(s0, fs) == shift(lex(self.input(), fs), (s0.len() - self.input().len()) as nat),
            decreases self.input().len(),
        {
            let ghost before = *self;
            let ghost k = (s0.len() - before.input().len()) as nat;
            let c = match self.read_character() {
                Some(c) => c,
                None => {
                    proof {
                        TexState::lemma_read_from_trans(*self, before, *old(self), k);
                        self.lemma_read_from_measure(*old(self));
                    }
                    return Err(Error::eof());
                },
            };
            let ghost after = *self;
            proof {
                TexState::lemma_read_on_trans(*self, before, *old(self), k, 1);
            }
            let cat = self.get_category(c);
            match cat {
                CharacterCategory::Escape => {
                    let r = self.get_control();
                    proof {
                        match r {
                            Ok(_) => {
                                TexState::lemma_read_on_trans(*self, after, *old(self), k + 1, lex_control(after.input(), fs)->Ok_0.1);
                                self.lemma_read_on_measure(*old(self), k + 1 + lex_control(after.input(), fs)->Ok_0.1);
                            },
                            Err(_) => {
                                TexState::lemma_read_from_trans(*self, after, *old(self), k + 1);
                                self.lemma_read_from_measure(*old(self));
                            },
                        }
                    }
                    return r;
                },
                CharacterCategory::Active => {
                    let mut name = String::new();
                    push_char(&mut name, c);
                    assert(name@ =~= seq![c]);
                    proof {
                        self.lemma_read_on_measure(*old(self), k + 1);
                    }
                    return Ok(Token::ControlSequence(name));
                },
                CharacterCategory::Parameter => {
                    let r = self.get_parameter(c);
                    proof {
                        match r {
                            Ok(_) => {
                                TexState::lemma_read_on_trans(*self, after, *old(self), k + 1, lex_parameter(c, after.input())->Ok_0.1);
                                self.lemma_read_on_measure(*old(self), k + 1 + lex_parameter(c, after.input())->Ok_0.1);
                            },
                            Err(_) => {
                                TexState::lemma_read_from_trans(*self, after, *old(self), k + 1);
                                self.lemma_read_from_measure(*old(self));
                            },
                        }
                    }
                    return r;
                },
                CharacterCategory::Comment => {
                    match self.skip_comment() {
                        Ok(_) => {
                            proof {
                                TexState::lemma_read_on_trans(*self, after, *old(self), k + 1,
                                    (after.input().len() - self.input().len()) as nat);
                            }
                        },
                        Err(e) => {
                            proof {
                                TexState::lemma_read_from_trans(*self, after, *old(self), k + 1);
                                self.lemma_read_from_measure(*old(self));
                            }
                            return Err(e);
                        },
                    }
                },
                _ => {
                    proof {
                        self.lemma_read_on_measure(*old(self), k + 1);
                    }
                    return Ok(Token::Character(c, cat));
                },
            }
        }
    }


    /// Executes one token: a control sequence runs the macro bound to its
    /// name, a begin-group or end-group character opens or closes a group,
    /// any other character is passed through, and a parameter token is an
    /// error here.
    pub fn execute_token(&mut self, token: Token) -> (r: Result<(), Error>)
        ensures
            final(self).no_growth(*old(self)),
            executed(*final(self), *old(self), token@, r),
    {
        match token {
            Token::ControlSequence(s) => {
                let m = match self.state.get_macro(&s) {
                    Some(m) => m.clone(),
                    None => {
                        return Err(Error::new(ErrorKind::UnknownMacroError, s));
                    },
                };
                m.run(self)
            },
            Token::Character(_, CharacterCategory::BeginGroup) => {
                self.push_group();
                Ok(())
            },
            Token::Character(_, CharacterCategory::EndGroup) => {
                proof {
                    self.state.lemma_nonempty();
                }
                self.pop_group()
            },
            Token::Character(c, k) => {
                self.output.push((c, k));
                Ok(())
            },
            Token::Parameter(_, _) => Err(Error::new(ErrorKind::UnknownError, "Parameter in text".to_string())),
        }
    }

    /// Reads one token and executes it.
    pub fn parse_and_execute_one(&mut self) -> (r: Result<(), Error>)
        ensures
            final(self).no_growth(*old(self)),
            r is Ok ==> final(self).progress(*old(self)),
            next_element(old(self).pending(), old(self).input(), old(self).state@) is Err ==> r is Err
                && r->Err_0.kind == next_element(old(self).pending(), old(self).input(), old(self).state@)->Err_0,
            next_element(old(self).pending(), old(self).input(), old(self).state@) is Ok ==> exists|mid: TexState, t: TokenView|
                #[trigger] stepped(*final(self), *old(self), mid, t, r),
            run_step(*final(self), *old(self), r),
    {
        let token = match self.get_element() {
            Ok(t) => t,
            Err(e) => {
                return Err(e);
            },
        };
        let ghost mid = *self;
        let ghost t = token@;
        let r = self.execute_token(token);
        assert(stepped(*self, *old(self), mid, t, r));
        r
    }

    /// `e`, with the current file and position as its location where it has
    /// none.
    fn locate(&self, e: Error) -> (r: Error)
        ensures
            r.kind == e.kind,
            r.message == e.message,
    {
        if e.location.is_some() {
            return e;
        }
        let k = self.files.len();
        if k == 0 {
            return e;
        }
        let (line, col) = self.files[k - 1].get_text_position();
        Error::new_with_location(Some((self.files[k - 1].file_name(), line, col)), e.kind, e.message)
    }

    /// Runs until the input is used up: reads and executes tokens, and when
    /// the current file ends, goes on with the one below it. Stops at the
    /// first error other than the end of a file, which then carries the
    /// position in the current file where it has no location of its own.
    pub fn parse_and_execute(&mut self) -> (r: Result<(), Error>)
        ensures
            r is Ok ==> final(self).files@.len() == 0,
            r is Err ==> r->Err_0.kind != ErrorKind::EndOfFile,
            exists|tr: Seq<TexState>, e: Error| #[trigger] run_outcome(*final(self), *old(self), tr, e)
                && (r is Ok ==> e.kind == ErrorKind::EndOfFile)
                && (r is Err ==> e.kind == r->Err_0.kind && e.message == r->Err_0.message),
    {
        let ghost mut tr: Seq<TexState> = seq![*self];
        loop
            invariant
                tr.len() >= 1,
                tr[0] == *old(self),
                tr.last() == *self,
                forall|i: int| 0 <= i < tr.len() - 1 ==> #[trigger] run_link(tr[i], tr[i + 1]),
            decreases self.expansions_left, self.measure(),
        {
            let ghost before = *self;
            let res = self.parse_and_execute_one();
            match res {
                Ok(_) => {
                    proof {
                        let unit: () = res->Ok_0;
                        assert(unit == ());
                        assert(res == Ok::<(), Error>(()));
                        assert(run_step(*self, before, Ok(())));
                        let prev = tr;
                        tr = tr.push(*self);
                        assert(run_link(before, *self));
                        assert forall|i: int| 0 <= i < tr.len() - 1 implies #[trigger] run_link(tr[i], tr[i + 1]) by {
                            if i < prev.len() - 1 {
                                assert(tr[i] == prev[i] && tr[i + 1] == prev[i + 1]);
                            }
                        }
                    }
                },
                Err(e) => {
                    if e.kind != ErrorKind::EndOfFile {
                        proof {
                            assert(run_outcome(*self, *old(self), tr, e));
                        }
                        return Err(self.locate(e));
                    }
                    if self.files.len() == 0 {
                        proof {
                            assert(run_outcome(*self, *old(self), tr, e));
                        }
                        return Ok(());
                    }
                    let ghost mid = *self;
                    let ghost files = self.files@;
                    self.files.pop();
                    assert(self.files@ == files.drop_last());
                    proof {
                        assert(file_closed(*self, before, mid, e));
                        let prev = tr;
                        tr = tr.push(*self);
                        assert(run_link(before, *self));
                        assert forall|i: int| 0 <= i < tr.len() - 1 implies #[trigger] run_link(tr[i], tr[i + 1]) by {
                            if i < prev.len() - 1 {
                                assert(tr[i] == prev[i] && tr[i + 1] == prev[i + 1]);
                            }
                        }
                    }
                },
            }
        }
    }
}

} // verus!
