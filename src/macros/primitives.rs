//! The built-in primitives.
use vstd::prelude::*;
use crate::engine::{
    def_effect, definition_read, gives_elements, lemma_next_element_pushed, read_elements, TexState,
};
use crate::errors::{Error, ErrorKind};
use crate::group::{empty_frame, with_macro};
use crate::macros::{
    count_parameters, def_name, definition_shape, is_begin_group, is_end_group, macro_name, Macro,
    MacroView, UserDefinedMacro, UserDefinedMacroView,
};
use crate::parser::lexer::CharacterCategory;
use crate::parser::parser::{tokens_view, Token, TokenView};
use crate::group::FrameView;

verus! {

/// How far a definition has been read.
pub enum DefPhase {
    /// The name is next.
    Name,
    /// In the pattern, with this many parameter tokens so far.
    Pattern(nat),
    /// In the replacement text.
    Body,
    /// Complete.
    Done,
    /// Not a definition.
    Malformed,
}

/// A begin-group character.
pub open spec fn view_begins_group(t: TokenView) -> bool {
    t is Character && t->Character_1 == CharacterCategory::BeginGroup
}

/// An end-group character.
pub open spec fn view_ends_group(t: TokenView) -> bool {
    t is Character && t->Character_1 == CharacterCategory::EndGroup
}

/// The phase after token `t` is read in phase `ph`: the name must be a
/// control sequence; the pattern runs up to a begin-group character and
/// holds at most 255 parameters; the replacement runs up to an end-group
/// character.
pub open spec fn phase_after(ph: DefPhase, t: TokenView) -> DefPhase {
    match ph {
        DefPhase::Name => if t is ControlSequence {
            DefPhase::Pattern(0)
        } else {
            DefPhase::Malformed
        },
        DefPhase::Pattern(c) => if view_begins_group(t) {
            DefPhase::Body
        } else if t is Parameter {
            if c >= 255 {
                DefPhase::Malformed
            } else {
                DefPhase::Pattern(c + 1)
            }
        } else {
            DefPhase::Pattern(c)
        },
        DefPhase::Body => if view_ends_group(t) {
            DefPhase::Done
        } else {
            DefPhase::Body
        },
        DefPhase::Done => DefPhase::Done,
        DefPhase::Malformed => DefPhase::Malformed,
    }
}

/// The phase after the tokens `ts` have been read.
pub open spec fn def_phase(ts: Seq<TokenView>) -> DefPhase
    decreases ts.len(),
{
    if ts.len() == 0 {
        DefPhase::Name
    } else {
        phase_after(def_phase(ts.drop_last()), ts.last())
    }
}

/// More tokens are needed.
pub open spec fn is_reading(ph: DefPhase) -> bool {
    ph is Name || ph is Pattern || ph is Body
}

/// The first `k` tokens that reading gives make a complete definition.
pub open spec fn definition_complete(p: Seq<Token>, i: Seq<char>, fs: Seq<FrameView>, k: nat) -> bool {
    &&& read_elements(p, i, fs, k) is Ok
    &&& def_phase(read_elements(p, i, fs, k)->Ok_0.0) is Done
}

/// A definition stops with error `kind` after `k` tokens: every shorter
/// run of them still needed more, and either these `k` are not a
/// definition (`UnknownError`), or they still need more and the next read
/// fails with `kind`.
pub open spec fn definition_stops(p: Seq<Token>, i: Seq<char>, fs: Seq<FrameView>, k: nat, kind: ErrorKind) -> bool {
    let ts = read_elements(p, i, fs, k)->Ok_0.0;
    &&& read_elements(p, i, fs, k) is Ok
    &&& forall|j: int| 0 <= j < k ==> is_reading(def_phase(#[trigger] ts.take(j)))
    &&& (def_phase(ts) is Malformed && kind == ErrorKind::UnknownError)
        || (is_reading(def_phase(ts)) && read_elements(p, i, fs, k + 1) is Err
            && read_elements(p, i, fs, k + 1)->Err_0 == kind)
}

/// The first `k` tokens read are the first `k` of any longer run read.
pub proof fn lemma_read_prefix(p: Seq<Token>, i: Seq<char>, fs: Seq<FrameView>, n: nat, k: nat)
    requires
        read_elements(p, i, fs, n) is Ok,
        k <= n,
    ensures
        read_elements(p, i, fs, n)->Ok_0.0.len() == n,
        read_elements(p, i, fs, k) is Ok,
        read_elements(p, i, fs, k)->Ok_0.0 == read_elements(p, i, fs, n)->Ok_0.0.take(k as int),
    decreases n,
{
    if n > 0 {
        lemma_read_prefix(p, i, fs, (n - 1) as nat, if k < n { k } else { (n - 1) as nat });
        let ts = read_elements(p, i, fs, n)->Ok_0.0;
        let prev = read_elements(p, i, fs, (n - 1) as nat)->Ok_0.0;
        assert(ts.take(n - 1) =~= prev);
        if k < n {
            assert(ts.take(k as int) =~= prev.take(k as int));
        } else {
            assert(ts.take(k as int) =~= ts);
        }
    } else {
        assert(read_elements(p, i, fs, n)->Ok_0.0.take(0) =~= read_elements(p, i, fs, n)->Ok_0.0);
    }
}

/// A definition that is complete, or is not one, stays so whatever follows.
pub proof fn lemma_phase_settled(ts: Seq<TokenView>, j: int)
    requires
        0 <= j <= ts.len(),
        !is_reading(def_phase(ts.take(j))),
    ensures
        def_phase(ts) == def_phase(ts.take(j)),
    decreases ts.len(),
{
    if j < ts.len() {
        assert(ts.drop_last().take(j) =~= ts.take(j));
        lemma_phase_settled(ts.drop_last(), j);
    } else {
        assert(ts.take(j) =~= ts);
    }
}

/// Reading that stopped after `n` tokens, every prefix of which needed more,
/// because these are not a definition or the next read failed, makes no
/// complete definition for any number of tokens.
pub proof fn lemma_def_incomplete(p: Seq<Token>, i: Seq<char>, fs: Seq<FrameView>, n: nat, k: nat)
    requires
        read_elements(p, i, fs, n) is Ok,
        forall|j: int| 0 <= j < n ==> is_reading(def_phase(#[trigger] read_elements(p, i, fs, n)->Ok_0.0.take(j))),
        def_phase(read_elements(p, i, fs, n)->Ok_0.0) is Malformed
            || (is_reading(def_phase(read_elements(p, i, fs, n)->Ok_0.0)) && read_elements(p, i, fs, n + 1) is Err),
    ensures
        !definition_complete(p, i, fs, k),
{
    let ts = read_elements(p, i, fs, n)->Ok_0.0;
    lemma_read_prefix(p, i, fs, n, n);
    if read_elements(p, i, fs, k) is Ok {
        if k <= n {
            lemma_read_prefix(p, i, fs, n, k);
            if k == n {
                assert(ts.take(k as int) =~= ts);
            }
        } else {
            lemma_read_prefix(p, i, fs, k, n + 1);
            lemma_read_prefix(p, i, fs, k, n);
            let tk = read_elements(p, i, fs, k)->Ok_0.0;
            assert(tk.take(n as int) == ts);
            if def_phase(ts) is Malformed {
                lemma_phase_settled(tk, n as int);
            }
        }
    }
}

/// The definition primitive, `\def`.
#[derive(Debug, Clone, Copy)]
pub struct Def;

fn malformed() -> (e: Error)
    ensures
        e.kind == ErrorKind::UnknownError,
{
    Error::new(ErrorKind::UnknownError, "Malformed definition".to_string())
}

impl Def {
    pub fn name(&self) -> (r: String)
        ensures
            r@ == macro_name(MacroView::Def),
    {
        def_name()
    }

    /// Every macro may be used anywhere.
    pub fn safe(&self, state: &TexState) -> (r: bool)
        ensures
            r,
    {
        true
    }

    /// Reads a definition from the input and binds it in the current scope:
    /// the name (a control sequence), the pattern up to and including a
    /// begin-group character, then the replacement text up to and including
    /// the next end-group character. Pattern and text are read in two frames
    /// of their own, which are closed again, also when reading fails.
    pub fn run(&self, state: &mut TexState) -> (r: Result<(), Error>)
        ensures
            def_effect(*final(state), *old(state), r),
    {
        let ghost fs0 = state.state@;
        let ghost g0 = fs0.last().global_defs;
        let ghost p0 = state.pending();
        let ghost i0 = state.input();
        proof {
            state.state.lemma_nonempty();
            assert(read_elements(p0, i0, fs0, 0) == Ok::<(Seq<TokenView>, Seq<Token>, Seq<char>), ErrorKind>((Seq::empty(), p0, i0)));
        }
        state.push_group();
        let command = match state.get_element() {
            Ok(t) => t,
            Err(e) => {
                proof {
                    lemma_next_element_pushed(p0, i0, fs0, g0);
                    assert forall|k: nat| !definition_complete(p0, i0, fs0, k) by {
                        lemma_def_incomplete(p0, i0, fs0, 0, k);
                    }
                    assert(definition_stops(p0, i0, fs0, 0, e.kind));
                }
                let _ = state.pop_group();
                assert(state.state@ =~= fs0);
                return Err(e);
            },
        };
        let ghost mut ts: Seq<TokenView> = seq![command@];
        proof {
            lemma_next_element_pushed(p0, i0, fs0, g0);
            assert(Seq::<TokenView>::empty().push(command@) =~= ts);
            assert(ts.drop_last() =~= Seq::<TokenView>::empty());
            assert(ts.take(0) =~= Seq::<TokenView>::empty());
            assert(ts.take(1) =~= ts);
            assert(read_elements(p0, i0, fs0, 1) is Ok);
            assert(read_elements(p0, i0, fs0, 1)->Ok_0.0 == ts);
            assert(def_phase(Seq::<TokenView>::empty()) == DefPhase::Name);
            assert(def_phase(ts.drop_last()) == DefPhase::Name);
            assert(ts.last() == command@);
            assert(def_phase(ts) == phase_after(DefPhase::Name, command@));
        }
        let name = match command {
            Token::ControlSequence(s) => s,
            _ => {
                proof {
                    assert forall|k: nat| !definition_complete(p0, i0, fs0, k) by {
                        lemma_def_incomplete(p0, i0, fs0, 1, k);
                    }
                    assert(definition_stops(p0, i0, fs0, 1, ErrorKind::UnknownError));
                }
                let _ = state.pop_group();
                assert(state.state@ =~= fs0);
                return Err(malformed());
            },
        };
        let mut parameters: Vec<Token> = Vec::new();
        let mut count: u8 = 0;
        let mut replacements: Vec<Token> = Vec::new();
        assert(ts =~= seq![TokenView::ControlSequence(name@)] + tokens_view(parameters@));
        loop
            invariant_except_break
                def_phase(ts) == DefPhase::Pattern(count as nat),
                ts == seq![TokenView::ControlSequence(name@)] + tokens_view(parameters@),
                forall|i: int| 0 <= i < parameters@.len() ==> !is_begin_group(#[trigger] parameters@[i]),
            invariant
                state.state@ == fs0.push(empty_frame(g0)),
                fs0 == old(state).state@,
                fs0.len() >= 1,
                p0 == old(state).pending(),
                i0 == old(state).input(),
                state.expansions_left() == old(state).expansions_left(),
                state.passed() == old(state).passed(),
                state.measure() < old(state).measure(),
                state.files@.len() == old(state).files@.len(),
                state.files@.drop_last() == old(state).files@.drop_last(),
                gives_elements(read_elements(p0, i0, fs0, ts.len()), ts, state.pending(), state.input()),
                forall|j: int| 0 <= j <= ts.len() ==> is_reading(def_phase(#[trigger] ts.take(j))),
                count as nat == count_parameters(parameters@),
                replacements@.len() == 0,
            ensures
                state.state@ == fs0.push(empty_frame(g0)),
                state.expansions_left() == old(state).expansions_left(),
                state.passed() == old(state).passed(),
                state.measure() < old(state).measure(),
                state.files@.len() == old(state).files@.len(),
                state.files@.drop_last() == old(state).files@.drop_last(),
                gives_elements(read_elements(p0, i0, fs0, ts.len()), ts, state.pending(), state.input()),
                forall|j: int| 0 <= j <= ts.len() ==> is_reading(def_phase(#[trigger] ts.take(j))),
                def_phase(ts) == DefPhase::Body,
                ts == seq![TokenView::ControlSequence(name@)] + tokens_view(parameters@),
                count as nat == count_parameters(parameters@),
                parameters@.len() >= 1,
                is_begin_group(parameters@.last()),
                forall|i: int| 0 <= i < parameters@.len() - 1 ==> !is_begin_group(#[trigger] parameters@[i]),
                replacements@.len() == 0,
            decreases state.measure(),
        {
            let ghost p1 = state.pending();
            let ghost i1 = state.input();
            let t = match state.get_element() {
                Ok(t) => t,
                Err(e) => {
                    proof {
                        lemma_next_element_pushed(p1, i1, fs0, g0);
                        assert(ts.take(ts.len() as int) =~= ts);
                        assert forall|k: nat| !definition_complete(p0, i0, fs0, k) by {
                            lemma_def_incomplete(p0, i0, fs0, ts.len(), k);
                        }
                        assert(definition_stops(p0, i0, fs0, ts.len(), e.kind));
                    }
                    let _ = state.pop_group();
                    assert(state.state@ =~= fs0);
                    return Err(e);
                },
            };
            let ghost prev = ts;
            proof {
                lemma_next_element_pushed(p1, i1, fs0, g0);
                ts = ts.push(t@);
                assert(ts.drop_last() =~= prev);
                assert forall|j: int| 0 <= j < ts.len() implies #[trigger] ts.take(j) == prev.take(j) by {
                    assert(ts.take(j) =~= prev.take(j));
                }
                assert(prev.take(prev.len() as int) =~= prev);
                assert(ts.take(ts.len() as int) =~= ts);
            }
            let ghost before_p = parameters@;
            match &t {
                Token::Character(_, CharacterCategory::BeginGroup) => {
                    parameters.push(t);
                    assert(parameters@.drop_last() =~= before_p);
                    assert(ts =~= seq![TokenView::ControlSequence(name@)] + tokens_view(parameters@));
                    break;
                },
                Token::Parameter(_, _) => {
                    if count == 255 {
                        proof {
                            assert forall|j: int| 0 <= j < ts.len() implies is_reading(def_phase(#[trigger] ts.take(j))) by {
                                assert(ts.take(j) == prev.take(j));
                            }
                            assert forall|k: nat| !definition_complete(p0, i0, fs0, k) by {
                                lemma_def_incomplete(p0, i0, fs0, ts.len(), k);
                            }
                            assert(definition_stops(p0, i0, fs0, ts.len(), ErrorKind::UnknownError));
                        }
                        let _ = state.pop_group();
                        assert(state.state@ =~= fs0);
                        return Err(malformed());
                    }
                    count = count + 1;
                },
                _ => {},
            }
            parameters.push(t);
            assert(parameters@.drop_last() =~= before_p);
            assert(ts =~= seq![TokenView::ControlSequence(name@)] + tokens_view(parameters@));
        }
        let ghost pattern_len = ts.len();
        proof {
            lemma_next_element_pushed(state.pending(), state.input(), fs0, g0);
        }
        state.push_group();
        assert(tokens_view(replacements@) =~= Seq::<TokenView>::empty());
        loop
            invariant_except_break
                def_phase(ts) == DefPhase::Body,
                forall|i: int| 0 <= i < replacements@.len() ==> !is_end_group(#[trigger] replacements@[i]),
            invariant
                state.state@ == fs0.push(empty_frame(g0)).push(empty_frame(g0)),
                fs0 == old(state).state@,
                fs0.len() >= 1,
                p0 == old(state).pending(),
                i0 == old(state).input(),
                state.expansions_left() == old(state).expansions_left(),
                state.passed() == old(state).passed(),
                state.measure() < old(state).measure(),
                state.files@.len() == old(state).files@.len(),
                state.files@.drop_last() == old(state).files@.drop_last(),
                gives_elements(read_elements(p0, i0, fs0, ts.len()), ts, state.pending(), state.input()),
                forall|j: int| 0 <= j < ts.len() ==> is_reading(def_phase(#[trigger] ts.take(j))),
                ts == seq![TokenView::ControlSequence(name@)] + tokens_view(parameters@) + tokens_view(replacements@),
            ensures
                state.state@ == fs0.push(empty_frame(g0)).push(empty_frame(g0)),
                state.expansions_left() == old(state).expansions_left(),
                state.passed() == old(state).passed(),
                state.measure() < old(state).measure(),
                state.files@.len() == old(state).files@.len(),
                state.files@.drop_last() == old(state).files@.drop_last(),
                gives_elements(read_elements(p0, i0, fs0, ts.len()), ts, state.pending(), state.input()),
                def_phase(ts) is Done,
                ts == seq![TokenView::ControlSequence(name@)] + tokens_view(parameters@) + tokens_view(replacements@),
                replacements@.len() >= 1,
                is_end_group(replacements@.last()),
                forall|i: int| 0 <= i < replacements@.len() - 1 ==> !is_end_group(#[trigger] replacements@[i]),
            decreases state.measure(),
        {
            let ghost p1 = state.pending();
            let ghost i1 = state.input();
            let t = match state.get_element() {
                Ok(t) => t,
                Err(e) => {
                    proof {
                        lemma_next_element_pushed(p1, i1, fs0.push(empty_frame(g0)), g0);
                        lemma_next_element_pushed(p1, i1, fs0, g0);
                        assert forall|k: nat| !definition_complete(p0, i0, fs0, k) by {
                            lemma_def_incomplete(p0, i0, fs0, ts.len(), k);
                        }
                        assert(definition_stops(p0, i0, fs0, ts.len(), e.kind));
                    }
                    let _ = state.pop_group();
                    let _ = state.pop_group();
                    assert(state.state@ =~= fs0);
                    return Err(e);
                },
            };
            let ghost prev = ts;
            proof {
                lemma_next_element_pushed(p1, i1, fs0.push(empty_frame(g0)), g0);
                lemma_next_element_pushed(p1, i1, fs0, g0);
                ts = ts.push(t@);
                assert(ts.drop_last() =~= prev);
                assert forall|j: int| 0 <= j < ts.len() implies is_reading(def_phase(#[trigger] ts.take(j))) by {
                    assert(ts.take(j) =~= prev.take(j));
                    if j == prev.len() {
                        assert(prev.take(j) =~= prev);
                    }
                }
            }
            let end = match &t {
                Token::Character(_, CharacterCategory::EndGroup) => true,
                _ => false,
            };
            replacements.push(t);
            assert(ts =~= seq![TokenView::ControlSequence(name@)] + tokens_view(parameters@) + tokens_view(replacements@));
            if end {
                break;
            }
        }
        match state.pop_group() {
            Ok(_) => {},
            Err(e) => {
                return Err(e);
            },
        }
        match state.pop_group() {
            Ok(_) => {},
            Err(e) => {
                return Err(e);
            },
        }
        assert(state.state@ =~= fs0);
        let m = UserDefinedMacro::new(name, parameters, replacements, count);
        proof {
            assert(definition_shape(m@));
        }
        state.define(Macro::UserDefined(m));
        proof {
            let u = m@;
            assert(ts.subrange(1, 1 + u.parameters.len() as int) =~= tokens_view(u.parameters));
            assert(ts.subrange(1 + u.parameters.len() as int, ts.len() as int) =~= tokens_view(u.replacements));
            assert(definition_read(*state, *old(state), u, ts));
            assert(definition_complete(p0, i0, fs0, ts.len()));
        }
        Ok(())
    }
}

} // verus!
