//! Binding the tokens that follow an invocation to a macro's parameter
//! pattern, and substituting the bound groups into its replacement text.
//!
//! A pattern is a run of literal delimiter tokens and parameter tokens. Each
//! parameter binds a group of consecutive tokens; a parameter that is followed
//! by another parameter, or ends the pattern, binds at least one. Among all the
//! ways to split the tokens, the one taken gives the first parameter its
//! shortest possible group, then the second, and so on: the search tries the
//! lengths of each group in increasing order and backtracks only into the
//! groups, never into the literal tokens, which must match exactly.
use vstd::prelude::*;
use crate::errors::{Error, ErrorKind};
use crate::engine::{
    arguments_bound, arguments_fail, arguments_read, expansion_effect, gives_elements, invocation_read,
    read_elements, TexState,
};
use crate::macros::{parameter_text_of, replacement_body_of, UserDefinedMacro};
use crate::parser::parser::{tokens_view, Token, TokenView};

verus! {

/// Whether the parameter that starts `p` must bind at least one token: it is
/// the last item of the pattern or another parameter follows it.
pub open spec fn must_bind_token(p: Seq<Token>) -> bool {
    p.len() <= 1 || p[1] is Parameter
}

/// The least number of tokens that a group bound by the parameter starting
/// `p` holds.
pub open spec fn least_group(p: Seq<Token>) -> nat {
    if must_bind_token(p) {
        1
    } else {
        0
    }
}

/// The binding of `a` to pattern `p`: the groups, in the order of the
/// parameters, and how many tokens of `a` the pattern covers.
pub open spec fn first_binding(p: Seq<Token>, a: Seq<Token>) -> Option<(Seq<Seq<Token>>, nat)>
    decreases p.len(), a.len() + 2,
{
    if p.len() == 0 {
        Some((Seq::empty(), 0))
    } else if p[0] is Parameter {
        first_binding_from(p, a, least_group(p))
    } else if a.len() > 0 && a[0]@ == p[0]@ {
        match first_binding(p.drop_first(), a.drop_first()) {
            Some((g, m)) => Some((g, m + 1)),
            None => None,
        }
    } else {
        None
    }
}

/// The binding of `a` to pattern `p`, which starts with a parameter, where
/// that parameter's group holds at least `n` tokens.
pub open spec fn first_binding_from(p: Seq<Token>, a: Seq<Token>, n: nat) -> Option<(Seq<Seq<Token>>, nat)>
    decreases p.len(), a.len() + 1 - n,
{
    if p.len() == 0 || n > a.len() {
        None
    } else {
        match first_binding(p.drop_first(), a.skip(n as int)) {
            Some((g, m)) => Some((seq![a.take(n as int)] + g, n + m)),
            None => first_binding_from(p, a, n + 1),
        }
    }
}

/// The fewest tokens that pattern `p` can cover: each literal token one, each
/// parameter its least group.
pub open spec fn least_length(p: Seq<Token>) -> nat
    decreases p.len(),
{
    if p.len() == 0 {
        0
    } else if p[0] is Parameter {
        least_group(p) + least_length(p.drop_first())
    } else {
        1 + least_length(p.drop_first())
    }
}

/// A binding covers at least `least_length` tokens and at most all of them.
pub proof fn lemma_binding_length(p: Seq<Token>, a: Seq<Token>)
    ensures
        first_binding(p, a) is Some ==> least_length(p) <= first_binding(p, a)->Some_0.1 <= a.len(),
    decreases p.len(), a.len() + 2,
{
    if p.len() > 0 {
        if p[0] is Parameter {
            lemma_binding_from_length(p, a, least_group(p));
        } else if a.len() > 0 {
            lemma_binding_length(p.drop_first(), a.drop_first());
        }
    }
}

proof fn lemma_binding_from_length(p: Seq<Token>, a: Seq<Token>, n: nat)
    requires
        p.len() > 0,
    ensures
        first_binding_from(p, a, n) is Some ==> n + least_length(p.drop_first()) <= first_binding_from(p, a, n)->Some_0.1 <= a.len(),
    decreases p.len(), a.len() + 1 - n,
{
    if n <= a.len() {
        lemma_binding_length(p.drop_first(), a.skip(n as int));
        lemma_binding_from_length(p, a, n + 1);
    }
}

/// Pattern `p` with its parameters replaced, in order, by the groups `g`.
pub open spec fn instantiate(p: Seq<Token>, g: Seq<Seq<Token>>) -> Seq<TokenView>
    decreases p.len(),
{
    if p.len() == 0 {
        Seq::empty()
    } else if p[0] is Parameter {
        tokens_view(g[0]) + instantiate(p.drop_first(), g.drop_first())
    } else {
        seq![p[0]@] + instantiate(p.drop_first(), g)
    }
}

/// A binding is sound: putting its groups in the places of the pattern's
/// parameters gives back, token by token, the part of the input it covers.
pub proof fn lemma_binding_sound(p: Seq<Token>, a: Seq<Token>)
    ensures
        first_binding(p, a) is Some ==> first_binding(p, a)->Some_0.1 <= a.len()
            && instantiate(p, first_binding(p, a)->Some_0.0) == tokens_view(a.take(first_binding(p, a)->Some_0.1 as int)),
    decreases p.len(), a.len() + 2,
{
    lemma_binding_length(p, a);
    if p.len() == 0 {
        assert(tokens_view(a.take(0)) =~= Seq::<TokenView>::empty());
    } else if p[0] is Parameter {
        lemma_binding_from_sound(p, a, least_group(p));
    } else if a.len() > 0 && a[0]@ == p[0]@ {
        let rest = first_binding(p.drop_first(), a.drop_first());
        lemma_binding_sound(p.drop_first(), a.drop_first());
        if rest is Some {
            let m = rest->Some_0.1;
            assert(tokens_view(a.take(m + 1int)) =~= seq![p[0]@] + tokens_view(a.drop_first().take(m as int)));
        }
    }
}

proof fn lemma_binding_from_sound(p: Seq<Token>, a: Seq<Token>, n: nat)
    requires
        p.len() > 0,
        p[0] is Parameter,
    ensures
        first_binding_from(p, a, n) is Some ==> first_binding_from(p, a, n)->Some_0.1 <= a.len()
            && instantiate(p, first_binding_from(p, a, n)->Some_0.0)
                == tokens_view(a.take(first_binding_from(p, a, n)->Some_0.1 as int)),
    decreases p.len(), a.len() + 1 - n,
{
    if n <= a.len() {
        let rest = first_binding(p.drop_first(), a.skip(n as int));
        lemma_binding_sound(p.drop_first(), a.skip(n as int));
        lemma_binding_from_sound(p, a, n + 1);
        if rest is Some {
            let (g, m) = rest->Some_0;
            let h = seq![a.take(n as int)] + g;
            assert(h[0] == a.take(n as int));
            assert(h.drop_first() =~= g);
            assert(tokens_view(a.take((n + m) as int)) =~= tokens_view(a.take(n as int)) + tokens_view(a.skip(n as int).take(m as int)));
        }
    }
}

/// `g` gives each parameter of `p`, in order, a group, with at least one
/// token where the parameter must bind one.
pub open spec fn fits_groups(p: Seq<Token>, g: Seq<Seq<Token>>) -> bool
    decreases p.len(),
{
    if p.len() == 0 {
        g.len() == 0
    } else if p[0] is Parameter {
        g.len() >= 1 && g[0].len() >= least_group(p) && fits_groups(p.drop_first(), g.drop_first())
    } else {
        fits_groups(p.drop_first(), g)
    }
}

/// Binding is complete: where some groups for the parameters make the
/// pattern equal, token by token, to a prefix of the input, a binding is
/// found.
pub proof fn lemma_binding_complete(p: Seq<Token>, a: Seq<Token>, g: Seq<Seq<Token>>, m: nat)
    requires
        fits_groups(p, g),
        m <= a.len(),
        instantiate(p, g) == tokens_view(a.take(m as int)),
    ensures
        first_binding(p, a) is Some,
    decreases p.len(),
{
    if p.len() > 0 {
        let rest = p.drop_first();
        if p[0] is Parameter {
            let l = g[0].len();
            let x = tokens_view(g[0]);
            let y = instantiate(rest, g.drop_first());
            assert(tokens_view(a.take(m as int)).len() == m);
            assert(l <= m);
            assert(tokens_view(a.skip(l as int).take(m - l)) =~= tokens_view(a.take(m as int)).subrange(l as int, m as int));
            assert((x + y).subrange(l as int, m as int) =~= y);
            lemma_binding_complete(rest, a.skip(l as int), g.drop_first(), (m - l) as nat);
            lemma_binding_from_complete(p, a, least_group(p), l);
        } else {
            let y = instantiate(rest, g);
            assert(tokens_view(a.take(m as int)).len() == m);
            assert(m >= 1);
            assert(tokens_view(a.take(m as int))[0] == a[0]@);
            assert((seq![p[0]@] + y)[0] == p[0]@);
            assert(tokens_view(a.drop_first().take(m - 1)) =~= tokens_view(a.take(m as int)).subrange(1, m as int));
            assert((seq![p[0]@] + y).subrange(1, m as int) =~= y);
            lemma_binding_complete(rest, a.drop_first(), g, (m - 1) as nat);
        }
    }
}

proof fn lemma_binding_from_complete(p: Seq<Token>, a: Seq<Token>, n: nat, l: nat)
    requires
        p.len() > 0,
        n <= l <= a.len(),
        first_binding(p.drop_first(), a.skip(l as int)) is Some,
    ensures
        first_binding_from(p, a, n) is Some,
    decreases l - n,
{
    if n < l && first_binding(p.drop_first(), a.skip(n as int)) is None {
        lemma_binding_from_complete(p, a, n + 1, l);
    }
}

/// The first group is the shortest that works: with any shorter group
/// allowed for the first parameter, the rest of the pattern cannot be bound
/// to what follows it.
pub proof fn lemma_first_group_shortest(p: Seq<Token>, a: Seq<Token>, k: nat)
    requires
        p.len() > 0,
        p[0] is Parameter,
        first_binding(p, a) is Some,
        least_group(p) <= k < first_binding(p, a)->Some_0.0[0].len(),
    ensures
        first_binding(p.drop_first(), a.skip(k as int)) is None,
{
    lemma_first_group_from(p, a, least_group(p), k);
}

proof fn lemma_first_group_from(p: Seq<Token>, a: Seq<Token>, n: nat, k: nat)
    requires
        p.len() > 0,
        first_binding_from(p, a, n) is Some,
        n <= k < first_binding_from(p, a, n)->Some_0.0[0].len(),
    ensures
        first_binding(p.drop_first(), a.skip(k as int)) is None,
    decreases a.len() + 1 - n,
{
    if first_binding(p.drop_first(), a.skip(n as int)) is Some {
        let g = first_binding(p.drop_first(), a.skip(n as int))->Some_0.0;
        assert((seq![a.take(n as int)] + g)[0] == a.take(n as int));
    } else if k > n {
        lemma_first_group_from(p, a, n + 1, k);
    }
}

/// Two binding results that agree token by token.
pub open spec fn same_binding(r1: Option<(Seq<Seq<Token>>, nat)>, r2: Option<(Seq<Seq<Token>>, nat)>) -> bool {
    match (r1, r2) {
        (Some((g1, m1)), Some((g2, m2))) => m1 == m2 && g1.len() == g2.len()
            && forall|i: int| 0 <= i < g1.len() ==> tokens_view(#[trigger] g1[i]) == tokens_view(g2[i]),
        (None, None) => true,
        _ => false,
    }
}

/// Binding is deterministic: patterns and token sequences that are equal
/// token by token give the same split, with groups equal token by token.
pub proof fn lemma_binding_deterministic(pat_a: Seq<Token>, act_a: Seq<Token>, pat_b: Seq<Token>, act_b: Seq<Token>)
    requires
        tokens_view(pat_a) == tokens_view(pat_b),
        tokens_view(act_a) == tokens_view(act_b),
    ensures
        same_binding(first_binding(pat_a, act_a), first_binding(pat_b, act_b)),
    decreases pat_a.len(), act_a.len() + 2,
{
    assert(pat_a.len() == tokens_view(pat_a).len());
    assert(pat_b.len() == tokens_view(pat_b).len());
    assert(act_a.len() == tokens_view(act_a).len());
    assert(act_b.len() == tokens_view(act_b).len());
    if pat_a.len() > 0 {
        assert(pat_a[0]@ == tokens_view(pat_a)[0]);
        assert(pat_b[0]@ == tokens_view(pat_b)[0]);
        assert(tokens_view(pat_a.drop_first()) =~= tokens_view(pat_a).drop_first());
        assert(tokens_view(pat_b.drop_first()) =~= tokens_view(pat_b).drop_first());
        if pat_a.len() > 1 {
            assert(pat_a[1]@ == tokens_view(pat_a)[1]);
            assert(pat_b[1]@ == tokens_view(pat_b)[1]);
        }
        if pat_a[0] is Parameter {
            assert(least_group(pat_a) == least_group(pat_b));
            lemma_binding_from_deterministic(pat_a, act_a, pat_b, act_b, least_group(pat_a));
        } else if act_a.len() > 0 {
            assert(act_a[0]@ == tokens_view(act_a)[0]);
            assert(act_b[0]@ == tokens_view(act_b)[0]);
            assert(tokens_view(act_a.drop_first()) =~= tokens_view(act_a).drop_first());
            assert(tokens_view(act_b.drop_first()) =~= tokens_view(act_b).drop_first());
            lemma_binding_deterministic(pat_a.drop_first(), act_a.drop_first(), pat_b.drop_first(), act_b.drop_first());
        }
    }
}

proof fn lemma_binding_from_deterministic(pat_a: Seq<Token>, act_a: Seq<Token>, pat_b: Seq<Token>, act_b: Seq<Token>, n: nat)
    requires
        tokens_view(pat_a) == tokens_view(pat_b),
        tokens_view(act_a) == tokens_view(act_b),
        pat_a.len() > 0,
    ensures
        same_binding(first_binding_from(pat_a, act_a, n), first_binding_from(pat_b, act_b, n)),
    decreases pat_a.len(), act_a.len() + 1 - n,
{
    assert(pat_a.len() == tokens_view(pat_a).len());
    assert(act_a.len() == tokens_view(act_a).len());
    assert(act_b.len() == tokens_view(act_b).len());
    if n <= act_a.len() {
        assert(tokens_view(pat_a.drop_first()) =~= tokens_view(pat_a).drop_first());
        assert(tokens_view(pat_b.drop_first()) =~= tokens_view(pat_b).drop_first());
        assert(tokens_view(act_a.skip(n as int)) =~= tokens_view(act_a).skip(n as int));
        assert(tokens_view(act_b.skip(n as int)) =~= tokens_view(act_b).skip(n as int));
        assert(tokens_view(act_a.take(n as int)) =~= tokens_view(act_a).take(n as int));
        assert(tokens_view(act_b.take(n as int)) =~= tokens_view(act_b).take(n as int));
        lemma_binding_deterministic(pat_a.drop_first(), act_a.skip(n as int), pat_b.drop_first(), act_b.skip(n as int));
        lemma_binding_from_deterministic(pat_a, act_a, pat_b, act_b, n + 1);
        let r1 = first_binding(pat_a.drop_first(), act_a.skip(n as int));
        let r2 = first_binding(pat_b.drop_first(), act_b.skip(n as int));
        if r1 is Some {
            let (g1, m1) = r1->Some_0;
            let (g2, m2) = r2->Some_0;
            let h1 = seq![act_a.take(n as int)] + g1;
            let h2 = seq![act_b.take(n as int)] + g2;
            assert forall|i: int| 0 <= i < h1.len() implies tokens_view(#[trigger] h1[i]) == tokens_view(h2[i]) by {
                if i > 0 {
                    assert(h1[i] == g1[i - 1]);
                    assert(h2[i] == g2[i - 1]);
                }
            }
        }
    }
}

/// The token sequences that a list of groups holds.
pub open spec fn groups_view(g: Seq<Vec<Token>>) -> Seq<Seq<Token>> {
    g.map_values(|v: Vec<Token>| v@)
}

/// The tokens `a[from..to]`, copied.
fn copy_range(a: &Vec<Token>, from: usize, to: usize) -> (r: Vec<Token>)
    requires
        from <= to <= a@.len(),
    ensures
        r@ == a@.subrange(from as int, to as int),
{
    let mut out: Vec<Token> = Vec::new();
    let mut i: usize = from;
    while i < to
        invariant
            from <= i <= to <= a@.len(),
            out@ == a@.subrange(from as int, i as int),
        decreases to - i,
    {
        out.push(a[i].clone());
        i = i + 1;
        assert(out@ =~= a@.subrange(from as int, i as int));
    }
    out
}

/// Binds `actual[ai..]` to `pattern[pi..]`.
fn bind_rest(pattern: &Vec<Token>, pi: usize, actual: &Vec<Token>, ai: usize) -> (r: Option<(Vec<Vec<Token>>, usize)>)
    requires
        pi <= pattern@.len(),
        ai <= actual@.len(),
    ensures
        match r {
            Some((g, m)) => m <= actual@.len() - ai
                && first_binding(pattern@.skip(pi as int), actual@.skip(ai as int)) == Some((groups_view(g@), m as nat)),
            None => first_binding(pattern@.skip(pi as int), actual@.skip(ai as int)) is None,
        },
    decreases pattern@.len() - pi,
{
    let ghost p = pattern@.skip(pi as int);
    let ghost a = actual@.skip(ai as int);
    if pi == pattern.len() {
        let g: Vec<Vec<Token>> = Vec::new();
        assert(groups_view(g@) =~= Seq::<Seq<Token>>::empty());
        return Some((g, 0));
    }
    assert(p.drop_first() =~= pattern@.skip(pi + 1));
    match &pattern[pi] {
        Token::Parameter(_, _) => {
            let least: usize = if pi + 1 == pattern.len() {
                1
            } else {
                match &pattern[pi + 1] {
                    Token::Parameter(_, _) => 1,
                    _ => 0,
                }
            };
            assert(least == least_group(p));
            let limit: usize = actual.len() - ai;
            let mut n: usize = least;
            loop
                invariant
                    pi < pattern.len(),
                    ai <= actual.len(),
                    limit == actual.len() - ai,
                    p == pattern@.skip(pi as int),
                    a == actual@.skip(ai as int),
                    p.drop_first() == pattern@.skip(pi + 1),
                    p[0] is Parameter,
                    first_binding(p, a) == first_binding_from(p, a, n as nat),
                decreases limit + 1 - n,
            {
                if n > limit {
                    return None;
                }
                assert(a.skip(n as int) =~= actual@.skip(ai + n));
                match bind_rest(pattern, pi + 1, actual, ai + n) {
                    Some((mut g, m)) => {
                        let group = copy_range(actual, ai, ai + n);
                        assert(group@ =~= a.take(n as int));
                        let ghost rest = groups_view(g@);
                        g.insert(0, group);
                        assert(groups_view(g@) =~= seq![a.take(n as int)] + rest);
                        return Some((g, n + m));
                    },
                    None => {},
                }
                if n == limit {
                    assert(a.len() == limit);
                    assert(first_binding_from(p, a, (n + 1) as nat) is None);
                    return None;
                }
                n = n + 1;
            }
        },
        _ => {
            if ai < actual.len() && actual[ai] == pattern[pi] {
                assert(a.drop_first() =~= actual@.skip(ai + 1));
                match bind_rest(pattern, pi + 1, actual, ai + 1) {
                    Some((g, m)) => Some((g, m + 1)),
                    None => None,
                }
            } else {
                None
            }
        },
    }
}

/// Binds `actual` to `pattern`: the groups, one for each parameter of the
/// pattern in order, and the number of tokens of `actual` that the pattern
/// covers; `None` if no split lets every literal token match. Where `actual`
/// is shorter than the least the pattern can cover, no split is tried.
pub fn bind_arguments(pattern: &Vec<Token>, actual: &Vec<Token>) -> (r: Option<(Vec<Vec<Token>>, usize)>)
    ensures
        match r {
            Some((g, m)) => m <= actual@.len() && first_binding(pattern@, actual@) == Some((groups_view(g@), m as nat)),
            None => first_binding(pattern@, actual@) is None,
        },
{
    let mut least: usize = 0;
    let mut i: usize = 0;
    assert(pattern@.skip(0) =~= pattern@);
    while i < pattern.len()
        invariant
            i <= pattern@.len(),
            least <= i,
            least_length(pattern@) == least + least_length(pattern@.skip(i as int)),
        decreases pattern@.len() - i,
    {
        let ghost rest = pattern@.skip(i as int);
        assert(rest.drop_first() =~= pattern@.skip(i + 1));
        match &pattern[i] {
            Token::Parameter(_, _) => {
                let must = i + 1 == pattern.len() || match &pattern[i + 1] {
                    Token::Parameter(_, _) => true,
                    _ => false,
                };
                assert(must == must_bind_token(rest));
                if must {
                    least = least + 1;
                }
            },
            _ => {
                least = least + 1;
            },
        }
        i = i + 1;
    }
    if least > actual.len() {
        proof {
            lemma_binding_length(pattern@, actual@);
        }
        return None;
    }
    assert(actual@.skip(0) =~= actual@);
    bind_rest(pattern, 0, actual, 0)
}

/// The replacement text `r` with each parameter token `#i` replaced by the
/// `i`-th group of `g`; `None` if some parameter number names no group.
pub open spec fn expansion(r: Seq<Token>, g: Seq<Seq<Token>>) -> Option<Seq<Token>>
    decreases r.len(),
{
    if r.len() == 0 {
        Some(Seq::empty())
    } else {
        match expansion(r.drop_last(), g) {
            None => None,
            Some(e) => match r.last() {
                Token::Parameter(_, i) => if 1 <= i <= g.len() {
                    Some(e + g[i - 1])
                } else {
                    None
                },
                t => Some(e.push(t)),
            },
        }
    }
}

proof fn lemma_expansion_fails_on(r: Seq<Token>, g: Seq<Seq<Token>>, j: int)
    requires
        0 <= j <= r.len(),
        expansion(r.take(j), g) is None,
    ensures
        expansion(r, g) is None,
    decreases r.len() - j,
{
    if j < r.len() {
        assert(r.take(j + 1).drop_last() =~= r.take(j));
        lemma_expansion_fails_on(r, g, j + 1);
    } else {
        assert(r.take(j) =~= r);
    }
}

/// Substitutes the bound groups into a replacement text. Fails with
/// `UnknownError` where a parameter number names no group.
pub fn substitute(replacement: &Vec<Token>, groups: &Vec<Vec<Token>>) -> (r: Result<Vec<Token>, Error>)
    ensures
        match r {
            Ok(e) => expansion(replacement@, groups_view(groups@)) == Some(e@),
            Err(err) => expansion(replacement@, groups_view(groups@)) is None
                && err.kind == ErrorKind::UnknownError,
        },
{
    let ghost g = groups_view(groups@);
    let mut out: Vec<Token> = Vec::new();
    let mut i: usize = 0;
    assert(replacement@.take(0) =~= Seq::<Token>::empty());
    while i < replacement.len()
        invariant
            i <= replacement@.len(),
            g == groups_view(groups@),
            expansion(replacement@.take(i as int), g) == Some(out@),
        decreases replacement@.len() - i,
    {
        assert(replacement@.take(i + 1).drop_last() =~= replacement@.take(i as int));
        match &replacement[i] {
            Token::Parameter(_, k) => {
                if *k >= 1 && (*k as usize) <= groups.len() {
                    let mut part = crate::macros::clone_tokens(&groups[*k as usize - 1]);
                    out.append(&mut part);
                } else {
                    proof {
                        lemma_expansion_fails_on(replacement@, g, i + 1);
                    }
                    return Err(Error::new(ErrorKind::UnknownError, "Illegal parameter number".to_string()));
                }
            },
            t => {
                out.push(t.clone());
            },
        }
        i = i + 1;
    }
    assert(replacement@.take(i as int) =~= replacement@);
    Ok(out)
}

/// Reads the tokens that follow an invocation, one at a time, until the
/// tokens read can be bound to `target`; those after the part that the
/// pattern covers are put back to be read again. Fails where the input runs
/// out first.
pub fn match_pattern(target: &Vec<Token>, state: &mut TexState) -> (r: Result<Vec<Vec<Token>>, Error>)
    ensures
        final(state).state@ == old(state).state@,
        final(state).expansions_left() == old(state).expansions_left(),
        final(state).passed() == old(state).passed(),
        final(state).measure() <= old(state).measure(),
        r is Ok ==> exists|args: Seq<Token>| #[trigger] arguments_read(*final(state), *old(state), target@, args)
            && first_binding(target@, args)->Some_0.0 == groups_view(r->Ok_0@),
        r is Err ==> exists|args: Seq<Token>| #[trigger] arguments_fail(*old(state), target@, args, r->Err_0.kind),
{
    let ghost p0 = state.pending();
    let ghost i0 = state.input();
    let ghost fs = state.state@;
    let mut actual: Vec<Token> = Vec::new();
    assert(tokens_view(actual@) =~= Seq::<TokenView>::empty());
    loop
        invariant
            state.state@ == fs,
            fs == old(state).state@,
            p0 == old(state).pending(),
            i0 == old(state).input(),
            state.expansions_left() == old(state).expansions_left(),
            state.passed() == old(state).passed(),
            state.measure() + actual@.len() <= old(state).measure(),
            state.files@.len() == old(state).files@.len(),
            state.files@.drop_last() == old(state).files@.drop_last(),
            gives_elements(read_elements(p0, i0, fs, actual@.len()), tokens_view(actual@), state.pending(), state.input()),
            forall|k: int| 0 <= k < actual@.len() ==> first_binding(target@, #[trigger] actual@.take(k)) is None,
        decreases state.measure(),
    {
        match bind_arguments(target, &actual) {
            Some((g, m)) => {
                let ghost base = state.pending();
                let mut i: usize = actual.len();
                assert(actual@.subrange(i as int, actual@.len() as int).reverse() =~= Seq::<Token>::empty());
                assert(state.pending() =~= base + actual@.subrange(i as int, actual@.len() as int).reverse());
                while i > m
                    invariant
                        m <= i <= actual@.len(),
                        state.state@ == fs,
                        state.expansions_left() == old(state).expansions_left(),
                        state.passed() == old(state).passed(),
                        state.measure() + i <= old(state).measure(),
                        state.files@.len() == old(state).files@.len(),
                        state.files@.drop_last() == old(state).files@.drop_last(),
                        state.input() == read_elements(p0, i0, fs, actual@.len())->Ok_0.2,
                        state.pending() == base + actual@.subrange(i as int, actual@.len() as int).reverse(),
                    decreases i,
                {
                    i = i - 1;
                    state.pending.push(actual[i].clone());
                    assert(actual@.subrange(i as int, actual@.len() as int).reverse() =~= actual@.subrange(i + 1, actual@.len() as int).reverse().push(actual@[i as int]));
                    assert(state.pending() =~= base + actual@.subrange(i as int, actual@.len() as int).reverse());
                }
                assert(actual@.subrange(m as int, actual@.len() as int) =~= actual@.skip(m as int));
                assert(arguments_read(*state, *old(state), target@, actual@));
                return Ok(g);
            },
            None => {},
        }
        let ghost p1 = state.pending();
        let ghost i1 = state.input();
        let ghost prev = actual@;
        let t = match state.get_element() {
            Ok(t) => t,
            Err(e) => {
                proof {
                    assert(actual@.take(actual@.len() as int) =~= actual@);
                    assert(arguments_fail(*old(state), target@, actual@, e.kind));
                }
                return Err(e);
            },
        };
        actual.push(t);
        assert(tokens_view(actual@) =~= tokens_view(prev).push(actual@.last()@));
        assert(actual@.take(prev.len() as int) =~= prev);
        assert forall|k: int| 0 <= k < actual@.len() implies first_binding(target@, #[trigger] actual@.take(k)) is None by {
            if k < prev.len() {
                assert(actual@.take(k) =~= prev.take(k));
            }
        }
    }
}

impl UserDefinedMacro {
    /// Every macro may be used anywhere.
    pub fn safe(&self, state: &TexState) -> (r: bool)
        ensures
            r,
    {
        true
    }

    /// Invokes the macro: binds the tokens that follow to its pattern,
    /// substitutes the groups into its replacement text and leaves the result
    /// to be read next. Fails with `UnknownError` where no more expansions are
    /// allowed.
    pub fn run(&self, state: &mut TexState) -> (r: Result<(), Error>)
        ensures
            expansion_effect(*final(state), *old(state), self@, r),
    {
        let pattern = parameter_text_of(self.parameters());
        let body = replacement_body_of(self.replacements());
        let groups = match match_pattern(&pattern, state) {
            Ok(g) => g,
            Err(e) => {
                return Err(e);
            },
        };
        let ghost mid = *state;
        let ghost g = groups_view(groups@);
        let ghost args = choose|args: Seq<Token>| #[trigger] arguments_read(mid, *old(state), pattern@, args)
            && first_binding(pattern@, args)->Some_0.0 == g;
        let e = match substitute(&body, &groups) {
            Ok(e) => e,
            Err(err) => {
                proof {
                    assert(arguments_bound(*old(state), pattern@, args));
                }
                return Err(err);
            },
        };
        if state.expansions_left == 0 {
            proof {
                assert(arguments_bound(*old(state), pattern@, args));
            }
            return Err(Error::new(ErrorKind::UnknownError, "Expansion limit reached".to_string()));
        }
        state.expansions_left = state.expansions_left - 1;
        let ghost base = state.pending@;
        let mut i: usize = e.len();
        assert(e@.subrange(i as int, e@.len() as int).reverse() =~= Seq::<Token>::empty());
        assert(state.pending@ =~= base + e@.subrange(i as int, e@.len() as int).reverse());
        while i > 0
            invariant
                i <= e@.len(),
                state.pending@ == base + e@.subrange(i as int, e@.len() as int).reverse(),
                state.files@ == mid.files@,
                state.state@ == old(state).state@,
                state.passed() == old(state).passed(),
                state.expansions_left() + 1 == old(state).expansions_left(),
            decreases i,
        {
            i = i - 1;
            state.pending.push(e[i].clone());
            assert(e@.subrange(i as int, e@.len() as int).reverse() =~= e@.subrange(i + 1, e@.len() as int).reverse().push(e@[i as int]));
        }
        assert(e@.subrange(0, e@.len() as int) =~= e@);
        proof {
            assert(invocation_read(*state, *old(state), self@, args));
        }
        Ok(())
    }
}

} // verus!
