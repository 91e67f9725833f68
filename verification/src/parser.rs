//! A predictive (LL(1)) recursive-descent parser that walks the pattern
//! left to right and drives the fragment algebra as it goes, fusing parsing
//! and automaton construction into one pass.
//!
//! The grammar (terminals are literal characters, `.`, `\` escapes and
//! `[...]` classes; the structural characters `( ) | * ? +` are never
//! literals):
//!
//! ```text
//! UNION  := CONCAT ('|' CONCAT)*
//! CONCAT := UNARY+
//! UNARY  := PAREN ['*' | '?' | '+']
//! PAREN  := TERM | '(' UNION ')'
//! TERM   := literal | '.' | '\' ESCAPE | '[' ['^'] CLASSBODY ']'
//! ```
//!
//! Concatenation has no explicit operator: a term immediately following
//! another is concatenated, detected by one-token lookahead. Each
//! production decides its branch purely from the next unconsumed
//! character, which is why a structural character (or the end of the
//! input) where a term is expected is a syntax error.
//!
//! Errors are recorded as input offsets and never unwind the parse: the
//! offending token is consumed, "no fragment" propagates upward, and a
//! single parse can surface several diagnostics. A pattern is accepted
//! only if the error list is empty at the end.

use crate::character_sets;
use crate::character_sets::{
    spec_char_range, spec_digits, spec_whitespace, spec_word_chars, to_char_vec, CharSet,
};
use crate::nfa::{opt_frag_wf, state_model, states_refs_wf, Fragment, State, StateList, StateModel};
use crate::nfa::{
    frag_model, lemma_empty_charset, lemma_models_index, lemma_models_push, m_concat_op, m_leaf,
    m_link_all, m_set_out, m_unary_op, m_union_op, models_of, opt_frag_model, FragModel,
};
use vstd::prelude::*;

verus! {

/// The parser state as the specification sees it: the input, the cursor,
/// and how many diagnostics have been raised so far.
pub struct ParseState {
    pub chars: Seq<char>,
    pub pos: int,
    pub nerr: int,
}

/// A structural character that can never start a term.
pub open spec fn is_meta(c: char) -> bool {
    c == ')' || c == '*' || c == '?' || c == '+' || c == '|'
}

pub open spec fn m_peek(p: ParseState) -> Option<char> {
    if 0 <= p.pos < p.chars.len() {
        Some(p.chars[p.pos])
    } else {
        None
    }
}

pub open spec fn m_advance(p: ParseState) -> ParseState {
    ParseState { chars: p.chars, pos: p.pos + 1, nerr: p.nerr }
}

/// One diagnostic, stepping past the offending character if there is one.
pub open spec fn m_error_next(p: ParseState) -> ParseState {
    ParseState {
        chars: p.chars,
        pos: if p.pos < p.chars.len() {
            p.pos + 1
        } else {
            p.pos
        },
        nerr: p.nerr + 1,
    }
}

/// One diagnostic without consuming.
pub open spec fn m_error_here(p: ParseState) -> ParseState {
    ParseState { chars: p.chars, pos: p.pos, nerr: p.nerr + 1 }
}

/// The optional postfix operator.
pub open spec fn m_unaryop(p: ParseState) -> (ParseState, Option<char>) {
    match m_peek(p) {
        Some(c) => if c == '*' || c == '?' || c == '+' {
            (m_advance(p), Some(c))
        } else {
            (p, None)
        },
        None => (p, None),
    }
}

/// The body of a character class, after `[` and an optional `^`:
/// accumulates the inclusive and exclusive sets, and yields them at `]`,
/// or nothing after a diagnostic.
pub open spec fn sp_class_body(p: ParseState, inc: Set<char>, exc: Set<char>) -> (
    ParseState,
    Option<(Set<char>, Set<char>)>,
)
    decreases p.chars.len() - p.pos,
{
    match m_peek(p) {
        None => (m_error_here(p), None),
        Some(b) => {
            let p1 = m_advance(p);
            if b == ']' {
                (p1, Some((inc, exc)))
            } else if b == '\\' {
                match m_peek(p1) {
                    None => (m_error_here(p1), None),
                    Some(e) => {
                        let p2 = m_advance(p1);
                        if e == ']' {
                            sp_class_body(p2, inc.insert(']'), exc)
                        } else if e == '\\' {
                            sp_class_body(p2, inc.insert('\\'), exc)
                        } else if e == 'w' {
                            sp_class_body(p2, inc.union(spec_word_chars()), exc)
                        } else if e == 'W' {
                            sp_class_body(p2, inc, exc.union(spec_word_chars()))
                        } else if e == 'd' {
                            sp_class_body(p2, inc.union(spec_digits()), exc)
                        } else if e == 'D' {
                            sp_class_body(p2, inc, exc.union(spec_digits()))
                        } else if e == 's' {
                            sp_class_body(p2, inc.union(spec_whitespace()), exc)
                        } else if e == 'S' {
                            sp_class_body(p2, inc, exc.union(spec_whitespace()))
                        } else {
                            (m_error_here(p2), None)
                        }
                    },
                }
            } else if (b as u32) < 128 {
                if m_peek(p1) == Some('-') {
                    let p2 = m_advance(p1);
                    match m_peek(p2) {
                        None => (m_error_here(p2), None),
                        Some(h) => {
                            let p3 = m_advance(p2);
                            if (h as u32) < 128 {
                                if (h as u8) < (b as u8) {
                                    (m_error_here(p3), None)
                                } else {
                                    sp_class_body(
                                        p3,
                                        inc.union(spec_char_range(b as u8, h as u8)),
                                        exc,
                                    )
                                }
                            } else {
                                (m_error_here(p3), None)
                            }
                        },
                    }
                } else {
                    sp_class_body(p1, inc.insert(b), exc)
                }
            } else {
                sp_class_body(p1, inc.insert(b), exc)
            }
        },
    }
}

/// TERM, as the specification computes it.
pub open spec fn sp_term(p: ParseState, sl: Seq<StateModel>) -> (
    ParseState,
    Seq<StateModel>,
    Option<FragModel>,
) {
    match m_peek(p) {
        None => (m_error_next(p), sl, None),
        Some(c) => {
            if c == '(' || is_meta(c) {
                (m_error_next(p), sl, None)
            } else if c == '.' {
                let (sl1, fr) = m_leaf(sl, Set::empty(), Set::empty());
                (m_advance(p), sl1, Some(fr))
            } else if c == '\\' {
                let p1 = m_advance(p);
                match m_peek(p1) {
                    None => (m_error_here(p1), sl, None),
                    Some(e) => {
                        let p2 = m_advance(p1);
                        if e == 'w' {
                            let (sl1, fr) = m_leaf(sl, spec_word_chars(), Set::empty());
                            (p2, sl1, Some(fr))
                        } else if e == 'W' {
                            let (sl1, fr) = m_leaf(sl, Set::empty(), spec_word_chars());
                            (p2, sl1, Some(fr))
                        } else if e == 'd' {
                            let (sl1, fr) = m_leaf(sl, spec_digits(), Set::empty());
                            (p2, sl1, Some(fr))
                        } else if e == 'D' {
                            let (sl1, fr) = m_leaf(sl, Set::empty(), spec_digits());
                            (p2, sl1, Some(fr))
                        } else if e == 's' {
                            let (sl1, fr) = m_leaf(sl, spec_whitespace(), Set::empty());
                            (p2, sl1, Some(fr))
                        } else if e == 'S' {
                            let (sl1, fr) = m_leaf(sl, Set::empty(), spec_whitespace());
                            (p2, sl1, Some(fr))
                        } else if e == '*' || e == '+' || e == '\\' || e == '(' || e == ')' || e
                            == '.' {
                            let (sl1, fr) = m_leaf(sl, Set::empty().insert(e), Set::empty());
                            (p2, sl1, Some(fr))
                        } else {
                            (m_error_here(p2), sl, None)
                        }
                    },
                }
            } else if c == '[' {
                let p1 = m_advance(p);
                let negate = m_peek(p1) == Some('^');
                let p2 = if negate {
                    m_advance(p1)
                } else {
                    p1
                };
                let (p3, res) = sp_class_body(p2, Set::empty(), Set::empty());
                match res {
                    None => (p3, sl, None),
                    Some(sets) => {
                        let (sl1, fr) = if negate {
                            m_leaf(sl, sets.1, sets.0)
                        } else {
                            m_leaf(sl, sets.0, sets.1)
                        };
                        (p3, sl1, Some(fr))
                    },
                }
            } else {
                let (sl1, fr) = m_leaf(sl, Set::empty().insert(c), Set::empty());
                (m_advance(p), sl1, Some(fr))
            }
        },
    }
}

/// UNION, as the specification computes it; the fuel bounds the recursion
/// and `None` means it ran out (any sufficiently large fuel gives the one
/// real answer).
pub open spec fn sp_union(p: ParseState, sl: Seq<StateModel>, fuel: nat) -> Option<
    (ParseState, Seq<StateModel>, Option<FragModel>),
>
    decreases fuel, 4int,
{
    if fuel == 0 {
        None
    } else {
        match m_peek(p) {
            None => Some((m_error_next(p), sl, None)),
            Some(c) => {
                if is_meta(c) {
                    Some((m_error_next(p), sl, None))
                } else {
                    match sp_concat(p, sl, (fuel - 1) as nat) {
                        None => None,
                        Some(step1) => match sp_union_prime(step1.0, step1.1, (fuel - 1) as nat) {
                            None => None,
                            Some(step2) => {
                                let joined = m_union_op(step2.1, step1.2, step2.2);
                                Some((step2.0, joined.0, joined.1))
                            },
                        },
                    }
                }
            },
        }
    }
}

/// The tail of a UNION.
pub open spec fn sp_union_prime(p: ParseState, sl: Seq<StateModel>, fuel: nat) -> Option<
    (ParseState, Seq<StateModel>, Option<FragModel>),
>
    decreases fuel, 3int,
{
    if fuel == 0 {
        None
    } else {
        match m_peek(p) {
            None => Some((p, sl, None)),
            Some(c) => {
                if c == ')' {
                    Some((p, sl, None))
                } else if c == '|' {
                    sp_union(m_advance(p), sl, (fuel - 1) as nat)
                } else {
                    Some((m_error_next(p), sl, None))
                }
            },
        }
    }
}

/// CONCAT, as the specification computes it.
pub open spec fn sp_concat(p: ParseState, sl: Seq<StateModel>, fuel: nat) -> Option<
    (ParseState, Seq<StateModel>, Option<FragModel>),
>
    decreases fuel, 2int,
{
    if fuel == 0 {
        None
    } else {
        match m_peek(p) {
            None => Some((m_error_next(p), sl, None)),
            Some(c) => {
                if is_meta(c) {
                    Some((m_error_next(p), sl, None))
                } else {
                    match sp_unary(p, sl, (fuel - 1) as nat) {
                        None => None,
                        Some(step1) => match sp_concat_prime(step1.0, step1.1, (fuel - 1) as nat) {
                            None => None,
                            Some(step2) => {
                                let joined = m_concat_op(step2.1, step1.2, step2.2);
                                Some((step2.0, joined.0, joined.1))
                            },
                        },
                    }
                }
            },
        }
    }
}

/// The tail of a CONCAT.
pub open spec fn sp_concat_prime(p: ParseState, sl: Seq<StateModel>, fuel: nat) -> Option<
    (ParseState, Seq<StateModel>, Option<FragModel>),
>
    decreases fuel, 1int,
{
    if fuel == 0 {
        None
    } else {
        match m_peek(p) {
            None => Some((p, sl, None)),
            Some(c) => {
                if c == ')' || c == '|' {
                    Some((p, sl, None))
                } else if c == '*' || c == '?' || c == '+' {
                    Some((m_error_next(p), sl, None))
                } else {
                    sp_concat(p, sl, (fuel - 1) as nat)
                }
            },
        }
    }
}

/// UNARY, as the specification computes it.
pub open spec fn sp_unary(p: ParseState, sl: Seq<StateModel>, fuel: nat) -> Option<
    (ParseState, Seq<StateModel>, Option<FragModel>),
>
    decreases fuel, 1int,
{
    if fuel == 0 {
        None
    } else {
        match m_peek(p) {
            None => Some((m_error_next(p), sl, None)),
            Some(c) => {
                if is_meta(c) {
                    Some((m_error_next(p), sl, None))
                } else {
                    match sp_paren(p, sl, (fuel - 1) as nat) {
                        None => None,
                        Some(step1) => {
                            let opstep = m_unaryop(step1.0);
                            let joined = m_unary_op(step1.1, step1.2, opstep.1);
                            Some((opstep.0, joined.0, joined.1))
                        },
                    }
                }
            },
        }
    }
}

/// PAREN, as the specification computes it.
pub open spec fn sp_paren(p: ParseState, sl: Seq<StateModel>, fuel: nat) -> Option<
    (ParseState, Seq<StateModel>, Option<FragModel>),
>
    decreases fuel, 0int,
{
    if fuel == 0 {
        None
    } else {
        match m_peek(p) {
            None => Some((m_error_next(p), sl, None)),
            Some(c) => {
                if c == '(' {
                    match sp_union(m_advance(p), sl, (fuel - 1) as nat) {
                        None => None,
                        Some(step1) => match m_peek(step1.0) {
                            Some(e) => if e == ')' {
                                Some((m_advance(step1.0), step1.1, step1.2))
                            } else {
                                Some((m_error_next(step1.0), step1.1, None))
                            },
                            None => Some((m_error_next(step1.0), step1.1, None)),
                        },
                    }
                } else if is_meta(c) {
                    Some((m_error_next(p), sl, None))
                } else {
                    Some(sp_term(p, sl))
                }
            },
        }
    }
}

/// What one whole compilation yields: the start index and the state
/// models on success, and how many diagnostics were raised.
pub struct ParseOutcome {
    pub ok: Option<(usize, Seq<StateModel>)>,
    pub nerr: int,
}

/// How a finished class-body scan relates to its specification outcome.
pub(crate) open spec fn class_outcome_ok(
    t: (ParseState, Option<(Set<char>, Set<char>)>),
    p: ParseState,
    failed: bool,
    inc: Set<char>,
    exc: Set<char>,
) -> bool {
    t.0 == p && (failed ==> t.1 is None) && (!failed ==> t.1 == Some((inc, exc)))
}

/// The whole pipeline, as the specification computes it: parse a UNION,
/// flag trailing input, and on a diagnostic-free parse seal the fragment
/// with a fresh `Match` state.
pub open spec fn sp_parse(input: Seq<char>, fuel: nat) -> Option<ParseOutcome> {
    let p0 = ParseState { chars: input, pos: 0, nerr: 0 };
    match sp_union(p0, Seq::empty(), fuel) {
        None => None,
        Some(step) => match step.2 {
            None => Some(ParseOutcome { ok: None, nerr: step.0.nerr }),
            Some(f) => {
                let p1 = if step.0.pos < input.len() {
                    m_error_next(step.0)
                } else {
                    step.0
                };
                if p1.nerr > 0 {
                    Some(ParseOutcome { ok: None, nerr: p1.nerr })
                } else {
                    Some(
                        ParseOutcome {
                            ok: Some(
                                (
                                    f.start,
                                    m_link_all(
                                        step.1.push(StateModel::Match),
                                        f.ends,
                                        (step.1.len() as usize),
                                    ),
                                ),
                            ),
                            nerr: 0,
                        },
                    )
                }
            },
        },
    }
}

/// Parsing `input` can yield outcome `o` (with enough fuel). By
/// `lemma_parse_outcome_unique` there is at most one such outcome: the
/// compilation result is a function of the pattern alone.
pub open spec fn parse_outcome_of(input: Seq<char>, o: ParseOutcome) -> bool {
    exists|fuel: nat| sp_parse(input, fuel) == Some(o)
}


/// Raising the fuel never changes a result that was already reached.
pub(crate) proof fn lemma_sp_union_mono(p: ParseState, sl: Seq<StateModel>, fuel: nat)
    requires
        sp_union(p, sl, fuel) is Some,
    ensures
        sp_union(p, sl, fuel + 1) == sp_union(p, sl, fuel),
    decreases fuel,
{
    if fuel > 0 {
        match m_peek(p) {
            None => {},
            Some(c) => {
                if !is_meta(c) {
                    match sp_concat(p, sl, (fuel - 1) as nat) {
                        None => {},
                        Some(s1) => {
                            lemma_sp_concat_mono(p, sl, (fuel - 1) as nat);
                            match sp_union_prime(s1.0, s1.1, (fuel - 1) as nat) {
                                None => {},
                                Some(s2) => {
                                    lemma_sp_union_prime_mono(s1.0, s1.1, (fuel - 1) as nat);
                                },
                            }
                        },
                    }
                }
            },
        }
    }
}

pub(crate) proof fn lemma_sp_union_prime_mono(p: ParseState, sl: Seq<StateModel>, fuel: nat)
    requires
        sp_union_prime(p, sl, fuel) is Some,
    ensures
        sp_union_prime(p, sl, fuel + 1) == sp_union_prime(p, sl, fuel),
    decreases fuel,
{
    if fuel > 0 {
        match m_peek(p) {
            None => {},
            Some(c) => {
                if c == '|' {
                    match sp_union(m_advance(p), sl, (fuel - 1) as nat) {
                        None => {},
                        Some(s1) => {
                            lemma_sp_union_mono(m_advance(p), sl, (fuel - 1) as nat);
                        },
                    }
                }
            },
        }
    }
}

pub(crate) proof fn lemma_sp_concat_mono(p: ParseState, sl: Seq<StateModel>, fuel: nat)
    requires
        sp_concat(p, sl, fuel) is Some,
    ensures
        sp_concat(p, sl, fuel + 1) == sp_concat(p, sl, fuel),
    decreases fuel,
{
    if fuel > 0 {
        match m_peek(p) {
            None => {},
            Some(c) => {
                if !is_meta(c) {
                    match sp_unary(p, sl, (fuel - 1) as nat) {
                        None => {},
                        Some(s1) => {
                            lemma_sp_unary_mono(p, sl, (fuel - 1) as nat);
                            match sp_concat_prime(s1.0, s1.1, (fuel - 1) as nat) {
                                None => {},
                                Some(s2) => {
                                    lemma_sp_concat_prime_mono(s1.0, s1.1, (fuel - 1) as nat);
                                },
                            }
                        },
                    }
                }
            },
        }
    }
}

pub(crate) proof fn lemma_sp_concat_prime_mono(p: ParseState, sl: Seq<StateModel>, fuel: nat)
    requires
        sp_concat_prime(p, sl, fuel) is Some,
    ensures
        sp_concat_prime(p, sl, fuel + 1) == sp_concat_prime(p, sl, fuel),
    decreases fuel,
{
    if fuel > 0 {
        match m_peek(p) {
            None => {},
            Some(c) => {
                if !(c == ')' || c == '|') && !(c == '*' || c == '?' || c == '+') {
                    match sp_concat(p, sl, (fuel - 1) as nat) {
                        None => {},
                        Some(s1) => {
                            lemma_sp_concat_mono(p, sl, (fuel - 1) as nat);
                        },
                    }
                }
            },
        }
    }
}

pub(crate) proof fn lemma_sp_unary_mono(p: ParseState, sl: Seq<StateModel>, fuel: nat)
    requires
        sp_unary(p, sl, fuel) is Some,
    ensures
        sp_unary(p, sl, fuel + 1) == sp_unary(p, sl, fuel),
    decreases fuel,
{
    if fuel > 0 {
        match m_peek(p) {
            None => {},
            Some(c) => {
                if !is_meta(c) {
                    match sp_paren(p, sl, (fuel - 1) as nat) {
                        None => {},
                        Some(s1) => {
                            lemma_sp_paren_mono(p, sl, (fuel - 1) as nat);
                        },
                    }
                }
            },
        }
    }
}

pub(crate) proof fn lemma_sp_paren_mono(p: ParseState, sl: Seq<StateModel>, fuel: nat)
    requires
        sp_paren(p, sl, fuel) is Some,
    ensures
        sp_paren(p, sl, fuel + 1) == sp_paren(p, sl, fuel),
    decreases fuel,
{
    if fuel > 0 {
        match m_peek(p) {
            None => {},
            Some(c) => {
                if c == '(' {
                    match sp_union(m_advance(p), sl, (fuel - 1) as nat) {
                        None => {},
                        Some(s1) => {
                            lemma_sp_union_mono(m_advance(p), sl, (fuel - 1) as nat);
                        },
                    }
                }
            },
        }
    }
}

/// As the step lemmas, for any larger fuel.
pub(crate) proof fn lemma_sp_union_mono_le(p: ParseState, sl: Seq<StateModel>, f1: nat, f2: nat)
    requires
        sp_union(p, sl, f1) is Some,
        f1 <= f2,
    ensures
        sp_union(p, sl, f2) == sp_union(p, sl, f1),
    decreases f2 - f1,
{
    if f2 > f1 {
        lemma_sp_union_mono_le(p, sl, f1, (f2 - 1) as nat);
        lemma_sp_union_mono(p, sl, (f2 - 1) as nat);
    }
}

pub(crate) proof fn lemma_sp_concat_mono_le(p: ParseState, sl: Seq<StateModel>, f1: nat, f2: nat)
    requires
        sp_concat(p, sl, f1) is Some,
        f1 <= f2,
    ensures
        sp_concat(p, sl, f2) == sp_concat(p, sl, f1),
    decreases f2 - f1,
{
    if f2 > f1 {
        lemma_sp_concat_mono_le(p, sl, f1, (f2 - 1) as nat);
        lemma_sp_concat_mono(p, sl, (f2 - 1) as nat);
    }
}

pub(crate) proof fn lemma_sp_union_prime_mono_le(
    p: ParseState,
    sl: Seq<StateModel>,
    f1: nat,
    f2: nat,
)
    requires
        sp_union_prime(p, sl, f1) is Some,
        f1 <= f2,
    ensures
        sp_union_prime(p, sl, f2) == sp_union_prime(p, sl, f1),
    decreases f2 - f1,
{
    if f2 > f1 {
        lemma_sp_union_prime_mono_le(p, sl, f1, (f2 - 1) as nat);
        lemma_sp_union_prime_mono(p, sl, (f2 - 1) as nat);
    }
}

pub(crate) proof fn lemma_sp_unary_mono_le(p: ParseState, sl: Seq<StateModel>, f1: nat, f2: nat)
    requires
        sp_unary(p, sl, f1) is Some,
        f1 <= f2,
    ensures
        sp_unary(p, sl, f2) == sp_unary(p, sl, f1),
    decreases f2 - f1,
{
    if f2 > f1 {
        lemma_sp_unary_mono_le(p, sl, f1, (f2 - 1) as nat);
        lemma_sp_unary_mono(p, sl, (f2 - 1) as nat);
    }
}

pub(crate) proof fn lemma_sp_concat_prime_mono_le(
    p: ParseState,
    sl: Seq<StateModel>,
    f1: nat,
    f2: nat,
)
    requires
        sp_concat_prime(p, sl, f1) is Some,
        f1 <= f2,
    ensures
        sp_concat_prime(p, sl, f2) == sp_concat_prime(p, sl, f1),
    decreases f2 - f1,
{
    if f2 > f1 {
        lemma_sp_concat_prime_mono_le(p, sl, f1, (f2 - 1) as nat);
        lemma_sp_concat_prime_mono(p, sl, (f2 - 1) as nat);
    }
}


/// With enough fuel, the UNION specification steps from the first state
/// and arena to the second, yielding `fr`.
pub(crate) open spec fn union_steps(
    p0: ParseState,
    sl0: Seq<StateModel>,
    p1: ParseState,
    sl1: Seq<StateModel>,
    fr: Option<FragModel>,
) -> bool {
    exists|fuel: nat| sp_union(p0, sl0, fuel) == Some((p1, sl1, fr))
}

pub(crate) open spec fn union_prime_steps(
    p0: ParseState,
    sl0: Seq<StateModel>,
    p1: ParseState,
    sl1: Seq<StateModel>,
    fr: Option<FragModel>,
) -> bool {
    exists|fuel: nat| sp_union_prime(p0, sl0, fuel) == Some((p1, sl1, fr))
}

pub(crate) open spec fn concat_steps(
    p0: ParseState,
    sl0: Seq<StateModel>,
    p1: ParseState,
    sl1: Seq<StateModel>,
    fr: Option<FragModel>,
) -> bool {
    exists|fuel: nat| sp_concat(p0, sl0, fuel) == Some((p1, sl1, fr))
}

pub(crate) open spec fn concat_prime_steps(
    p0: ParseState,
    sl0: Seq<StateModel>,
    p1: ParseState,
    sl1: Seq<StateModel>,
    fr: Option<FragModel>,
) -> bool {
    exists|fuel: nat| sp_concat_prime(p0, sl0, fuel) == Some((p1, sl1, fr))
}

pub(crate) open spec fn unary_steps(
    p0: ParseState,
    sl0: Seq<StateModel>,
    p1: ParseState,
    sl1: Seq<StateModel>,
    fr: Option<FragModel>,
) -> bool {
    exists|fuel: nat| sp_unary(p0, sl0, fuel) == Some((p1, sl1, fr))
}

pub(crate) open spec fn paren_steps(
    p0: ParseState,
    sl0: Seq<StateModel>,
    p1: ParseState,
    sl1: Seq<StateModel>,
    fr: Option<FragModel>,
) -> bool {
    exists|fuel: nat| sp_paren(p0, sl0, fuel) == Some((p1, sl1, fr))
}


/// Scanning a class body never loses diagnostics, and failure always
/// records one.
pub(crate) proof fn lemma_sp_class_errs(p: ParseState, inc: Set<char>, exc: Set<char>)
    ensures
        sp_class_body(p, inc, exc).0.nerr >= p.nerr,
        sp_class_body(p, inc, exc).1 is None ==> sp_class_body(p, inc, exc).0.nerr > p.nerr,
    decreases p.chars.len() - p.pos,
{
    match m_peek(p) {
        None => {},
        Some(b) => {
            let p1 = m_advance(p);
            if b == ']' {
            } else if b == '\\' {
                match m_peek(p1) {
                    None => {},
                    Some(e) => {
                        let p2 = m_advance(p1);
                        if e == ']' {
                            lemma_sp_class_errs(p2, inc.insert(']'), exc);
                        } else if e == '\\' {
                            lemma_sp_class_errs(p2, inc.insert('\\'), exc);
                        } else if e == 'w' {
                            lemma_sp_class_errs(p2, inc.union(spec_word_chars()), exc);
                        } else if e == 'W' {
                            lemma_sp_class_errs(p2, inc, exc.union(spec_word_chars()));
                        } else if e == 'd' {
                            lemma_sp_class_errs(p2, inc.union(spec_digits()), exc);
                        } else if e == 'D' {
                            lemma_sp_class_errs(p2, inc, exc.union(spec_digits()));
                        } else if e == 's' {
                            lemma_sp_class_errs(p2, inc.union(spec_whitespace()), exc);
                        } else if e == 'S' {
                            lemma_sp_class_errs(p2, inc, exc.union(spec_whitespace()));
                        }
                    },
                }
            } else if (b as u32) < 128 {
                if m_peek(p1) == Some('-') {
                    let p2 = m_advance(p1);
                    match m_peek(p2) {
                        None => {},
                        Some(h) => {
                            let p3 = m_advance(p2);
                            if (h as u32) < 128 && !((h as u8) < (b as u8)) {
                                lemma_sp_class_errs(
                                    p3,
                                    inc.union(spec_char_range(b as u8, h as u8)),
                                    exc,
                                );
                            }
                        },
                    }
                } else {
                    lemma_sp_class_errs(p1, inc.insert(b), exc);
                }
            } else {
                lemma_sp_class_errs(p1, inc.insert(b), exc);
            }
        },
    }
}

/// Parsing a term never loses diagnostics, and failure always records one.
pub(crate) proof fn lemma_sp_term_errs(p: ParseState, sl: Seq<StateModel>)
    ensures
        sp_term(p, sl).0.nerr >= p.nerr,
        sp_term(p, sl).2 is None ==> sp_term(p, sl).0.nerr > p.nerr,
{
    match m_peek(p) {
        None => {},
        Some(c) => {
            if c == '[' {
                let p1 = m_advance(p);
                let negate = m_peek(p1) == Some('^');
                let p2 = if negate {
                    m_advance(p1)
                } else {
                    p1
                };
                lemma_sp_class_errs(p2, Set::empty(), Set::empty());
            }
        },
    }
}

/// Every production leaves the diagnostic count no smaller, and the
/// productions that must deliver a fragment record a diagnostic whenever
/// they deliver none.
pub(crate) proof fn lemma_sp_union_errs(p: ParseState, sl: Seq<StateModel>, fuel: nat)
    requires
        sp_union(p, sl, fuel) is Some,
    ensures
        ({
            let step = sp_union(p, sl, fuel).unwrap();
            step.0.nerr >= p.nerr && (step.2 is None ==> step.0.nerr > p.nerr)
        }),
    decreases fuel, 4int,
{
    if fuel > 0 {
        match m_peek(p) {
            None => {},
            Some(c) => {
                if !is_meta(c) {
                    match sp_concat(p, sl, (fuel - 1) as nat) {
                        None => {},
                        Some(s1) => {
                            lemma_sp_concat_errs(p, sl, (fuel - 1) as nat);
                            match sp_union_prime(s1.0, s1.1, (fuel - 1) as nat) {
                                None => {},
                                Some(s2) => {
                                    lemma_sp_union_prime_errs(s1.0, s1.1, (fuel - 1) as nat);
                                },
                            }
                        },
                    }
                }
            },
        }
    }
}

pub(crate) proof fn lemma_sp_union_prime_errs(p: ParseState, sl: Seq<StateModel>, fuel: nat)
    requires
        sp_union_prime(p, sl, fuel) is Some,
    ensures
        sp_union_prime(p, sl, fuel).unwrap().0.nerr >= p.nerr,
    decreases fuel, 3int,
{
    if fuel > 0 {
        match m_peek(p) {
            None => {},
            Some(c) => {
                if c == '|' {
                    match sp_union(m_advance(p), sl, (fuel - 1) as nat) {
                        None => {},
                        Some(s1) => {
                            lemma_sp_union_errs(m_advance(p), sl, (fuel - 1) as nat);
                        },
                    }
                }
            },
        }
    }
}

pub(crate) proof fn lemma_sp_concat_errs(p: ParseState, sl: Seq<StateModel>, fuel: nat)
    requires
        sp_concat(p, sl, fuel) is Some,
    ensures
        ({
            let step = sp_concat(p, sl, fuel).unwrap();
            step.0.nerr >= p.nerr && (step.2 is None ==> step.0.nerr > p.nerr)
        }),
    decreases fuel, 2int,
{
    if fuel > 0 {
        match m_peek(p) {
            None => {},
            Some(c) => {
                if !is_meta(c) {
                    match sp_unary(p, sl, (fuel - 1) as nat) {
                        None => {},
                        Some(s1) => {
                            lemma_sp_unary_errs(p, sl, (fuel - 1) as nat);
                            match sp_concat_prime(s1.0, s1.1, (fuel - 1) as nat) {
                                None => {},
                                Some(s2) => {
                                    lemma_sp_concat_prime_errs(s1.0, s1.1, (fuel - 1) as nat);
                                },
                            }
                        },
                    }
                }
            },
        }
    }
}

pub(crate) proof fn lemma_sp_concat_prime_errs(p: ParseState, sl: Seq<StateModel>, fuel: nat)
    requires
        sp_concat_prime(p, sl, fuel) is Some,
    ensures
        sp_concat_prime(p, sl, fuel).unwrap().0.nerr >= p.nerr,
    decreases fuel, 1int,
{
    if fuel > 0 {
        match m_peek(p) {
            None => {},
            Some(c) => {
                if !(c == ')' || c == '|') && !(c == '*' || c == '?' || c == '+') {
                    match sp_concat(p, sl, (fuel - 1) as nat) {
                        None => {},
                        Some(s1) => {
                            lemma_sp_concat_errs(p, sl, (fuel - 1) as nat);
                        },
                    }
                }
            },
        }
    }
}

pub(crate) proof fn lemma_sp_unary_errs(p: ParseState, sl: Seq<StateModel>, fuel: nat)
    requires
        sp_unary(p, sl, fuel) is Some,
    ensures
        ({
            let step = sp_unary(p, sl, fuel).unwrap();
            step.0.nerr >= p.nerr && (step.2 is None ==> step.0.nerr > p.nerr)
        }),
    decreases fuel, 1int,
{
    if fuel > 0 {
        match m_peek(p) {
            None => {},
            Some(c) => {
                if !is_meta(c) {
                    match sp_paren(p, sl, (fuel - 1) as nat) {
                        None => {},
                        Some(s1) => {
                            lemma_sp_paren_errs(p, sl, (fuel - 1) as nat);
                        },
                    }
                }
            },
        }
    }
}

pub(crate) proof fn lemma_sp_paren_errs(p: ParseState, sl: Seq<StateModel>, fuel: nat)
    requires
        sp_paren(p, sl, fuel) is Some,
    ensures
        ({
            let step = sp_paren(p, sl, fuel).unwrap();
            step.0.nerr >= p.nerr && (step.2 is None ==> step.0.nerr > p.nerr)
        }),
    decreases fuel, 0int,
{
    if fuel > 0 {
        match m_peek(p) {
            None => {},
            Some(c) => {
                if c == '(' {
                    match sp_union(m_advance(p), sl, (fuel - 1) as nat) {
                        None => {},
                        Some(s1) => {
                            lemma_sp_union_errs(m_advance(p), sl, (fuel - 1) as nat);
                        },
                    }
                } else if !is_meta(c) {
                    lemma_sp_term_errs(p, sl);
                }
            },
        }
    }
}

/// A pattern parses to an automaton exactly when it raises no
/// diagnostics: the one outcome of a pattern holds an automaton when its
/// diagnostic count is zero, and only then.
pub proof fn lemma_outcome_classifies(input: Seq<char>, o: ParseOutcome)
    requires
        parse_outcome_of(input, o),
    ensures
        o.ok is Some <==> o.nerr == 0,
{
    let fuel = choose|fuel: nat| sp_parse(input, fuel) == Some(o);
    let p0 = ParseState { chars: input, pos: 0, nerr: 0 };
    match sp_union(p0, Seq::<StateModel>::empty(), fuel) {
        None => {},
        Some(step) => {
            lemma_sp_union_errs(p0, Seq::<StateModel>::empty(), fuel);
        },
    }
}

/// The parser's state: the pattern as characters, the cursor, and the
/// offsets at which diagnostics were raised, in order.
pub struct Parser {
    chars: Vec<char>,
    pos: usize,
    errors: Vec<u32>,
}

impl Parser {
    /// The cursor never leaves the input, and every offset fits the error
    /// type.
    pub closed spec fn wf(&self) -> bool {
        self.pos <= self.chars@.len() && self.chars@.len() <= u32::MAX
    }

    /// This parser's state, as the specification sees it.
    pub closed spec fn model(&self) -> ParseState {
        ParseState {
            chars: self.chars@,
            pos: self.pos as int,
            nerr: self.errors@.len() as int,
        }
    }

    fn new(s: &str) -> (r: Parser)
        requires
            s@.len() <= u32::MAX,
        ensures
            r.wf(),
            r.chars@ == s@,
            r.pos == 0,
            r.errors@.len() == 0,
    {
        Parser { chars: to_char_vec(s), pos: 0, errors: Vec::new() }
    }

    /// The next unconsumed character, if any.
    fn peek(&self) -> (r: Option<char>)
        ensures
            self.pos < self.chars@.len() ==> r == Some(self.chars@[self.pos as int]),
            self.pos >= self.chars@.len() ==> r is None,
    {
        if self.pos < self.chars.len() {
            Some(self.chars[self.pos])
        } else {
            None
        }
    }

    /// Consumes and returns the next character, if any.
    fn consume(&mut self) -> (r: Option<char>)
        requires
            old(self).wf(),
        ensures
            final(self).wf(),
            final(self).chars@ == old(self).chars@,
            final(self).errors@ == old(self).errors@,
            old(self).pos < old(self).chars@.len() ==> r == Some(
                old(self).chars@[old(self).pos as int],
            ) && final(self).pos == old(self).pos + 1,
            old(self).pos >= old(self).chars@.len() ==> r is None && final(self).pos == old(
                self,
            ).pos,
    {
        if self.pos < self.chars.len() {
            let c = self.chars[self.pos];
            self.pos = self.pos + 1;
            Some(c)
        } else {
            None
        }
    }

    /// Records a diagnostic at offset `p`.
    fn error_at(&mut self, p: usize)
        requires
            old(self).wf(),
            p <= old(self).chars@.len(),
        ensures
            final(self).wf(),
            final(self).chars@ == old(self).chars@,
            final(self).pos == old(self).pos,
            final(self).errors@ == old(self).errors@.push(p as u32),
    {
        self.errors.push(p as u32);
    }

    /// Records a diagnostic at the current offset and steps past the
    /// offending character, if there is one.
    fn error_next(&mut self)
        requires
            old(self).wf(),
        ensures
            final(self).wf(),
            final(self).chars@ == old(self).chars@,
            final(self).errors@ == old(self).errors@.push(old(self).pos as u32),
            old(self).pos < old(self).chars@.len() ==> final(self).pos == old(self).pos + 1,
            old(self).pos >= old(self).chars@.len() ==> final(self).pos == old(self).pos,
    {
        let p = self.pos;
        self.error_at(p);
        if self.pos < self.chars.len() {
            self.pos = self.pos + 1;
        }
    }

    /// Records a diagnostic at the current offset without consuming.
    fn error_cur(&mut self)
        requires
            old(self).wf(),
        ensures
            final(self).wf(),
            final(self).chars@ == old(self).chars@,
            final(self).pos == old(self).pos,
            final(self).errors@ == old(self).errors@.push(old(self).pos as u32),
    {
        let p = self.pos;
        self.error_at(p);
    }

    /// UNION := CONCAT ('|' CONCAT)*, right-folded through
    /// `parse_union_prime`.
    fn parse_union(&mut self, sl: &mut StateList) -> (r: Option<Fragment>)
        requires
            old(self).wf(),
            states_refs_wf(old(sl).states@),
        ensures
            final(self).wf(),
            final(self).chars@ == old(self).chars@,
            final(self).pos >= old(self).pos,
            old(self).errors@.is_prefix_of(final(self).errors@),
            r is None ==> final(self).errors@.len() > old(self).errors@.len(),
            states_refs_wf(final(sl).states@),
            final(sl).states@.len() >= old(sl).states@.len(),
            opt_frag_wf(r, final(sl).states@.len() as int),
            union_steps(
                old(self).model(),
                models_of(old(sl).states@),
                final(self).model(),
                models_of(final(sl).states@),
                opt_frag_model(r),
            ),
        decreases self.chars@.len() - self.pos, 5int,
    {
        let ghost p0 = self.model();
        let ghost sl0 = models_of(sl.states@);
        match self.peek() {
            None => {
                self.error_next();
                proof {
                    assert(sp_union(p0, sl0, 1nat) == Some(
                        (m_error_next(p0), sl0, None::<FragModel>),
                    ));
                    assert(self.model() == m_error_next(p0));
                }
                None
            },
            Some(c) => {
                if c == ')' || c == '*' || c == '?' || c == '+' || c == '|' {
                    self.error_next();
                    proof {
                        assert(sp_union(p0, sl0, 1nat) == Some(
                            (m_error_next(p0), sl0, None::<FragModel>),
                        ));
                        assert(self.model() == m_error_next(p0));
                    }
                    None
                } else {
                    let l = self.parse_concat(sl);
                    let ghost p1 = self.model();
                    let ghost m1 = models_of(sl.states@);
                    let ghost lm = opt_frag_model(l);
                    proof {
                        assert(concat_steps(p0, sl0, p1, m1, lm));
                    }
                    let ghost fu1 = choose|fuel: nat|
                        sp_concat(p0, sl0, fuel) == Some((p1, m1, lm));
                    let r = self.parse_union_prime(sl);
                    let ghost p2 = self.model();
                    let ghost m2 = models_of(sl.states@);
                    let ghost rm = opt_frag_model(r);
                    proof {
                        assert(union_prime_steps(p1, m1, p2, m2, rm));
                    }
                    let ghost fu2 = choose|fuel: nat|
                        sp_union_prime(p1, m1, fuel) == Some((p2, m2, rm));
                    let res = sl.union(l, r);
                    proof {
                        let fb = fu1 + fu2;
                        lemma_sp_concat_mono_le(p0, sl0, fu1, fb);
                        lemma_sp_union_prime_mono_le(p1, m1, fu2, fb);
                        assert(sp_union(p0, sl0, fb + 1) == Some(
                            (p2, models_of(sl.states@), opt_frag_model(res)),
                        ));
                    }
                    res
                }
            },
        }
    }

    /// The tail of a union: either a further `'|' UNION`, or nothing (at
    /// `)` or the end of the input). Anything else is a diagnostic.
    /// An absent result here is a sentinel, not necessarily an error.
    fn parse_union_prime(&mut self, sl: &mut StateList) -> (r: Option<Fragment>)
        requires
            old(self).wf(),
            states_refs_wf(old(sl).states@),
        ensures
            final(self).wf(),
            final(self).chars@ == old(self).chars@,
            final(self).pos >= old(self).pos,
            old(self).errors@.is_prefix_of(final(self).errors@),
            states_refs_wf(final(sl).states@),
            final(sl).states@.len() >= old(sl).states@.len(),
            opt_frag_wf(r, final(sl).states@.len() as int),
            union_prime_steps(
                old(self).model(),
                models_of(old(sl).states@),
                final(self).model(),
                models_of(final(sl).states@),
                opt_frag_model(r),
            ),
        decreases self.chars@.len() - self.pos, 6int,
    {
        let ghost p0 = self.model();
        let ghost sl0 = models_of(sl.states@);
        match self.peek() {
            None => {
                proof {
                    assert(sp_union_prime(p0, sl0, 1nat) == Some((p0, sl0, None::<FragModel>)));
                }
                None
            },
            Some(c) => {
                if c == ')' {
                    proof {
                        assert(sp_union_prime(p0, sl0, 1nat) == Some(
                            (p0, sl0, None::<FragModel>),
                        ));
                    }
                    None
                } else if c == '|' {
                    self.consume();
                    let ghost pc = self.model();
                    proof {
                        assert(pc == m_advance(p0));
                    }
                    let r = self.parse_union(sl);
                    proof {
                        assert(union_steps(
                            pc,
                            sl0,
                            self.model(),
                            models_of(sl.states@),
                            opt_frag_model(r),
                        ));
                        let fu = choose|fuel: nat|
                            sp_union(pc, sl0, fuel) == Some(
                                (self.model(), models_of(sl.states@), opt_frag_model(r)),
                            );
                        assert(sp_union(m_advance(p0), sl0, fu) == Some(
                            (self.model(), models_of(sl.states@), opt_frag_model(r)),
                        ));
                        assert(sp_union_prime(p0, sl0, fu + 1) == Some(
                            (self.model(), models_of(sl.states@), opt_frag_model(r)),
                        ));
                    }
                    r
                } else {
                    self.error_next();
                    proof {
                        assert(sp_union_prime(p0, sl0, 1nat) == Some(
                            (m_error_next(p0), sl0, None::<FragModel>),
                        ));
                        assert(self.model() == m_error_next(p0));
                    }
                    None
                }
            },
        }
    }

    /// CONCAT := UNARY+, right-folded through `parse_concat_prime`.
    fn parse_concat(&mut self, sl: &mut StateList) -> (r: Option<Fragment>)
        requires
            old(self).wf(),
            states_refs_wf(old(sl).states@),
        ensures
            final(self).wf(),
            final(self).chars@ == old(self).chars@,
            final(self).pos >= old(self).pos,
            old(self).pos < old(self).chars@.len() ==> final(self).pos > old(self).pos,
            old(self).errors@.is_prefix_of(final(self).errors@),
            r is None ==> final(self).errors@.len() > old(self).errors@.len(),
            states_refs_wf(final(sl).states@),
            final(sl).states@.len() >= old(sl).states@.len(),
            opt_frag_wf(r, final(sl).states@.len() as int),
            concat_steps(
                old(self).model(),
                models_of(old(sl).states@),
                final(self).model(),
                models_of(final(sl).states@),
                opt_frag_model(r),
            ),
        decreases self.chars@.len() - self.pos, 3int,
    {
        let ghost p0 = self.model();
        let ghost sl0 = models_of(sl.states@);
        match self.peek() {
            None => {
                self.error_next();
                proof {
                    assert(sp_concat(p0, sl0, 1nat) == Some(
                        (m_error_next(p0), sl0, None::<FragModel>),
                    ));
                    assert(self.model() == m_error_next(p0));
                }
                None
            },
            Some(c) => {
                if c == ')' || c == '*' || c == '?' || c == '+' || c == '|' {
                    self.error_next();
                    proof {
                        assert(sp_concat(p0, sl0, 1nat) == Some(
                            (m_error_next(p0), sl0, None::<FragModel>),
                        ));
                        assert(self.model() == m_error_next(p0));
                    }
                    None
                } else {
                    let l = self.parse_unary(sl);
                    let ghost p1 = self.model();
                    let ghost m1 = models_of(sl.states@);
                    let ghost lm = opt_frag_model(l);
                    proof {
                        assert(unary_steps(p0, sl0, p1, m1, lm));
                    }
                    let ghost fu1 = choose|fuel: nat|
                        sp_unary(p0, sl0, fuel) == Some((p1, m1, lm));
                    let r = self.parse_concat_prime(sl);
                    let ghost p2 = self.model();
                    let ghost m2 = models_of(sl.states@);
                    let ghost rm = opt_frag_model(r);
                    proof {
                        assert(concat_prime_steps(p1, m1, p2, m2, rm));
                    }
                    let ghost fu2 = choose|fuel: nat|
                        sp_concat_prime(p1, m1, fuel) == Some((p2, m2, rm));
                    let res = sl.concatenation(l, r);
                    proof {
                        let fb = fu1 + fu2;
                        lemma_sp_unary_mono_le(p0, sl0, fu1, fb);
                        lemma_sp_concat_prime_mono_le(p1, m1, fu2, fb);
                        assert(sp_concat(p0, sl0, fb + 1) == Some(
                            (p2, models_of(sl.states@), opt_frag_model(res)),
                        ));
                    }
                    res
                }
            },
        }
    }

    /// The tail of a concatenation: a further CONCAT when the next
    /// character can start a term, nothing at `)`, `|` or the end, and a
    /// diagnostic at a stray postfix operator.
    /// An absent result here is a sentinel, not necessarily an error.
    fn parse_concat_prime(&mut self, sl: &mut StateList) -> (r: Option<Fragment>)
        requires
            old(self).wf(),
            states_refs_wf(old(sl).states@),
        ensures
            final(self).wf(),
            final(self).chars@ == old(self).chars@,
            final(self).pos >= old(self).pos,
            old(self).errors@.is_prefix_of(final(self).errors@),
            states_refs_wf(final(sl).states@),
            final(sl).states@.len() >= old(sl).states@.len(),
            opt_frag_wf(r, final(sl).states@.len() as int),
            concat_prime_steps(
                old(self).model(),
                models_of(old(sl).states@),
                final(self).model(),
                models_of(final(sl).states@),
                opt_frag_model(r),
            ),
        decreases self.chars@.len() - self.pos, 4int,
    {
        let ghost p0 = self.model();
        let ghost sl0 = models_of(sl.states@);
        match self.peek() {
            None => {
                proof {
                    assert(sp_concat_prime(p0, sl0, 1nat) == Some((p0, sl0, None::<FragModel>)));
                }
                None
            },
            Some(c) => {
                if c == ')' || c == '|' {
                    proof {
                        assert(sp_concat_prime(p0, sl0, 1nat) == Some(
                            (p0, sl0, None::<FragModel>),
                        ));
                    }
                    None
                } else if c == '*' || c == '?' || c == '+' {
                    self.error_next();
                    proof {
                        assert(sp_concat_prime(p0, sl0, 1nat) == Some(
                            (m_error_next(p0), sl0, None::<FragModel>),
                        ));
                        assert(self.model() == m_error_next(p0));
                    }
                    None
                } else {
                    let r = self.parse_concat(sl);
                    proof {
                        assert(concat_steps(
                            p0,
                            sl0,
                            self.model(),
                            models_of(sl.states@),
                            opt_frag_model(r),
                        ));
                        let fu = choose|fuel: nat|
                            sp_concat(p0, sl0, fuel) == Some(
                                (self.model(), models_of(sl.states@), opt_frag_model(r)),
                            );
                        assert(sp_concat_prime(p0, sl0, fu + 1) == Some(
                            (self.model(), models_of(sl.states@), opt_frag_model(r)),
                        ));
                    }
                    r
                }
            },
        }
    }

    /// UNARY := PAREN ['*' | '?' | '+'].
    fn parse_unary(&mut self, sl: &mut StateList) -> (r: Option<Fragment>)
        requires
            old(self).wf(),
            states_refs_wf(old(sl).states@),
        ensures
            final(self).wf(),
            final(self).chars@ == old(self).chars@,
            final(self).pos >= old(self).pos,
            old(self).pos < old(self).chars@.len() ==> final(self).pos > old(self).pos,
            old(self).errors@.is_prefix_of(final(self).errors@),
            r is None ==> final(self).errors@.len() > old(self).errors@.len(),
            states_refs_wf(final(sl).states@),
            final(sl).states@.len() >= old(sl).states@.len(),
            opt_frag_wf(r, final(sl).states@.len() as int),
            unary_steps(
                old(self).model(),
                models_of(old(sl).states@),
                final(self).model(),
                models_of(final(sl).states@),
                opt_frag_model(r),
            ),
        decreases self.chars@.len() - self.pos, 2int,
    {
        let ghost p0 = self.model();
        let ghost sl0 = models_of(sl.states@);
        match self.peek() {
            None => {
                self.error_next();
                proof {
                    assert(sp_unary(p0, sl0, 1nat) == Some(
                        (m_error_next(p0), sl0, None::<FragModel>),
                    ));
                    assert(self.model() == m_error_next(p0));
                }
                None
            },
            Some(c) => {
                if c == ')' || c == '*' || c == '?' || c == '+' || c == '|' {
                    self.error_next();
                    proof {
                        assert(sp_unary(p0, sl0, 1nat) == Some(
                            (m_error_next(p0), sl0, None::<FragModel>),
                        ));
                        assert(self.model() == m_error_next(p0));
                    }
                    None
                } else {
                    let l = self.parse_paren(sl);
                    let ghost p1 = self.model();
                    let ghost m1 = models_of(sl.states@);
                    let ghost lm = opt_frag_model(l);
                    proof {
                        assert(paren_steps(p0, sl0, p1, m1, lm));
                    }
                    let ghost fu = choose|fuel: nat| sp_paren(p0, sl0, fuel) == Some((p1, m1, lm));
                    let op = self.parse_unaryop();
                    let r = sl.unary_operator(l, op);
                    proof {
                        assert(m_unaryop(p1) == (self.model(), op));
                        assert(sp_unary(p0, sl0, fu + 1) == Some(
                            (self.model(), models_of(sl.states@), opt_frag_model(r)),
                        ));
                    }
                    r
                }
            },
        }
    }

    /// The optional postfix operator of a UNARY.
    fn parse_unaryop(&mut self) -> (r: Option<char>)
        requires
            old(self).wf(),
        ensures
            final(self).wf(),
            final(self).chars@ == old(self).chars@,
            final(self).errors@ == old(self).errors@,
            final(self).pos >= old(self).pos,
            (final(self).model(), r) == m_unaryop(old(self).model()),
    {
        match self.peek() {
            Some(c) => {
                if c == '*' || c == '?' || c == '+' {
                    self.consume()
                } else {
                    None
                }
            },
            None => None,
        }
    }

    /// PAREN := TERM | '(' UNION ')'.
    fn parse_paren(&mut self, sl: &mut StateList) -> (r: Option<Fragment>)
        requires
            old(self).wf(),
            states_refs_wf(old(sl).states@),
        ensures
            final(self).wf(),
            final(self).chars@ == old(self).chars@,
            final(self).pos >= old(self).pos,
            old(self).pos < old(self).chars@.len() ==> final(self).pos > old(self).pos,
            old(self).errors@.is_prefix_of(final(self).errors@),
            r is None ==> final(self).errors@.len() > old(self).errors@.len(),
            states_refs_wf(final(sl).states@),
            final(sl).states@.len() >= old(sl).states@.len(),
            opt_frag_wf(r, final(sl).states@.len() as int),
            paren_steps(
                old(self).model(),
                models_of(old(sl).states@),
                final(self).model(),
                models_of(final(sl).states@),
                opt_frag_model(r),
            ),
        decreases self.chars@.len() - self.pos, 1int,
    {
        let ghost p0 = self.model();
        let ghost sl0 = models_of(sl.states@);
        match self.peek() {
            None => {
                self.error_next();
                proof {
                    assert(sp_paren(p0, sl0, 1nat) == Some(
                        (m_error_next(p0), sl0, None::<FragModel>),
                    ));
                    assert(self.model() == m_error_next(p0));
                }
                None
            },
            Some(c) => {
                if c == '(' {
                    self.consume();
                    let ghost pc = self.model();
                    proof {
                        assert(pc == m_advance(p0));
                    }
                    let fragment = self.parse_union(sl);
                    let ghost p1 = self.model();
                    let ghost m1 = models_of(sl.states@);
                    let ghost gfr = opt_frag_model(fragment);
                    proof {
                        assert(union_steps(pc, sl0, p1, m1, gfr));
                    }
                    let ghost fu = choose|fuel: nat| sp_union(pc, sl0, fuel) == Some((p1, m1, gfr));
                    proof {
                        assert(sp_union(m_advance(p0), sl0, fu) == Some((p1, m1, gfr)));
                    }
                    match self.peek() {
                        Some(e) => {
                            if e == ')' {
                                self.consume();
                                proof {
                                    assert(sp_paren(p0, sl0, fu + 1) == Some(
                                        (m_advance(p1), m1, gfr),
                                    ));
                                    assert(self.model() == m_advance(p1));
                                }
                                fragment
                            } else {
                                self.error_next();
                                proof {
                                    assert(sp_paren(p0, sl0, fu + 1) == Some(
                                        (m_error_next(p1), m1, None::<FragModel>),
                                    ));
                                    assert(self.model() == m_error_next(p1));
                                }
                                None
                            }
                        },
                        None => {
                            self.error_next();
                            proof {
                                assert(sp_paren(p0, sl0, fu + 1) == Some(
                                    (m_error_next(p1), m1, None::<FragModel>),
                                ));
                                assert(self.model() == m_error_next(p1));
                            }
                            None
                        },
                    }
                } else if c == ')' || c == '*' || c == '?' || c == '+' || c == '|' {
                    self.error_next();
                    proof {
                        assert(sp_paren(p0, sl0, 1nat) == Some(
                            (m_error_next(p0), sl0, None::<FragModel>),
                        ));
                        assert(self.model() == m_error_next(p0));
                    }
                    None
                } else {
                    let r = self.parse_term(sl);
                    proof {
                        assert(sp_paren(p0, sl0, 1nat) == Some(sp_term(p0, sl0)));
                    }
                    r
                }
            },
        }
    }

    /// TERM := literal | `.` | `\` ESCAPE | `[` [`^`] CLASSBODY `]`.
    ///
    /// Escapes: `w`/`W` give the word-character class or its complement,
    /// `d`/`D` the digit class, `s`/`S` the whitespace class; `* + \ ( ) .`
    /// stand for themselves; anything else is a diagnostic at the escape.
    ///
    /// A class body is a sequence of single characters, ASCII ranges
    /// `c1-c2` (half-open, a diagnostic when `c2 < c1`), class escapes, and
    /// the escaped literals `\]` and `\\`. A leading `^` swaps the
    /// inclusive and exclusive roles of the collected characters. A class
    /// that is not closed by `]` is a diagnostic.
    fn parse_term(&mut self, sl: &mut StateList) -> (r: Option<Fragment>)
        requires
            old(self).wf(),
            states_refs_wf(old(sl).states@),
        ensures
            final(self).wf(),
            final(self).chars@ == old(self).chars@,
            final(self).pos >= old(self).pos,
            old(self).pos < old(self).chars@.len() ==> final(self).pos > old(self).pos,
            old(self).errors@.is_prefix_of(final(self).errors@),
            r is None ==> final(self).errors@.len() > old(self).errors@.len(),
            states_refs_wf(final(sl).states@),
            final(sl).states@.len() >= old(sl).states@.len(),
            opt_frag_wf(r, final(sl).states@.len() as int),
            sp_term(old(self).model(), models_of(old(sl).states@)) == (
                final(self).model(),
                models_of(final(sl).states@),
                opt_frag_model(r),
            ),
    {
        match self.peek() {
            None => {
                self.error_next();
                None
            },
            Some(c) => {
                if c == '(' || c == ')' || c == '*' || c == '?' || c == '+' || c == '|' {
                    self.error_next();
                    None
                } else if c == '.' {
                    self.consume();
                    let set = CharSet::new();
                    let ghost before = sl.states@;
                    let frag = sl.characters(set);
                    proof {
                        lemma_characters_model(before, sl.states@, frag, Set::empty());
                    }
                    Some(frag)
                } else if c == '\\' {
                    let esc_pos = self.pos;
                    self.consume();
                    match self.consume() {
                        Some(e) => {
                            if e == 'w' {
                                let ghost before = sl.states@;
                                let frag = sl.characters(character_sets::word_chars());
                                proof {
                                    lemma_characters_model(
                                        before,
                                        sl.states@,
                                        frag,
                                        spec_word_chars(),
                                    );
                                }
                                Some(frag)
                            } else if e == 'W' {
                                let ghost before = sl.states@;
                                let frag = sl.non_characters(character_sets::word_chars());
                                proof {
                                    lemma_non_characters_model(
                                        before,
                                        sl.states@,
                                        frag,
                                        spec_word_chars(),
                                    );
                                }
                                Some(frag)
                            } else if e == 'd' {
                                let ghost before = sl.states@;
                                let frag = sl.characters(character_sets::digits());
                                proof {
                                    lemma_characters_model(before, sl.states@, frag, spec_digits());
                                }
                                Some(frag)
                            } else if e == 'D' {
                                let ghost before = sl.states@;
                                let frag = sl.non_characters(character_sets::digits());
                                proof {
                                    lemma_non_characters_model(
                                        before,
                                        sl.states@,
                                        frag,
                                        spec_digits(),
                                    );
                                }
                                Some(frag)
                            } else if e == 's' {
                                let ghost before = sl.states@;
                                let frag = sl.characters(character_sets::whitespace());
                                proof {
                                    lemma_characters_model(
                                        before,
                                        sl.states@,
                                        frag,
                                        spec_whitespace(),
                                    );
                                }
                                Some(frag)
                            } else if e == 'S' {
                                let ghost before = sl.states@;
                                let frag = sl.non_characters(character_sets::whitespace());
                                proof {
                                    lemma_non_characters_model(
                                        before,
                                        sl.states@,
                                        frag,
                                        spec_whitespace(),
                                    );
                                }
                                Some(frag)
                            } else if e == '*' || e == '+' || e == '\\' || e == '(' || e == ')' || e
                                == '.' {
                                let ghost before = sl.states@;
                                let frag = sl.character(e);
                                proof {
                                    lemma_characters_model(
                                        before,
                                        sl.states@,
                                        frag,
                                        Set::empty().insert(e),
                                    );
                                }
                                Some(frag)
                            } else {
                                self.error_at(esc_pos);
                                None
                            }
                        },
                        None => {
                            self.error_at(esc_pos);
                            None
                        },
                    }
                } else if c == '[' {
                    self.consume();
                    let mut negate = false;
                    let mut inclusive = CharSet::new();
                    let mut exclusive = CharSet::new();
                    match self.peek() {
                        Some(h) => {
                            if h == '^' {
                                self.consume();
                                negate = true;
                            }
                        },
                        None => {},
                    }
                    let ghost entry_errors = self.errors@;
                    let ghost entry_pos = self.pos;
                    let ghost p_start = self.model();
                    proof {
                        assert(inclusive@ =~= Set::<char>::empty());
                        assert(exclusive@ =~= Set::<char>::empty());
                    }
                    let mut done = false;
                    let mut failed = false;
                    while !done
                        invariant
                            self.wf(),
                            self.chars@ == old(self).chars@,
                            self.pos >= entry_pos,
                            entry_errors.is_prefix_of(self.errors@),
                            failed ==> self.errors@.len() > entry_errors.len(),
                            failed ==> done,
                            p_start.chars == self.chars@,
                            !done ==> sp_class_body(self.model(), inclusive@, exclusive@)
                                == sp_class_body(p_start, Set::empty(), Set::empty()),
                            done ==> class_outcome_ok(
                                sp_class_body(p_start, Set::empty(), Set::empty()),
                                self.model(),
                                failed,
                                inclusive@,
                                exclusive@,
                            ),
                        decreases self.chars@.len() - self.pos + (if done {
                            0int
                        } else {
                            1int
                        }),
                    {
                        let ghost p_cur = self.model();
                        let ghost inc_cur = inclusive@;
                        let ghost exc_cur = exclusive@;
                        match self.consume() {
                            None => {
                                self.error_cur();
                                failed = true;
                                done = true;
                                proof {
                                    assert(m_peek(p_cur) is None);
                                    assert(sp_class_body(p_cur, inc_cur, exc_cur) == (
                                        m_error_here(p_cur),
                                        None::<(Set<char>, Set<char>)>,
                                    ));
                                    assert(self.model() == m_error_here(p_cur));
                                }
                            },
                            Some(b) => {
                                if b == ']' {
                                    done = true;
                                    proof {
                                        assert(m_peek(p_cur) == Some(']'));
                                        assert(sp_class_body(p_cur, inc_cur, exc_cur) == (
                                            m_advance(p_cur),
                                            Some((inc_cur, exc_cur)),
                                        ));
                                        assert(self.model() == m_advance(p_cur));
                                    }
                                } else if b == '\\' {
                                    let esc_pos = self.pos;
                                    match self.consume() {
                                        Some(e) => {
                                            if e == ']' {
                                                inclusive.insert(']');
                                            } else if e == '\\' {
                                                inclusive.insert('\\');
                                            } else if e == 'w' {
                                                inclusive.extend(&character_sets::word_chars());
                                            } else if e == 'W' {
                                                exclusive.extend(&character_sets::word_chars());
                                            } else if e == 'd' {
                                                inclusive.extend(&character_sets::digits());
                                            } else if e == 'D' {
                                                exclusive.extend(&character_sets::digits());
                                            } else if e == 's' {
                                                inclusive.extend(&character_sets::whitespace());
                                            } else if e == 'S' {
                                                exclusive.extend(&character_sets::whitespace());
                                            } else {
                                                self.error_at(esc_pos);
                                                failed = true;
                                                done = true;
                                                proof {
                                                    let p2g = m_advance(m_advance(p_cur));
                                                    assert(sp_class_body(p_cur, inc_cur, exc_cur)
                                                        == (
                                                        m_error_here(p2g),
                                                        None::<(Set<char>, Set<char>)>,
                                                    ));
                                                    assert(self.model() == m_error_here(p2g));
                                                }
                                            }
                                        },
                                        None => {
                                            self.error_at(esc_pos);
                                            failed = true;
                                            done = true;
                                            proof {
                                                let p1g = m_advance(p_cur);
                                                assert(m_peek(p1g) is None);
                                                assert(sp_class_body(p_cur, inc_cur, exc_cur) == (
                                                    m_error_here(p1g),
                                                    None::<(Set<char>, Set<char>)>,
                                                ));
                                                assert(self.model() == m_error_here(p1g));
                                            }
                                        },
                                    }
                                } else if (b as u32) < 128 {
                                    let range_pos = self.pos;
                                    let mut is_range = false;
                                    match self.peek() {
                                        Some(d) => {
                                            if d == '-' {
                                                is_range = true;
                                            }
                                        },
                                        None => {},
                                    }
                                    if is_range {
                                        self.consume();
                                        match self.consume() {
                                            Some(h) => {
                                                if (h as u32) < 128 {
                                                    match character_sets::range(b as u8, h as u8) {
                                                        Ok(set) => {
                                                            inclusive.extend(&set);
                                                            proof {
                                                                let p3g = m_advance(m_advance(m_advance(p_cur)));
                                                                assert(self.model() == p3g);
                                                                assert(sp_class_body(p_cur, inc_cur, exc_cur) == sp_class_body(p3g, inclusive@, exc_cur));
                                                            }
                                                        },
                                                        Err(_) => {
                                                            self.error_at(range_pos);
                                                            failed = true;
                                                            done = true;
                                                            proof {
                                                                let p3g = m_advance(m_advance(m_advance(p_cur)));
                                                                assert((h as u8) < (b as u8));
                                                                assert(sp_class_body(p_cur, inc_cur, exc_cur) == (
                                                                    m_error_here(p3g),
                                                                    None::<(Set<char>, Set<char>)>,
                                                                ));
                                                                assert(self.model() == m_error_here(p3g));
                                                            }
                                                        },
                                                    }
                                                } else {
                                                    self.error_at(range_pos);
                                                    failed = true;
                                                    done = true;
                                                    proof {
                                                        let p3g = m_advance(m_advance(m_advance(p_cur)));
                                                        assert(sp_class_body(p_cur, inc_cur, exc_cur) == (
                                                            m_error_here(p3g),
                                                            None::<(Set<char>, Set<char>)>,
                                                        ));
                                                        assert(self.model() == m_error_here(p3g));
                                                    }
                                                }
                                            },
                                            None => {
                                                self.error_cur();
                                                failed = true;
                                                done = true;
                                                proof {
                                                    let p2g = m_advance(m_advance(p_cur));
                                                    assert(m_peek(p2g) is None);
                                                    assert(sp_class_body(p_cur, inc_cur, exc_cur) == (
                                                        m_error_here(p2g),
                                                        None::<(Set<char>, Set<char>)>,
                                                    ));
                                                    assert(self.model() == m_error_here(p2g));
                                                }
                                            },
                                        }
                                    } else {
                                        inclusive.insert(b);
                                    }
                                } else {
                                    inclusive.insert(b);
                                }
                            },
                        }
                        proof {
                            assert(sp_class_body(p_cur, inc_cur, exc_cur) == sp_class_body(
                                p_start,
                                Set::empty(),
                                Set::empty(),
                            ));
                        }
                    }
                    if failed {
                        None
                    } else if negate {
                        let ghost before = sl.states@;
                        let frag = sl.inclusive_exclusive_characters(exclusive, inclusive);
                        proof {
                            lemma_incexc_model(before, sl.states@, frag, exclusive@, inclusive@);
                        }
                        Some(frag)
                    } else {
                        let ghost before = sl.states@;
                        let frag = sl.inclusive_exclusive_characters(inclusive, exclusive);
                        proof {
                            lemma_incexc_model(before, sl.states@, frag, inclusive@, exclusive@);
                        }
                        Some(frag)
                    }
                } else {
                    self.consume();
                    let ghost before = sl.states@;
                    let frag = sl.character(c);
                    proof {
                        lemma_characters_model(before, sl.states@, frag, Set::empty().insert(c));
                    }
                    Some(frag)
                }
            },
        }
    }
}


/// A `characters` leaf realises `m_leaf` with the given inclusive set.
pub(crate) proof fn lemma_characters_model(
    old_states: Seq<State>,
    new_states: Seq<State>,
    frag: Fragment,
    inc_set: Set<char>,
)
    requires
        old_states.len() <= usize::MAX,
        crate::nfa::pushed_one(old_states, new_states),
        (new_states.last() matches State::Transition { inclusive, exclusive, out }
            && inclusive@ == inc_set && exclusive.chars@.len() == 0 && out is None),
        frag.start == old_states.len(),
        frag.endstates@.len() == 1 && frag.endstates@[0] == frag.start,
    ensures
        (models_of(new_states), frag_model(frag)) == m_leaf(
            models_of(old_states),
            inc_set,
            Set::empty(),
        ),
{
    match new_states.last() {
        State::Transition { inclusive, exclusive, out } => {
            lemma_empty_charset(exclusive);
            lemma_models_push(
                old_states,
                new_states,
                StateModel::Transition { inclusive: inc_set, exclusive: Set::empty(), out: None },
            );
        },
        _ => {
            assert(false);
        },
    }
    assert(frag.endstates@ =~= seq![((models_of(old_states).len()) as usize)]);
}

/// A `non_characters` leaf realises `m_leaf` with the given exclusive set.
pub(crate) proof fn lemma_non_characters_model(
    old_states: Seq<State>,
    new_states: Seq<State>,
    frag: Fragment,
    exc_set: Set<char>,
)
    requires
        old_states.len() <= usize::MAX,
        crate::nfa::pushed_one(old_states, new_states),
        (new_states.last() matches State::Transition { inclusive, exclusive, out }
            && exclusive@ == exc_set && inclusive.chars@.len() == 0 && out is None),
        frag.start == old_states.len(),
        frag.endstates@.len() == 1 && frag.endstates@[0] == frag.start,
    ensures
        (models_of(new_states), frag_model(frag)) == m_leaf(
            models_of(old_states),
            Set::empty(),
            exc_set,
        ),
{
    match new_states.last() {
        State::Transition { inclusive, exclusive, out } => {
            lemma_empty_charset(inclusive);
            lemma_models_push(
                old_states,
                new_states,
                StateModel::Transition { inclusive: Set::empty(), exclusive: exc_set, out: None },
            );
        },
        _ => {
            assert(false);
        },
    }
    assert(frag.endstates@ =~= seq![((models_of(old_states).len()) as usize)]);
}

/// An `inclusive_exclusive_characters` leaf realises `m_leaf` with both
/// given sets.
pub(crate) proof fn lemma_incexc_model(
    old_states: Seq<State>,
    new_states: Seq<State>,
    frag: Fragment,
    inc_set: Set<char>,
    exc_set: Set<char>,
)
    requires
        old_states.len() <= usize::MAX,
        crate::nfa::pushed_one(old_states, new_states),
        (new_states.last() matches State::Transition { inclusive, exclusive, out }
            && inclusive@ == inc_set && exclusive@ == exc_set && out is None),
        frag.start == old_states.len(),
        frag.endstates@.len() == 1 && frag.endstates@[0] == frag.start,
    ensures
        (models_of(new_states), frag_model(frag)) == m_leaf(
            models_of(old_states),
            inc_set,
            exc_set,
        ),
{
    match new_states.last() {
        State::Transition { inclusive, exclusive, out } => {
            lemma_models_push(
                old_states,
                new_states,
                StateModel::Transition { inclusive: inc_set, exclusive: exc_set, out: None },
            );
        },
        _ => {
            assert(false);
        },
    }
    assert(frag.endstates@ =~= seq![((models_of(old_states).len()) as usize)]);
}

/// Compiles `s`: on success, the start index and the sealed state arena
/// (all successor indices in range); on failure, the non-empty list of
/// offsets at which diagnostics were raised. Any input that remains after
/// a structurally complete pattern is a diagnostic at the offset of the
/// first leftover character.
pub fn parse(s: &str) -> (r: Result<(usize, Vec<State>), Vec<u32>>)
    requires
        s@.len() <= u32::MAX,
    ensures
        r matches Err(e) ==> e@.len() > 0 && parse_outcome_of(
            s@,
            (ParseOutcome { ok: None, nerr: e@.len() as int }),
        ),
        r matches Ok(p) ==> p.0 < p.1@.len() && states_refs_wf(p.1@) && parse_outcome_of(
            s@,
            (ParseOutcome { ok: Some((p.0, models_of(p.1@))), nerr: 0 }),
        ),
{
    let ghost p_init = ParseState { chars: s@, pos: 0, nerr: 0 };
    let mut parser = Parser::new(s);
    let mut statelist = StateList::new();
    proof {
        assert(parser.model() == p_init);
        assert(models_of(statelist.states@) =~= Seq::<StateModel>::empty());
    }
    let fr = parser.parse_union(&mut statelist);
    let ghost p1 = parser.model();
    let ghost m1 = models_of(statelist.states@);
    let ghost frm = opt_frag_model(fr);
    proof {
        assert(union_steps(p_init, Seq::<StateModel>::empty(), p1, m1, frm));
    }
    let ghost fu = choose|fuel: nat|
        sp_union(p_init, Seq::<StateModel>::empty(), fuel) == Some((p1, m1, frm));
    match fr {
        Some(frag) => {
            let ghost gfrag = frag_model(frag);
            if parser.pos < parser.chars.len() {
                parser.error_next();
            }
            let ghost p2 = parser.model();
            proof {
                assert(p2 == if p1.pos < s@.len() {
                    m_error_next(p1)
                } else {
                    p1
                });
            }
            if parser.errors.len() > 0 {
                proof {
                    assert(sp_parse(s@, fu) == Some(
                        (ParseOutcome { ok: None, nerr: p2.nerr }),
                    ));
                }
                return Err(parser.errors);
            }
            let ghost before = statelist.states@;
            let match_state = statelist.add_state(State::make_match());
            proof {
                assert forall|i: int| 0 <= i < statelist.states@.len() implies
                    crate::nfa::state_refs_wf(
                    #[trigger] statelist.states@[i],
                    statelist.states@.len() as int,
                ) by {
                    if i < before.len() {
                        assert(crate::nfa::state_refs_wf(before[i], before.len() as int));
                    }
                }
                lemma_models_push(before, statelist.states@, StateModel::Match);
            }
            statelist.link_each(&frag.endstates, match_state);
            proof {
                crate::nfa::lemma_link_all_len(
                    before.push(State::Match),
                    frag.endstates@,
                    match_state,
                );
                crate::nfa::lemma_link_all_wf(
                    before.push(State::Match),
                    frag.endstates@,
                    match_state,
                );
                crate::nfa::lemma_models_link_all(
                    before.push(State::Match),
                    frag.endstates@,
                    match_state,
                );
                assert(models_of(statelist.states@) == m_link_all(
                    m1.push(StateModel::Match),
                    gfrag.ends,
                    (m1.len() as usize),
                ));
                assert(sp_parse(s@, fu) == Some(
                    (ParseOutcome {
                        ok: Some((gfrag.start, models_of(statelist.states@))),
                        nerr: 0,
                    }),
                ));
            }
            Ok((frag.start, statelist.states))
        },
        None => {
            proof {
                assert(sp_parse(s@, fu) == Some((ParseOutcome { ok: None, nerr: p1.nerr })));
            }
            Err(parser.errors)
        },
    }
}

/// Parsing is deterministic: a pattern has at most one parse outcome, so
/// the result of compilation is a function of the pattern alone.
pub proof fn lemma_parse_outcome_unique(input: Seq<char>, o1: ParseOutcome, o2: ParseOutcome)
    requires
        parse_outcome_of(input, o1),
        parse_outcome_of(input, o2),
    ensures
        o1 == o2,
{
    let f1 = choose|fuel: nat| sp_parse(input, fuel) == Some(o1);
    let f2 = choose|fuel: nat| sp_parse(input, fuel) == Some(o2);
    let p0 = ParseState { chars: input, pos: 0, nerr: 0 };
    if f1 <= f2 {
        assert(sp_union(p0, Seq::<StateModel>::empty(), f1) is Some);
        lemma_sp_union_mono_le(p0, Seq::<StateModel>::empty(), f1, f2);
        assert(sp_parse(input, f2) == sp_parse(input, f1));
    } else {
        assert(sp_union(p0, Seq::<StateModel>::empty(), f2) is Some);
        lemma_sp_union_mono_le(p0, Seq::<StateModel>::empty(), f2, f1);
        assert(sp_parse(input, f1) == sp_parse(input, f2));
    }
}

} // verus!
