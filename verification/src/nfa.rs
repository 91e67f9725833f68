//! The automaton state model and the fragment algebra (Thompson's
//! construction): operations that build and glue partial automata inside a
//! growable, append-only arena of states addressed by index.

use crate::character_sets::CharSet;
use vstd::prelude::*;

verus! {

/// One automaton state.
///
/// - `Transition` consumes exactly one character and moves to `out` when the
///   character satisfies the predicate of [`spec_matches`]; `out` starts
///   unresolved and is patched once.
/// - `Split` is an epsilon (non-consuming) branch to one or two successors;
///   `out1` is fixed at creation, `out2` is patched later.
/// - `Match` is the terminal acceptance marker.
/// - `Nil` is a placeholder with no outgoing edges.
pub enum State {
    Transition { inclusive: CharSet, exclusive: CharSet, out: Option<usize> },
    Split { out1: usize, out2: Option<usize> },
    Match,
    Nil,
}

/// The predicate of a `Transition` state with sets `inc` and `exc`, applied
/// to one character: a non-empty inclusive set must contain it, otherwise a
/// non-empty exclusive set must not contain it, otherwise both sets are
/// empty and any character is accepted.
pub open spec fn spec_matches(inc: CharSet, exc: CharSet, c: char) -> bool {
    ||| inc.chars@.len() > 0 && inc@.contains(c)
    ||| exc.chars@.len() > 0 && !exc@.contains(c)
    ||| inc.chars@.len() == 0 && exc.chars@.len() == 0
}

/// Where state `s` moves on character `c`: the target of a `Transition`
/// whose predicate accepts `c`, and nothing otherwise.
pub open spec fn spec_state_transition(s: State, c: char) -> Option<usize> {
    match s {
        State::Transition { inclusive, exclusive, out } => {
            if spec_matches(inclusive, exclusive, c) {
                out
            } else {
                None
            }
        },
        _ => None,
    }
}

/// State `s` with its unresolved successor slot patched to `newout`:
/// `out` for a `Transition`, `out2` for a `Split`; `Match` and `Nil` are
/// left unchanged.
pub open spec fn spec_set_out(s: State, newout: usize) -> State {
    match s {
        State::Transition { inclusive, exclusive, out } => State::Transition {
            inclusive,
            exclusive,
            out: Some(newout),
        },
        State::Split { out1, out2 } => State::Split { out1, out2: Some(newout) },
        State::Match => State::Match,
        State::Nil => State::Nil,
    }
}

/// Every successor index stored in `s` lies below `n`.
pub open spec fn state_refs_wf(s: State, n: int) -> bool {
    match s {
        State::Transition { inclusive, exclusive, out } => match out {
            Some(o) => o < n,
            None => true,
        },
        State::Split { out1, out2 } => out1 < n && match out2 {
            Some(o) => o < n,
            None => true,
        },
        State::Match => true,
        State::Nil => true,
    }
}

/// Every successor index stored anywhere in `states` lies below its length.
pub open spec fn states_refs_wf(states: Seq<State>) -> bool {
    forall|i: int| 0 <= i < states.len() ==> state_refs_wf(#[trigger] states[i], states.len() as int)
}

impl State {
    pub fn make_transition(inclusive: CharSet, exclusive: CharSet, out: Option<usize>) -> (r: State)
        ensures
            r == (State::Transition { inclusive, exclusive, out }),
    {
        let mut tran = State::make_inclusive_exclusive_transition(inclusive, exclusive);
        if let Some(c) = out {
            tran.set_out(c);
        }
        tran
    }

    pub fn make_split(out1: usize, out2: Option<usize>) -> (r: State)
        ensures
            r == (State::Split { out1, out2 }),
    {
        State::Split { out1, out2 }
    }

    pub fn make_match() -> (r: State)
        ensures
            r == State::Match,
    {
        State::Match
    }

    pub fn make_nil() -> (r: State)
        ensures
            r == State::Nil,
    {
        State::Nil
    }

    pub(crate) fn make_inclusive_exclusive_transition(inclusive: CharSet, exclusive: CharSet) -> (r:
        State)
        ensures
            r == (State::Transition { inclusive, exclusive, out: None }),
    {
        State::Transition { inclusive, exclusive, out: None }
    }

    pub(crate) fn make_inclusive_transition(chars: CharSet) -> (r: State)
        ensures
            r matches State::Transition { inclusive, exclusive, out }
                && inclusive == chars && exclusive.chars@.len() == 0 && out is None,
    {
        State::Transition { inclusive: chars, exclusive: CharSet::new(), out: None }
    }

    pub(crate) fn make_exclusive_transition(chars: CharSet) -> (r: State)
        ensures
            r matches State::Transition { inclusive, exclusive, out }
                && exclusive == chars && inclusive.chars@.len() == 0 && out is None,
    {
        State::Transition { inclusive: CharSet::new(), exclusive: chars, out: None }
    }

    pub(crate) fn set_out(&mut self, newout: usize)
        ensures
            *final(self) == spec_set_out(*old(self), newout),
    {
        match self {
            State::Transition { inclusive: _, exclusive: _, out } => {
                *out = Some(newout);
            },
            State::Split { out1: _, out2 } => {
                *out2 = Some(newout);
            },
            _ => {},
        }
    }

    /// Where this state moves on character `c` (successors of `Match`,
    /// `Nil` and `Split` states are epsilon edges, not character moves).
    pub(crate) fn transition(&self, c: char) -> (r: Option<usize>)
        ensures
            r == spec_state_transition(*self, c),
    {
        match self {
            State::Transition { inclusive, exclusive, out } => {
                if (inclusive.len() > 0 && inclusive.contains(c)) || (exclusive.len() > 0
                    && !exclusive.contains(c)) || (inclusive.len() == 0 && exclusive.len() == 0) {
                    *out
                } else {
                    None
                }
            },
            _ => None,
        }
    }
}

/// The abstract value of a state: character sets as sets, successor
/// indices as they are. Everything the matching engine observes about a
/// state is a function of this model.
pub enum StateModel {
    Transition { inclusive: Set<char>, exclusive: Set<char>, out: Option<usize> },
    Split { out1: usize, out2: Option<usize> },
    Match,
    Nil,
}

pub open spec fn state_model(s: State) -> StateModel {
    match s {
        State::Transition { inclusive, exclusive, out } => StateModel::Transition {
            inclusive: inclusive@,
            exclusive: exclusive@,
            out,
        },
        State::Split { out1, out2 } => StateModel::Split { out1, out2 },
        State::Match => StateModel::Match,
        State::Nil => StateModel::Nil,
    }
}

/// A character set is stored empty exactly when its abstract set is empty,
/// so the stored length reveals nothing beyond the abstract value.
pub proof fn lemma_charset_emptiness(cs: CharSet)
    ensures
        cs.chars@.len() > 0 <==> exists|c: char| cs@.contains(c),
{
    if cs.chars@.len() > 0 {
        assert(cs.chars@.contains(cs.chars@[0]));
        assert(cs@.contains(cs.chars@[0]));
    }
}

/// Two states with equal models move identically on every character.
pub proof fn lemma_same_model_transition(s1: State, s2: State, c: char)
    requires
        state_model(s1) == state_model(s2),
    ensures
        spec_state_transition(s1, c) == spec_state_transition(s2, c),
{
    match (s1, s2) {
        (
            State::Transition { inclusive: i1, exclusive: e1, out: o1 },
            State::Transition { inclusive: i2, exclusive: e2, out: o2 },
        ) => {
            lemma_charset_emptiness(i1);
            lemma_charset_emptiness(i2);
            lemma_charset_emptiness(e1);
            lemma_charset_emptiness(e2);
            assert(spec_matches(i1, e1, c) == spec_matches(i2, e2, c));
        },
        _ => {},
    }
}

/// A partial automaton while it is being built: its entry state and the
/// indices of its unresolved exit slots (the "danglers").
pub(crate) struct Fragment {
    pub(crate) start: usize,
    pub(crate) endstates: Vec<usize>,
}

/// The entry index lies below `n` and so does every dangler.
pub(crate) open spec fn frag_wf(f: Fragment, n: int) -> bool {
    f.start < n && forall|k: int| 0 <= k < f.endstates@.len() ==> (#[trigger] f.endstates@[k]) < n
}

pub(crate) open spec fn opt_frag_wf(f: Option<Fragment>, n: int) -> bool {
    match f {
        Some(g) => frag_wf(g, n),
        None => true,
    }
}

/// `states` with the unresolved slot of every state listed in `danglers`
/// patched to `to`, in order.
pub(crate) open spec fn link_all(states: Seq<State>, danglers: Seq<usize>, to: usize) -> Seq<State>
    decreases danglers.len(),
{
    if danglers.len() == 0 {
        states
    } else {
        link_all(
            states.update(danglers[0] as int, spec_set_out(states[danglers[0] as int], to)),
            danglers.drop_first(),
            to,
        )
    }
}

pub(crate) proof fn lemma_link_all_len(states: Seq<State>, danglers: Seq<usize>, to: usize)
    requires
        forall|k: int| 0 <= k < danglers.len() ==> (#[trigger] danglers[k]) < states.len(),
    ensures
        link_all(states, danglers, to).len() == states.len(),
    decreases danglers.len(),
{
    if danglers.len() > 0 {
        lemma_link_all_len(
            states.update(danglers[0] as int, spec_set_out(states[danglers[0] as int], to)),
            danglers.drop_first(),
            to,
        );
    }
}

/// Patching dangler slots to an in-range target preserves the
/// well-formedness of the arena.
pub(crate) proof fn lemma_link_all_wf(states: Seq<State>, danglers: Seq<usize>, to: usize)
    requires
        states_refs_wf(states),
        to < states.len(),
        forall|k: int| 0 <= k < danglers.len() ==> (#[trigger] danglers[k]) < states.len(),
    ensures
        states_refs_wf(link_all(states, danglers, to)),
    decreases danglers.len(),
{
    if danglers.len() > 0 {
        let updated = states.update(
            danglers[0] as int,
            spec_set_out(states[danglers[0] as int], to),
        );
        assert(states_refs_wf(updated));
        lemma_link_all_wf(updated, danglers.drop_first(), to);
    }
}

/// `new_s` is `old_s` with exactly one state appended.
pub(crate) open spec fn pushed_one(old_s: Seq<State>, new_s: Seq<State>) -> bool {
    new_s.len() == old_s.len() + 1 && forall|i: int| 0 <= i < old_s.len() ==> new_s[i] == old_s[i]
}

/// The arena of automaton states, and the fragment algebra over it.
pub(crate) struct StateList {
    pub(crate) states: Vec<State>,
}

impl StateList {
    pub(crate) fn new() -> (r: StateList)
        ensures
            r.states@.len() == 0,
    {
        StateList { states: Vec::new() }
    }

    /// Appends a state and returns its index.
    pub(crate) fn add_state(&mut self, state: State) -> (idx: usize)
        ensures
            final(self).states@ == old(self).states@.push(state),
            idx == old(self).states@.len(),
    {
        self.states.push(state);
        self.states.len() - 1
    }

    /// Patches the unresolved slot of state `from` to point at `to`.
    pub(crate) fn link(&mut self, from: usize, to: usize)
        requires
            from < old(self).states@.len(),
        ensures
            final(self).states@ == old(self).states@.update(
                from as int,
                spec_set_out(old(self).states@[from as int], to),
            ),
    {
        self.states[from].set_out(to);
    }

    /// Patches the unresolved slot of every state in `danglers` to `to`.
    pub(crate) fn link_each(&mut self, danglers: &Vec<usize>, to: usize)
        requires
            forall|k: int| 0 <= k < danglers@.len() ==> (#[trigger] danglers@[k])
                < old(self).states@.len(),
        ensures
            final(self).states@ == link_all(old(self).states@, danglers@, to),
    {
        let ghost init = self.states@;
        let mut i: usize = 0;
        proof {
            assert(danglers@.skip(0) =~= danglers@);
        }
        while i < danglers.len()
            invariant
                i <= danglers@.len(),
                self.states@.len() == init.len(),
                forall|k: int| 0 <= k < danglers@.len() ==> (#[trigger] danglers@[k]) < init.len(),
                link_all(self.states@, danglers@.skip(i as int), to) == link_all(init, danglers@, to),
            decreases danglers@.len() - i,
        {
            let ghost before = self.states@;
            self.link(danglers[i], to);
            proof {
                assert(danglers@.skip(i as int).drop_first() =~= danglers@.skip(i + 1));
                assert(danglers@.skip(i as int)[0] == danglers@[i as int]);
                assert(link_all(self.states@, danglers@.skip(i + 1), to) == link_all(
                    before,
                    danglers@.skip(i as int),
                    to,
                ));
            }
            i = i + 1;
        }
        proof {
            assert(danglers@.skip(danglers@.len() as int) =~= Seq::<usize>::empty());
        }
    }

    /// Union of two alternatives: a new `Split` branches to both entry
    /// points; the danglers of both sides stay unresolved. An absent first
    /// operand yields nothing; an absent second operand yields the first
    /// operand unchanged.
    pub(crate) fn union(&mut self, f1opt: Option<Fragment>, f2opt: Option<Fragment>) -> (r: Option<
        Fragment,
    >)
        ensures
            f1opt is None ==> r is None && final(self).states@ == old(self).states@,
            f1opt is Some && f2opt is None ==> r == f1opt && final(self).states@ == old(
                self,
            ).states@,
            f1opt matches Some(f1) ==> f2opt matches Some(f2) ==> {
                &&& final(self).states@ == old(self).states@.push(
                    State::Split { out1: f1.start, out2: Some(f2.start) },
                )
                &&& r matches Some(g)
                &&& g.start == old(self).states@.len()
                &&& g.endstates@ == f1.endstates@ + f2.endstates@
            },
            final(self).states@.len() >= old(self).states@.len(),
            states_refs_wf(old(self).states@) && opt_frag_wf(f1opt, old(self).states@.len() as int)
                && opt_frag_wf(f2opt, old(self).states@.len() as int) ==> states_refs_wf(
                final(self).states@,
            ) && opt_frag_wf(r, final(self).states@.len() as int),
            (models_of(final(self).states@), opt_frag_model(r)) == m_union_op(
                models_of(old(self).states@),
                opt_frag_model(f1opt),
                opt_frag_model(f2opt),
            ),
    {
        let mut f1 = match f1opt {
            Some(f) => f,
            None => {
                return None;
            },
        };
        let f2 = match f2opt {
            Some(f) => f,
            None => {
                return Some(f1);
            },
        };
        let ghost g1 = frag_model(f1);
        let ghost g2 = frag_model(f2);
        let start = self.add_state(State::make_split(f1.start, Some(f2.start)));
        proof {
            lemma_models_push(
                old(self).states@,
                self.states@,
                StateModel::Split { out1: g1.start, out2: Some(g2.start) },
            );
        }
        let mut f2_ends = f2.endstates;
        f1.endstates.append(&mut f2_ends);
        let r = Fragment { start, endstates: f1.endstates };
        proof {
            assert(frag_model(r) == (FragModel {
                start: (models_of(old(self).states@).len() as usize),
                ends: g1.ends + g2.ends,
            }));
        }
        Some(r)
    }

    /// Concatenation: every dangler of the first fragment is patched to the
    /// entry of the second. An absent first operand yields nothing; an
    /// absent second operand yields the first operand unchanged.
    pub(crate) fn concatenation(&mut self, f1opt: Option<Fragment>, f2opt: Option<Fragment>) -> (r:
        Option<Fragment>)
        requires
            opt_frag_wf(f1opt, old(self).states@.len() as int),
        ensures
            f1opt is None ==> r is None && final(self).states@ == old(self).states@,
            f1opt is Some && f2opt is None ==> r == f1opt && final(self).states@ == old(
                self,
            ).states@,
            f1opt matches Some(f1) ==> f2opt matches Some(f2) ==> {
                &&& final(self).states@ == link_all(old(self).states@, f1.endstates@, f2.start)
                &&& r matches Some(g)
                &&& g.start == f1.start
                &&& g.endstates@ == f2.endstates@
            },
            final(self).states@.len() == old(self).states@.len(),
            states_refs_wf(old(self).states@) && opt_frag_wf(f1opt, old(self).states@.len() as int)
                && opt_frag_wf(f2opt, old(self).states@.len() as int) ==> states_refs_wf(
                final(self).states@,
            ) && opt_frag_wf(r, final(self).states@.len() as int),
            (models_of(final(self).states@), opt_frag_model(r)) == m_concat_op(
                models_of(old(self).states@),
                opt_frag_model(f1opt),
                opt_frag_model(f2opt),
            ),
    {
        let f1 = match f1opt {
            Some(f) => f,
            None => {
                return None;
            },
        };
        let f2 = match f2opt {
            Some(f) => f,
            None => {
                return Some(f1);
            },
        };
        self.link_each(&f1.endstates, f2.start);
        proof {
            if states_refs_wf(old(self).states@) && frag_wf(f2, old(self).states@.len() as int) {
                lemma_link_all_wf(old(self).states@, f1.endstates@, f2.start);
            }
            lemma_link_all_len(old(self).states@, f1.endstates@, f2.start);
            lemma_models_link_all(old(self).states@, f1.endstates@, f2.start);
        }
        Some(Fragment { start: f1.start, endstates: f2.endstates })
    }

    /// Applies the postfix operator `op` (`*`, `?` or `+`) to a fragment;
    /// any other operator, or none, leaves the fragment unchanged.
    pub(crate) fn unary_operator(&mut self, f: Option<Fragment>, op: Option<char>) -> (r: Option<
        Fragment,
    >)
        requires
            opt_frag_wf(f, old(self).states@.len() as int),
        ensures
            f is None ==> r is None && final(self).states@ == old(self).states@,
            f is Some ==> r is Some,
            final(self).states@.len() >= old(self).states@.len(),
            states_refs_wf(old(self).states@) && opt_frag_wf(f, old(self).states@.len() as int)
                ==> states_refs_wf(final(self).states@) && opt_frag_wf(
                r,
                final(self).states@.len() as int,
            ),
            (models_of(final(self).states@), opt_frag_model(r)) == m_unary_op(
                models_of(old(self).states@),
                opt_frag_model(f),
                op,
            ),
    {
        if let Some(frag) = f {
            match op {
                Some(c) => {
                    if c == '*' {
                        Some(self.kleene(frag))
                    } else if c == '?' {
                        Some(self.question_mark(frag))
                    } else if c == '+' {
                        Some(self.plus(frag))
                    } else {
                        Some(frag)
                    }
                },
                None => Some(frag),
            }
        } else {
            None
        }
    }

    /// Zero or more repetitions: a new `Split` tries the fragment or falls
    /// through; every dangler of the fragment loops back to the split,
    /// whose own exit stays unresolved.
    pub(crate) fn kleene(&mut self, f: Fragment) -> (r: Fragment)
        requires
            frag_wf(f, old(self).states@.len() as int),
        ensures
            final(self).states@ == link_all(
                old(self).states@.push(State::Split { out1: f.start, out2: None }),
                f.endstates@,
                (old(self).states@.len() as usize),
            ),
            r.start == old(self).states@.len(),
            r.endstates@.len() == 1 && r.endstates@[0] == r.start,
            final(self).states@.len() == old(self).states@.len() + 1,
            states_refs_wf(old(self).states@) ==> states_refs_wf(final(self).states@) && frag_wf(
                r,
                final(self).states@.len() as int,
            ),
            (models_of(final(self).states@), frag_model(r)) == m_kleene(
                models_of(old(self).states@),
                frag_model(f),
            ),
    {
        let start = self.add_state(State::make_split(f.start, None));
        self.link_each(&f.endstates, start);
        proof {
            let pushed = old(self).states@.push(State::Split { out1: f.start, out2: None });
            lemma_link_all_len(pushed, f.endstates@, start);
            if states_refs_wf(old(self).states@) {
                assert(states_refs_wf(pushed));
                lemma_link_all_wf(pushed, f.endstates@, start);
            }
            lemma_models_push(
                old(self).states@,
                pushed,
                StateModel::Split { out1: f.start, out2: None },
            );
            lemma_models_link_all(pushed, f.endstates@, start);
        }
        let mut endstates: Vec<usize> = Vec::new();
        endstates.push(start);
        let r = Fragment { start, endstates };
        proof {
            assert(r.endstates@ =~= seq![((models_of(old(self).states@).len()) as usize)]);
        }
        r
    }

    /// Zero or one occurrence: a new `Split` tries the fragment or falls
    /// through; the danglers are the split itself plus the fragment's own.
    pub(crate) fn question_mark(&mut self, f: Fragment) -> (r: Fragment)
        ensures
            final(self).states@ == old(self).states@.push(
                State::Split { out1: f.start, out2: None },
            ),
            r.start == old(self).states@.len(),
            r.endstates@ == seq![(old(self).states@.len() as usize)] + f.endstates@,
            states_refs_wf(old(self).states@) && frag_wf(f, old(self).states@.len() as int)
                ==> states_refs_wf(final(self).states@) && frag_wf(
                r,
                final(self).states@.len() as int,
            ),
            (models_of(final(self).states@), frag_model(r)) == m_question(
                models_of(old(self).states@),
                frag_model(f),
            ),
    {
        let ghost fm = frag_model(f);
        let start = self.add_state(State::make_split(f.start, None));
        proof {
            lemma_models_push(
                old(self).states@,
                self.states@,
                StateModel::Split { out1: f.start, out2: None },
            );
        }
        let mut endstates: Vec<usize> = Vec::new();
        endstates.push(start);
        let mut f_ends = f.endstates;
        endstates.append(&mut f_ends);
        proof {
            assert(endstates@ =~= seq![(old(self).states@.len() as usize)] + fm.ends);
        }
        Fragment { start, endstates }
    }

    /// One or more repetitions: the fragment must run once, then a new
    /// `Split` loops back to its entry or exits; the entry of the result is
    /// still the fragment's entry.
    pub(crate) fn plus(&mut self, f: Fragment) -> (r: Fragment)
        requires
            frag_wf(f, old(self).states@.len() as int),
        ensures
            final(self).states@ == link_all(
                old(self).states@.push(State::Split { out1: f.start, out2: None }),
                f.endstates@,
                (old(self).states@.len() as usize),
            ),
            r.start == f.start,
            r.endstates@.len() == 1 && r.endstates@[0] == old(self).states@.len(),
            final(self).states@.len() == old(self).states@.len() + 1,
            states_refs_wf(old(self).states@) ==> states_refs_wf(final(self).states@) && frag_wf(
                r,
                final(self).states@.len() as int,
            ),
            (models_of(final(self).states@), frag_model(r)) == m_plus(
                models_of(old(self).states@),
                frag_model(f),
            ),
    {
        let splitter = self.add_state(State::make_split(f.start, None));
        self.link_each(&f.endstates, splitter);
        proof {
            let pushed = old(self).states@.push(State::Split { out1: f.start, out2: None });
            lemma_link_all_len(pushed, f.endstates@, splitter);
            if states_refs_wf(old(self).states@) {
                assert(states_refs_wf(pushed));
                lemma_link_all_wf(pushed, f.endstates@, splitter);
            }
            lemma_models_push(
                old(self).states@,
                pushed,
                StateModel::Split { out1: f.start, out2: None },
            );
            lemma_models_link_all(pushed, f.endstates@, splitter);
        }
        let mut endstates: Vec<usize> = Vec::new();
        endstates.push(splitter);
        let r = Fragment { start: f.start, endstates };
        proof {
            assert(r.endstates@ =~= seq![((models_of(old(self).states@).len()) as usize)]);
        }
        r
    }

    /// A leaf fragment matching exactly the character `c`.
    pub(crate) fn character(&mut self, c: char) -> (r: Fragment)
        ensures
            pushed_one(old(self).states@, final(self).states@),
            final(self).states@.last() matches State::Transition { inclusive, exclusive, out }
                && inclusive@ == Set::<char>::empty().insert(c) && inclusive.chars@.len() > 0
                && exclusive.chars@.len() == 0 && out is None,
            r.start == old(self).states@.len(),
            r.endstates@.len() == 1 && r.endstates@[0] == r.start,
            states_refs_wf(old(self).states@) ==> states_refs_wf(final(self).states@) && frag_wf(
                r,
                final(self).states@.len() as int,
            ),
    {
        let mut set = CharSet::new();
        set.insert(c);
        self.characters(set)
    }

    /// A leaf fragment with explicit inclusive and exclusive sets.
    pub(crate) fn inclusive_exclusive_characters(&mut self, inclusive: CharSet, exclusive: CharSet)
        -> (r: Fragment)
        ensures
            pushed_one(old(self).states@, final(self).states@),
            final(self).states@.last() == (State::Transition {
                inclusive,
                exclusive,
                out: None,
            }),
            r.start == old(self).states@.len(),
            r.endstates@.len() == 1 && r.endstates@[0] == r.start,
            states_refs_wf(old(self).states@) ==> states_refs_wf(final(self).states@) && frag_wf(
                r,
                final(self).states@.len() as int,
            ),
    {
        let state = self.add_state(
            State::make_inclusive_exclusive_transition(inclusive, exclusive),
        );
        let mut endstates: Vec<usize> = Vec::new();
        endstates.push(state);
        Fragment { start: state, endstates }
    }

    /// A leaf fragment whose transition accepts exactly the characters of
    /// `chars` (any character at all when `chars` is empty).
    pub(crate) fn characters(&mut self, chars: CharSet) -> (r: Fragment)
        ensures
            pushed_one(old(self).states@, final(self).states@),
            final(self).states@.last() matches State::Transition { inclusive, exclusive, out }
                && inclusive == chars && exclusive.chars@.len() == 0 && out is None,
            r.start == old(self).states@.len(),
            r.endstates@.len() == 1 && r.endstates@[0] == r.start,
            states_refs_wf(old(self).states@) ==> states_refs_wf(final(self).states@) && frag_wf(
                r,
                final(self).states@.len() as int,
            ),
    {
        let state = self.add_state(State::make_inclusive_transition(chars));
        let mut endstates: Vec<usize> = Vec::new();
        endstates.push(state);
        Fragment { start: state, endstates }
    }

    /// A leaf fragment whose transition accepts every character outside
    /// `chars`.
    pub(crate) fn non_characters(&mut self, chars: CharSet) -> (r: Fragment)
        ensures
            pushed_one(old(self).states@, final(self).states@),
            final(self).states@.last() matches State::Transition { inclusive, exclusive, out }
                && exclusive == chars && inclusive.chars@.len() == 0 && out is None,
            r.start == old(self).states@.len(),
            r.endstates@.len() == 1 && r.endstates@[0] == r.start,
            states_refs_wf(old(self).states@) ==> states_refs_wf(final(self).states@) && frag_wf(
                r,
                final(self).states@.len() as int,
            ),
    {
        let state = self.add_state(State::make_exclusive_transition(chars));
        let mut endstates: Vec<usize> = Vec::new();
        endstates.push(state);
        Fragment { start: state, endstates }
    }
}

/// The model of a fragment: its entry index and its dangler indices.
pub struct FragModel {
    pub start: usize,
    pub ends: Seq<usize>,
}


pub open spec fn m_set_out(s: StateModel, to: usize) -> StateModel {
    match s {
        StateModel::Transition { inclusive, exclusive, out } => StateModel::Transition {
            inclusive,
            exclusive,
            out: Some(to),
        },
        StateModel::Split { out1, out2 } => StateModel::Split { out1, out2: Some(to) },
        StateModel::Match => StateModel::Match,
        StateModel::Nil => StateModel::Nil,
    }
}

pub open spec fn m_link_all(states: Seq<StateModel>, danglers: Seq<usize>, to: usize) -> Seq<
    StateModel,
>
    decreases danglers.len(),
{
    if danglers.len() == 0 {
        states
    } else {
        m_link_all(
            states.update(danglers[0] as int, m_set_out(states[danglers[0] as int], to)),
            danglers.drop_first(),
            to,
        )
    }
}

/// A leaf fragment: one fresh transition state with the given sets.
pub open spec fn m_leaf(sl: Seq<StateModel>, inc: Set<char>, exc: Set<char>) -> (Seq<StateModel>,
    FragModel) {
    (
        sl.push(StateModel::Transition { inclusive: inc, exclusive: exc, out: None }),
        FragModel { start: sl.len() as usize, ends: seq![(sl.len() as usize)] },
    )
}

pub open spec fn m_union_op(
    sl: Seq<StateModel>,
    f1opt: Option<FragModel>,
    f2opt: Option<FragModel>,
) -> (Seq<StateModel>, Option<FragModel>) {
    match f1opt {
        None => (sl, None),
        Some(f1) => match f2opt {
            None => (sl, Some(f1)),
            Some(f2) => (
                sl.push(StateModel::Split { out1: f1.start, out2: Some(f2.start) }),
                Some(FragModel { start: sl.len() as usize, ends: f1.ends + f2.ends }),
            ),
        },
    }
}

pub open spec fn m_concat_op(
    sl: Seq<StateModel>,
    f1opt: Option<FragModel>,
    f2opt: Option<FragModel>,
) -> (Seq<StateModel>, Option<FragModel>) {
    match f1opt {
        None => (sl, None),
        Some(f1) => match f2opt {
            None => (sl, Some(f1)),
            Some(f2) => (
                m_link_all(sl, f1.ends, f2.start),
                Some(FragModel { start: f1.start, ends: f2.ends }),
            ),
        },
    }
}

pub open spec fn m_kleene(sl: Seq<StateModel>, f: FragModel) -> (Seq<StateModel>, FragModel) {
    (
        m_link_all(
            sl.push(StateModel::Split { out1: f.start, out2: None }),
            f.ends,
            (sl.len() as usize),
        ),
        FragModel { start: sl.len() as usize, ends: seq![(sl.len() as usize)] },
    )
}

pub open spec fn m_question(sl: Seq<StateModel>, f: FragModel) -> (Seq<StateModel>, FragModel) {
    (
        sl.push(StateModel::Split { out1: f.start, out2: None }),
        FragModel { start: sl.len() as usize, ends: seq![(sl.len() as usize)] + f.ends },
    )
}

pub open spec fn m_plus(sl: Seq<StateModel>, f: FragModel) -> (Seq<StateModel>, FragModel) {
    (
        m_link_all(
            sl.push(StateModel::Split { out1: f.start, out2: None }),
            f.ends,
            (sl.len() as usize),
        ),
        FragModel { start: f.start, ends: seq![(sl.len() as usize)] },
    )
}

pub open spec fn m_unary_op(sl: Seq<StateModel>, fopt: Option<FragModel>, op: Option<char>) -> (
    Seq<StateModel>,
    Option<FragModel>,
) {
    match fopt {
        None => (sl, None),
        Some(f) => match op {
            Some(c) => if c == '*' {
                let (sl1, g) = m_kleene(sl, f);
                (sl1, Some(g))
            } else if c == '?' {
                let (sl1, g) = m_question(sl, f);
                (sl1, Some(g))
            } else if c == '+' {
                let (sl1, g) = m_plus(sl, f);
                (sl1, Some(g))
            } else {
                (sl, Some(f))
            },
            None => (sl, Some(f)),
        },
    }
}


/// The model of a fragment value.
pub(crate) open spec fn frag_model(f: Fragment) -> FragModel {
    FragModel { start: f.start, ends: f.endstates@ }
}

pub(crate) open spec fn opt_frag_model(r: Option<Fragment>) -> Option<FragModel> {
    match r {
        Some(f) => Some(frag_model(f)),
        None => None,
    }
}

/// Appending one state appends its model.
pub(crate) proof fn lemma_models_push(old_s: Seq<State>, new_s: Seq<State>, m: StateModel)
    requires
        crate::nfa::pushed_one(old_s, new_s),
        crate::nfa::state_model(new_s.last()) == m,
    ensures
        models_of(new_s) == models_of(old_s).push(m),
{
    assert forall|i: int| 0 <= i < new_s.len() implies models_of(new_s)[i] == models_of(
        old_s,
    ).push(m)[i] by {
        lemma_models_index(new_s, i);
        if i < old_s.len() {
            lemma_models_index(old_s, i);
        }
    }
    assert(models_of(new_s) =~= models_of(old_s).push(m));
}

/// An empty stored sequence denotes the empty set.
pub(crate) proof fn lemma_empty_charset(cs: CharSet)
    requires
        cs.chars@.len() == 0,
    ensures
        cs@ == Set::<char>::empty(),
{
    assert(cs@ =~= Set::<char>::empty());
}


/// Updating one state updates its model.
pub(crate) proof fn lemma_models_update(states: Seq<State>, i: int, v: State)
    requires
        0 <= i < states.len(),
    ensures
        models_of(states.update(i, v)) == models_of(states).update(i, state_model(v)),
{
    assert forall|k: int| 0 <= k < states.len() implies models_of(states.update(i, v))[k]
        == models_of(states).update(i, state_model(v))[k] by {
        lemma_models_index(states.update(i, v), k);
        lemma_models_index(states, k);
    }
    assert(models_of(states.update(i, v)) =~= models_of(states).update(i, state_model(v)));
}

/// Patching dangler slots commutes with taking models.
pub(crate) proof fn lemma_models_link_all(states: Seq<State>, danglers: Seq<usize>, to: usize)
    requires
        forall|k: int| 0 <= k < danglers.len() ==> (#[trigger] danglers[k]) < states.len(),
    ensures
        models_of(link_all(states, danglers, to)) == m_link_all(models_of(states), danglers, to),
    decreases danglers.len(),
{
    if danglers.len() > 0 {
        let i = danglers[0] as int;
        let updated = states.update(i, spec_set_out(states[i], to));
        lemma_models_index(states, i);
        assert(m_set_out(models_of(states)[i], to) == state_model(spec_set_out(states[i], to)));
        lemma_models_update(states, i, spec_set_out(states[i], to));
        lemma_models_link_all(updated, danglers.drop_first(), to);
    }
}

/// The models of all states of an arena, in order.
pub open spec fn models_of(states: Seq<State>) -> Seq<StateModel> {
    states.map_values(|s: State| state_model(s))
}

pub(crate) proof fn lemma_models_index(states: Seq<State>, i: int)
    requires
        0 <= i < states.len(),
    ensures
        models_of(states)[i] == state_model(states[i]),
{
}


} // verus!
