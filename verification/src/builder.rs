//! A builder that replays a finished automaton state by state: it exists
//! for generated code that embeds a compiled pattern into a host program
//! by appending each state in order and sealing the result.

use crate::character_sets::CharSet;
use crate::nfa::State;
use crate::rejects::Rejects;
use vstd::prelude::*;

verus! {

/// Accumulates a start index and an ordered list of states, then seals
/// them into a [`Rejects`] automaton.
pub struct Builder {
    start: usize,
    statelist: Vec<State>,
}

impl Builder {
    pub closed spec fn spec_start(&self) -> usize {
        self.start
    }

    pub closed spec fn spec_states(&self) -> Seq<State> {
        self.statelist@
    }

    pub fn new(start: usize) -> (r: Builder)
        ensures
            r.spec_start() == start,
            r.spec_states() == Seq::<State>::empty(),
    {
        let r = Builder { start, statelist: Vec::new() };
        proof {
            assert(r.spec_states() =~= Seq::<State>::empty());
        }
        r
    }

    pub fn build(self) -> (r: Rejects)
        ensures
            r.spec_start() == self.spec_start(),
            r.spec_states() == self.spec_states(),
    {
        Rejects::from(self.start, self.statelist)
    }

    pub fn add_state(&mut self, state: State)
        ensures
            final(self).spec_start() == old(self).spec_start(),
            final(self).spec_states() == old(self).spec_states().push(state),
    {
        self.statelist.push(state);
    }

    pub fn with_transition(&mut self, inclusive: CharSet, exclusive: CharSet, out: Option<usize>)
        ensures
            final(self).spec_start() == old(self).spec_start(),
            final(self).spec_states() == old(self).spec_states().push(
                State::Transition { inclusive, exclusive, out },
            ),
    {
        self.statelist.push(State::Transition { inclusive, exclusive, out });
    }

    pub fn with_split(&mut self, out1: usize, out2: Option<usize>)
        ensures
            final(self).spec_start() == old(self).spec_start(),
            final(self).spec_states() == old(self).spec_states().push(
                State::Split { out1, out2 },
            ),
    {
        self.statelist.push(State::Split { out1, out2 });
    }

    pub fn with_match(&mut self)
        ensures
            final(self).spec_start() == old(self).spec_start(),
            final(self).spec_states() == old(self).spec_states().push(State::Match),
    {
        self.statelist.push(State::Match);
    }

    pub fn with_nil(&mut self)
        ensures
            final(self).spec_start() == old(self).spec_start(),
            final(self).spec_states() == old(self).spec_states().push(State::Nil),
    {
        self.statelist.push(State::Nil);
    }
}

} // verus!
