//! The finished automaton and its matching engine: whole-string acceptance
//! and longest-viable-prefix search by epsilon-closure subset simulation,
//! which never backtracks.

use crate::character_sets::to_char_vec;
use crate::nfa::{lemma_models_index, lemma_same_model_transition, models_of, spec_state_transition, state_model, states_refs_wf, State, StateModel};
use vstd::prelude::*;

verus! {

/// An epsilon (non-consuming) edge of the automaton: from a `Split` state
/// to either of its in-range successors.
pub open spec fn eps_edge(states: Seq<State>, a: int, b: int) -> bool {
    &&& 0 <= a < states.len()
    &&& 0 <= b < states.len()
    &&& match states[a] {
        State::Split { out1, out2 } => out1 == b || (out2 matches Some(o) && o == b),
        _ => false,
    }
}

/// A non-empty sequence of states where each neighbouring pair is joined by
/// an epsilon edge.
pub open spec fn is_eps_path(states: Seq<State>, p: Seq<int>) -> bool {
    p.len() >= 1 && forall|k: int|
        0 <= k < p.len() - 1 ==> eps_edge(states, #[trigger] p[k], p[k + 1])
}

/// `b` is reachable from `a` by one or more epsilon edges.
pub open spec fn eps_reach_plus(states: Seq<State>, a: int, b: int) -> bool {
    exists|p: Seq<int>|
        is_eps_path(states, p) && p.len() >= 2 && p.first() == a && p.last() == b
}

/// `b` is reachable from `a` by zero or more epsilon edges.
pub open spec fn eps_reach(states: Seq<State>, a: int, b: int) -> bool {
    a == b || eps_reach_plus(states, a, b)
}

/// The set `v` is closed under epsilon edges.
pub open spec fn eps_closed(states: Seq<State>, v: Set<int>) -> bool {
    forall|a: int, b: int|
        #![trigger v.contains(a), eps_edge(states, a, b)]
        v.contains(a) && eps_edge(states, a, b) ==> v.contains(b)
}

/// The initial frontier: the start state together with everything it
/// reaches by epsilon edges (empty when the start index is out of range).
pub open spec fn frontier0(start: usize, states: Seq<State>) -> Set<int> {
    Set::new(
        |b: int| (start as int) < states.len() && 0 <= b < states.len() && eps_reach(states, start as int, b),
    )
}

/// Where state `i` moves on character `c`, restricted to in-range targets.
pub open spec fn trans_target(states: Seq<State>, i: int, c: char) -> Option<int> {
    if 0 <= i < states.len() {
        match spec_state_transition(states[i], c) {
            Some(o) => if (o as int) < states.len() {
                Some(o as int)
            } else {
                None
            },
            None => None,
        }
    } else {
        None
    }
}

/// State `i` can reach `b` by one matching character move on `c` followed
/// by any number of epsilon edges.
pub open spec fn moves_to(states: Seq<State>, i: int, c: char, b: int) -> bool {
    let t = trans_target(states, i, c);
    t matches Some(o) && eps_reach(states, o, b)
}

/// One simulation step: every state reachable from the frontier `f` by one
/// matching character move on `c`, followed by any number of epsilon edges.
pub open spec fn step_frontier(states: Seq<State>, f: Set<int>, c: char) -> Set<int> {
    Set::new(|b: int| exists|i: int| #[trigger] f.contains(i) && moves_to(states, i, c, b))
}

/// As `step_frontier`, but only frontier states below `k` contribute.
pub(crate) open spec fn step_upto(states: Seq<State>, f: Set<int>, c: char, k: int) -> Set<int> {
    Set::new(
        |b: int| exists|i: int| 0 <= i < k && #[trigger] f.contains(i) && moves_to(states, i, c, b),
    )
}

/// The frontier `f` contains an accepting (`Match`) state.
pub open spec fn accept_frontier(states: Seq<State>, f: Set<int>) -> bool {
    exists|i: int| #[trigger] f.contains(i) && 0 <= i < states.len() && states[i] is Match
}

pub open spec fn set_is_empty(f: Set<int>) -> bool {
    forall|i: int| !(#[trigger] f.contains(i))
}

/// Whole-string acceptance from frontier `f`: consume every character of
/// `cs` in order, then accept exactly when the final frontier contains a
/// `Match` state.
pub open spec fn match_run(states: Seq<State>, f: Set<int>, cs: Seq<char>) -> bool
    decreases cs.len(),
{
    if cs.len() == 0 {
        accept_frontier(states, f)
    } else {
        match_run(states, step_frontier(states, f, cs[0]), cs.drop_first())
    }
}

/// Longest-viable-prefix search from frontier `f`, with `consumed`
/// characters already consumed: as soon as a step empties the frontier the
/// index of the previously consumed character is reported; if all of `cs`
/// is consumed, the index of its last character is reported when the final
/// frontier accepts, and `-1` otherwise.
pub open spec fn find_run(states: Seq<State>, f: Set<int>, cs: Seq<char>, consumed: int) -> int
    decreases cs.len(),
{
    if cs.len() == 0 {
        if accept_frontier(states, f) {
            consumed - 1
        } else {
            -1
        }
    } else {
        let f1 = step_frontier(states, f, cs[0]);
        if set_is_empty(f1) {
            consumed - 1
        } else {
            find_run(states, f1, cs.drop_first(), consumed + 1)
        }
    }
}

/// What `is_match` returns on automaton `(start, states)` and text `text`.
pub open spec fn spec_is_match(start: usize, states: Seq<State>, text: Seq<char>) -> bool {
    match_run(states, frontier0(start, states), text)
}

/// What `find_end` returns on automaton `(start, states)` and text `text`.
pub open spec fn spec_find_end(start: usize, states: Seq<State>, text: Seq<char>) -> int {
    find_run(states, frontier0(start, states), text, 0)
}

/// The set of indices marked true in a bitmap.
pub(crate) open spec fn bitmap_set(v: Seq<bool>) -> Set<int> {
    Set::new(|i: int| 0 <= i < v.len() && v[i])
}

/// The number of indices marked true in a bitmap.
pub(crate) open spec fn count_true(v: Seq<bool>) -> int
    decreases v.len(),
{
    if v.len() == 0 {
        0
    } else {
        count_true(v.drop_last()) + if v.last() {
            1int
        } else {
            0int
        }
    }
}

pub(crate) proof fn lemma_count_true_bounds(v: Seq<bool>)
    ensures
        0 <= count_true(v) <= v.len(),
    decreases v.len(),
{
    if v.len() > 0 {
        lemma_count_true_bounds(v.drop_last());
    }
}

pub(crate) proof fn lemma_count_true_update(v: Seq<bool>, i: int)
    requires
        0 <= i < v.len(),
        !v[i],
    ensures
        count_true(v.update(i, true)) == count_true(v) + 1,
    decreases v.len(),
{
    let u = v.update(i, true);
    if i == v.len() - 1 {
        assert(u.drop_last() =~= v.drop_last());
    } else {
        assert(u.drop_last() =~= v.drop_last().update(i, true));
        lemma_count_true_update(v.drop_last(), i);
    }
}

/// An epsilon edge is a one-step epsilon path.
pub(crate) proof fn lemma_edge_reach_plus(states: Seq<State>, a: int, b: int)
    requires
        eps_edge(states, a, b),
    ensures
        eps_reach_plus(states, a, b),
{
    let p = seq![a, b];
    assert(is_eps_path(states, p));
    assert(p.first() == a && p.last() == b);
}

/// The endpoints of a non-trivial epsilon-reachability fact lie in range.
pub(crate) proof fn lemma_reach_plus_bounds(states: Seq<State>, a: int, b: int)
    requires
        eps_reach_plus(states, a, b),
    ensures
        0 <= a < states.len(),
        0 <= b < states.len(),
{
    let p = choose|p: Seq<int>|
        is_eps_path(states, p) && p.len() >= 2 && p.first() == a && p.last() == b;
    assert(eps_edge(states, p[0], p[1]));
    assert(eps_edge(states, p[p.len() - 2], p[p.len() - 1]));
}

/// Epsilon reachability extends across one more edge.
pub(crate) proof fn lemma_reach_extend(states: Seq<State>, a: int, m: int, b: int)
    requires
        eps_reach(states, a, m),
        eps_edge(states, m, b),
    ensures
        eps_reach_plus(states, a, b),
{
    if a == m {
        lemma_edge_reach_plus(states, a, b);
    } else {
        let p = choose|p: Seq<int>|
            is_eps_path(states, p) && p.len() >= 2 && p.first() == a && p.last() == m;
        let q = p.push(b);
        assert forall|k: int| 0 <= k < q.len() - 1 implies eps_edge(states, #[trigger] q[k], q[k + 1]) by {
            if k < p.len() - 1 {
                assert(eps_edge(states, p[k], p[k + 1]));
            }
        }
        assert(is_eps_path(states, q));
        assert(q.first() == a && q.last() == b);
    }
}

/// Following an epsilon path out of a closed set never leaves the set.
pub(crate) proof fn lemma_path_stays_in_closed(states: Seq<State>, v: Set<int>, p: Seq<int>)
    requires
        is_eps_path(states, p),
        eps_closed(states, v),
        v.contains(p.first()),
    ensures
        v.contains(p.last()),
    decreases p.len(),
{
    if p.len() > 1 {
        assert(eps_edge(states, p[0], p[1]));
        let q = p.drop_first();
        assert(is_eps_path(states, q));
        assert(v.contains(q.first()));
        lemma_path_stays_in_closed(states, v, q);
    }
}

/// From an empty frontier nothing is ever accepted.
pub(crate) proof fn lemma_match_run_empty(states: Seq<State>, f: Set<int>, cs: Seq<char>)
    requires
        set_is_empty(f),
    ensures
        !match_run(states, f, cs),
    decreases cs.len(),
{
    if cs.len() == 0 {
    } else {
        let f1 = step_frontier(states, f, cs[0]);
        assert(set_is_empty(f1));
        lemma_match_run_empty(states, f1, cs.drop_first());
    }
}

/// `a` occurs in the worklist `st`.
pub(crate) open spec fn stack_contains(st: Seq<usize>, a: int) -> bool {
    exists|k: int| 0 <= k < st.len() && st[k] == a
}

/// The finished automaton: an entry index and the arena of its states.
/// It is immutable after construction; matching never mutates it, so any
/// number of readers may match concurrently.
pub struct Rejects {
    pub(crate) start: usize,
    pub(crate) statelist: Vec<State>,
}

impl Rejects {
    /// The entry state index.
    pub closed spec fn spec_start(&self) -> usize {
        self.start
    }

    /// The arena of states.
    pub closed spec fn spec_states(&self) -> Seq<State> {
        self.statelist@
    }

    pub(crate) fn from(start: usize, states: Vec<State>) -> (r: Rejects)
        ensures
            r.spec_start() == start,
            r.spec_states() == states@,
    {
        Rejects { start, statelist: states }
    }

    /// Compiles `pat` into an automaton. On failure the error list is
    /// never empty; on success the automaton is well-formed (its start
    /// index and every stored successor index lie inside the arena), and
    /// its model is the one outcome that parsing `pat` can yield, so
    /// compilation is deterministic up to matching behavior.
    pub fn new(pat: &str) -> (r: Result<Rejects, Vec<u32>>)
        requires
            pat@.len() <= u32::MAX,
        ensures
            r matches Err(e) ==> e@.len() > 0 && crate::parser::parse_outcome_of(
                pat@,
                (crate::parser::ParseOutcome { ok: None, nerr: e@.len() as int }),
            ),
            r matches Ok(rej) ==> rej.spec_start() < rej.spec_states().len() && states_refs_wf(
                rej.spec_states(),
            ) && crate::parser::parse_outcome_of(
                pat@,
                (crate::parser::ParseOutcome {
                    ok: Some((rej.spec_start(), models_of(rej.spec_states()))),
                    nerr: 0,
                }),
            ),
    {
        match crate::parser::parse(pat) {
            Ok(pair) => {
                let (start, statelist) = pair;
                Ok(Rejects::from(start, statelist))
            },
            Err(e) => Err(e),
        }
    }

    /// The entry state's index.
    pub fn start(&self) -> (r: usize)
        ensures
            r == self.spec_start(),
    {
        self.start
    }

    /// How many states the automaton holds.
    pub fn state_count(&self) -> (r: usize)
        ensures
            r == self.spec_states().len(),
    {
        self.statelist.len()
    }

    /// Read-only access to state `i`, for enumeration of the finished
    /// automaton.
    pub fn state_at(&self, i: usize) -> (r: &State)
        requires
            i < self.spec_states().len(),
        ensures
            *r == self.spec_states()[i as int],
    {
        &self.statelist[i]
    }

    /// Marks every state reachable from `state` by one or more epsilon
    /// edges. The marked set must already be closed under epsilon edges
    /// (so that exploration may stop at already-marked states) and stays
    /// closed.
    #[verifier::rlimit(100)]
    #[verifier::spinoff_prover]
    pub(crate) fn epsilon_transition(&self, newstates: &mut Vec<bool>, state: usize)
        requires
            old(newstates)@.len() == self.statelist@.len(),
            state < self.statelist@.len(),
            eps_closed(self.statelist@, bitmap_set(old(newstates)@)),
        ensures
            final(newstates)@.len() == old(newstates)@.len(),
            bitmap_set(final(newstates)@) == bitmap_set(old(newstates)@).union(
                Set::new(|b: int| eps_reach_plus(self.statelist@, state as int, b)),
            ),
            eps_closed(self.statelist@, bitmap_set(final(newstates)@)),
    {
        let ghost sts = self.statelist@;
        let ghost init = bitmap_set(old(newstates)@);
        let ghost root = state as int;
        let n = self.statelist.len();
        let mut stack: Vec<usize> = Vec::new();
        stack.push(state);
        proof {
            assert(stack@[0] == state);
            assert forall|a: int, b: int|
                ((a == root || bitmap_set(newstates@).contains(a)) && #[trigger] eps_edge(
                    sts,
                    a,
                    b,
                )) implies (bitmap_set(newstates@).contains(b) || stack_contains(stack@, a)) by {
                if a == root {
                    assert(stack_contains(stack@, a));
                } else {
                    assert(init.contains(a) && eps_edge(sts, a, b));
                    assert(init.contains(b));
                }
            }
        }
        while stack.len() > 0
            invariant
                newstates@.len() == n,
                n == sts.len(),
                sts == self.statelist@,
                0 <= root < n,
                init == bitmap_set(old(newstates)@),
                eps_closed(sts, init),
                forall|b: int| init.contains(b) ==> #[trigger] bitmap_set(newstates@).contains(b),
                forall|k: int| 0 <= k < stack@.len() ==> (#[trigger] stack@[k] as int) < n,
                forall|k: int| 0 <= k < stack@.len() ==> eps_reach(sts, root, #[trigger] stack@[k] as int),
                forall|b: int| #[trigger] bitmap_set(newstates@).contains(b) ==> init.contains(b)
                    || eps_reach_plus(sts, root, b),
                forall|a: int, b: int| #![trigger eps_edge(sts, a, b)]
                    ((a == root || bitmap_set(newstates@).contains(a)) && eps_edge(sts, a, b))
                        ==> (bitmap_set(newstates@).contains(b) || stack_contains(stack@, a)),
            decreases stack@.len() + 2 * (n - count_true(newstates@)),
        {
            proof {
                lemma_count_true_bounds(newstates@);
            }
            let ghost m0 = newstates@;
            let ghost st0 = stack@;
            let s = stack.pop().unwrap();
            assert(s == st0[st0.len() - 1]);
            assert(eps_reach(sts, root, s as int));
            let mut o1opt: Option<usize> = None;
            let mut o2opt: Option<usize> = None;
            match &self.statelist[s] {
                State::Split { out1, out2 } => {
                    o1opt = Some(*out1);
                    o2opt = *out2;
                },
                _ => {},
            }
            proof {
                assert forall|b: int| #[trigger] eps_edge(sts, s as int, b) implies
                    ((o1opt matches Some(x) && x == b) || (o2opt matches Some(x) && x == b)) by {}
            }
            let mut fresh1: Option<usize> = None;
            let mut fresh2: Option<usize> = None;
            if let Some(o1) = o1opt {
                if o1 < n && !newstates[o1] {
                    fresh1 = Some(o1);
                    let ghost before = newstates@;
                    newstates[o1] = true;
                    stack.push(o1);
                    proof {
                        lemma_count_true_update(before, o1 as int);
                        assert(count_true(newstates@) == count_true(before) + 1);
                        assert(eps_edge(sts, s as int, o1 as int));
                        lemma_reach_extend(sts, root, s as int, o1 as int);
                        assert(bitmap_set(newstates@) =~= bitmap_set(before).insert(o1 as int));
                    }
                }
            }
            if let Some(o2) = o2opt {
                if o2 < n && !newstates[o2] {
                    fresh2 = Some(o2);
                    let ghost before = newstates@;
                    newstates[o2] = true;
                    stack.push(o2);
                    proof {
                        lemma_count_true_update(before, o2 as int);
                        assert(count_true(newstates@) == count_true(before) + 1);
                        assert(eps_edge(sts, s as int, o2 as int));
                        lemma_reach_extend(sts, root, s as int, o2 as int);
                        assert(bitmap_set(newstates@) =~= bitmap_set(before).insert(o2 as int));
                    }
                }
            }
            proof {
                assert forall|x: int| bitmap_set(m0).contains(x) implies bitmap_set(
                    newstates@,
                ).contains(x) by {}
                assert(o1opt matches Some(o) ==> (o as int) < n ==> bitmap_set(
                    newstates@,
                ).contains(o as int));
                assert(o2opt matches Some(o) ==> (o as int) < n ==> bitmap_set(
                    newstates@,
                ).contains(o as int));
                lemma_count_true_bounds(newstates@);
                assert(stack@.len() + 2 * (n - count_true(newstates@)) < st0.len() + 2 * (n
                    - count_true(m0)));
                assert(fresh1 matches Some(f) ==> stack@[(st0.len() - 1) as int] == f);
                assert(fresh2 matches Some(f) ==> stack@.last() == f);
                assert forall|x: int|
                    bitmap_set(newstates@).contains(x) && !bitmap_set(m0).contains(x) implies ((
                    fresh1 matches Some(ff) && ff == x) || (fresh2 matches Some(ff) && ff
                    == x)) by {}
                assert forall|a: int, b: int|
                    ((a == root || bitmap_set(newstates@).contains(a)) && #[trigger] eps_edge(
                        sts,
                        a,
                        b,
                    )) implies (bitmap_set(newstates@).contains(b) || stack_contains(stack@, a)) by {
                    if a == s as int {
                        assert(eps_edge(sts, s as int, b));
                        assert((o1opt matches Some(x) && x == b) || (o2opt matches Some(x) && x
                            == b));
                        assert(bitmap_set(newstates@).contains(b));
                    } else if !bitmap_set(newstates@).contains(b) {
                        assert(!bitmap_set(m0).contains(b));
                        if a != root && !bitmap_set(m0).contains(a) {
                            assert((fresh1 matches Some(ff) && ff == a) || (fresh2
                                matches Some(ff) && ff == a));
                            assert(stack_contains(stack@, a));
                        } else {
                            assert(stack_contains(st0, a));
                            let k = choose|k: int| 0 <= k < st0.len() && st0[k] == a;
                            assert(k < st0.len() - 1);
                            assert(stack@[k] == a);
                        }
                    }
                }
            }
        }
        proof {
            let target = init.union(Set::new(|b: int| eps_reach_plus(sts, root, b)));
            let marked = bitmap_set(newstates@);
            assert forall|b: int| target.contains(b) implies marked.contains(b) by {
                if !init.contains(b) {
                    let p = choose|p: Seq<int>|
                        is_eps_path(sts, p) && p.len() >= 2 && p.first() == root && p.last() == b;
                    assert(eps_edge(sts, p[0], p[1]));
                    assert(marked.contains(p[1]));
                    let q = p.drop_first();
                    assert(is_eps_path(sts, q));
                    assert(q.first() == p[1] && q.last() == b);
                    lemma_path_stays_in_closed(sts, marked, q);
                }
            }
            assert(bitmap_set(newstates@) =~= target);
        }
    }

    /// Adds the matching-character target of state `state` on `symbol`,
    /// together with its whole epsilon closure, to the marked set. The
    /// marked set must be closed under epsilon edges and stays closed.
    pub(crate) fn character_transition(&self, newstates: &mut Vec<bool>, state: usize, symbol: char)
        requires
            old(newstates)@.len() == self.statelist@.len(),
            state < self.statelist@.len(),
            eps_closed(self.statelist@, bitmap_set(old(newstates)@)),
        ensures
            final(newstates)@.len() == old(newstates)@.len(),
            bitmap_set(final(newstates)@) == bitmap_set(old(newstates)@).union(
                Set::new(|b: int| moves_to(self.statelist@, state as int, symbol, b)),
            ),
            eps_closed(self.statelist@, bitmap_set(final(newstates)@)),
    {
        let ghost sts = self.statelist@;
        let ghost init = bitmap_set(old(newstates)@);
        let ghost tset = Set::new(|b: int| moves_to(sts, state as int, symbol, b));
        let n = self.statelist.len();
        match self.statelist[state].transition(symbol) {
            Some(out) => {
                if out < n {
                    self.epsilon_transition(newstates, out);
                    let ghost mid = bitmap_set(newstates@);
                    if !newstates[out] {
                        let ghost before = newstates@;
                        newstates[out] = true;
                        proof {
                            assert(bitmap_set(newstates@) =~= bitmap_set(before).insert(
                                out as int,
                            ));
                        }
                    }
                    proof {
                        let now = bitmap_set(newstates@);
                        assert(trans_target(sts, state as int, symbol) == Some(out as int));
                        assert forall|a: int, b: int|
                            (now.contains(a) && #[trigger] eps_edge(sts, a, b)) implies now.contains(
                            b,
                        ) by {
                            if a == out as int {
                                lemma_edge_reach_plus(sts, a, b);
                                assert(mid.contains(b));
                            } else {
                                assert(mid.contains(a));
                                assert(mid.contains(b));
                            }
                        }
                        assert(now =~= init.union(tset));
                    }
                } else {
                    proof {
                        assert(trans_target(sts, state as int, symbol) is None);
                        assert(bitmap_set(newstates@) =~= init.union(tset));
                    }
                }
            },
            None => {
                proof {
                    assert(trans_target(sts, state as int, symbol) is None);
                    assert(bitmap_set(newstates@) =~= init.union(tset));
                }
            },
        }
    }

    /// The initial frontier as a bitmap: the start state and its whole
    /// epsilon closure (empty when the start index is out of range).
    fn initial_frontier(&self) -> (v: Vec<bool>)
        ensures
            v@.len() == self.statelist@.len(),
            bitmap_set(v@) == frontier0(self.spec_start(), self.statelist@),
            eps_closed(self.statelist@, bitmap_set(v@)),
    {
        let ghost sts = self.statelist@;
        let n = self.statelist.len();
        let mut v = make_false_vec(n);
        if self.start < n {
            self.epsilon_transition(&mut v, self.start);
            let ghost mid = bitmap_set(v@);
            if !v[self.start] {
                let ghost before = v@;
                v[self.start] = true;
                proof {
                    assert(bitmap_set(v@) =~= bitmap_set(before).insert(self.start as int));
                }
            }
            proof {
                let now = bitmap_set(v@);
                let root = self.start as int;
                assert forall|a: int, b: int|
                    (now.contains(a) && #[trigger] eps_edge(sts, a, b)) implies now.contains(b) by {
                    if a == root {
                        lemma_edge_reach_plus(sts, a, b);
                        assert(mid.contains(b));
                    } else {
                        assert(mid.contains(a));
                        assert(mid.contains(b));
                    }
                }
                assert forall|b: int| now.contains(b) implies #[trigger] frontier0(
                    self.spec_start(),
                    sts,
                ).contains(b) by {
                    if b != root {
                        lemma_reach_plus_bounds(sts, root, b);
                    }
                }
                assert(now =~= frontier0(self.spec_start(), sts));
            }
        } else {
            proof {
                assert(bitmap_set(v@) =~= frontier0(self.spec_start(), sts));
            }
        }
        v
    }

    /// One simulation step over the whole frontier: the result marks every
    /// state reachable from a marked state by one matching move on `c`
    /// followed by epsilon edges.
    fn step_once(&self, states_bm: &Vec<bool>, c: char) -> (v: Vec<bool>)
        requires
            states_bm@.len() == self.statelist@.len(),
        ensures
            v@.len() == self.statelist@.len(),
            bitmap_set(v@) == step_frontier(self.statelist@, bitmap_set(states_bm@), c),
            eps_closed(self.statelist@, bitmap_set(v@)),
    {
        let ghost sts = self.statelist@;
        let ghost f = bitmap_set(states_bm@);
        let n = self.statelist.len();
        let mut newstates = make_false_vec(n);
        proof {
            assert(bitmap_set(newstates@) =~= step_upto(sts, f, c, 0));
        }
        let mut st: usize = 0;
        while st < n
            invariant
                sts == self.statelist@,
                n == sts.len(),
                f == bitmap_set(states_bm@),
                states_bm@.len() == n,
                newstates@.len() == n,
                st <= n,
                eps_closed(sts, bitmap_set(newstates@)),
                bitmap_set(newstates@) == step_upto(sts, f, c, st as int),
            decreases n - st,
        {
            let ghost before_set = bitmap_set(newstates@);
            if states_bm[st] {
                self.character_transition(&mut newstates, st, c);
                proof {
                    assert(f.contains(st as int));
                    assert forall|b: int| #[trigger] step_upto(sts, f, c, st + 1).contains(b)
                        implies bitmap_set(newstates@).contains(b) by {
                        let i = choose|i: int|
                            0 <= i < st + 1 && f.contains(i) && moves_to(sts, i, c, b);
                        if i < st {
                            assert(step_upto(sts, f, c, st as int).contains(b));
                            assert(before_set.contains(b));
                        } else {
                            assert(moves_to(sts, st as int, c, b));
                        }
                    }
                    assert forall|b: int| #[trigger] bitmap_set(newstates@).contains(b) implies
                        step_upto(sts, f, c, st + 1).contains(b) by {
                        if before_set.contains(b) {
                            let i = choose|i: int|
                                0 <= i < st && f.contains(i) && moves_to(sts, i, c, b);
                            assert(0 <= i < st + 1 && f.contains(i) && moves_to(sts, i, c, b));
                        } else {
                            assert(moves_to(sts, st as int, c, b));
                            assert(0 <= (st as int) < st + 1 && f.contains(st as int) && moves_to(
                                sts,
                                st as int,
                                c,
                                b,
                            ));
                        }
                    }
                    assert(bitmap_set(newstates@) =~= step_upto(sts, f, c, st + 1));
                }
            } else {
                proof {
                    assert(!f.contains(st as int));
                    assert forall|b: int| #[trigger] step_upto(sts, f, c, st + 1).contains(b)
                        implies step_upto(sts, f, c, st as int).contains(b) by {
                        let i = choose|i: int|
                            0 <= i < st + 1 && f.contains(i) && moves_to(sts, i, c, b);
                        assert(i != st);
                    }
                    assert(step_upto(sts, f, c, st + 1) =~= step_upto(sts, f, c, st as int));
                }
            }
            st = st + 1;
        }
        proof {
            assert forall|b: int| #[trigger] step_frontier(sts, f, c).contains(b) implies step_upto(
                sts,
                f,
                c,
                n as int,
            ).contains(b) by {
                let i = choose|i: int| f.contains(i) && moves_to(sts, i, c, b);
                assert(0 <= i < n && f.contains(i) && moves_to(sts, i, c, b));
            }
            assert forall|b: int| #[trigger] step_upto(sts, f, c, n as int).contains(b) implies
                step_frontier(sts, f, c).contains(b) by {
                let i = choose|i: int| 0 <= i < n && f.contains(i) && moves_to(sts, i, c, b);
                assert(f.contains(i) && moves_to(sts, i, c, b));
            }
            assert(bitmap_set(newstates@) =~= step_frontier(sts, f, c));
        }
        newstates
    }

    /// Whether the marked frontier contains a `Match` state.
    fn accepts(&self, bm: &Vec<bool>) -> (r: bool)
        requires
            bm@.len() == self.statelist@.len(),
        ensures
            r == accept_frontier(self.statelist@, bitmap_set(bm@)),
    {
        let ghost sts = self.statelist@;
        let n = self.statelist.len();
        let mut j: usize = 0;
        while j < n
            invariant
                sts == self.statelist@,
                n == sts.len(),
                bm@.len() == n,
                j <= n,
                forall|k: int|
                    0 <= k < j ==> !(#[trigger] bitmap_set(bm@).contains(k) && sts[k] is Match),
            decreases n - j,
        {
            if bm[j] {
                match &self.statelist[j] {
                    State::Match => {
                        proof {
                            assert(bitmap_set(bm@).contains(j as int));
                        }
                        return true;
                    },
                    _ => {},
                }
            }
            j = j + 1;
        }
        false
    }

    /// Whether the automaton accepts the whole of `s`: the frontier starts
    /// at the epsilon closure of the start state, advances once per
    /// character, and must end in a frontier containing a `Match` state.
    /// An empty frontier can never accept, so the search stops early.
    pub fn is_match(&self, s: &str) -> (r: bool)
        ensures
            r == spec_is_match(self.spec_start(), self.spec_states(), s@),
    {
        let ghost sts = self.statelist@;
        let chars = to_char_vec(s);
        let mut states_bm = self.initial_frontier();
        let mut i: usize = 0;
        proof {
            assert(s@.skip(0) =~= s@);
        }
        while i < chars.len()
            invariant
                sts == self.statelist@,
                chars@ == s@,
                states_bm@.len() == sts.len(),
                i <= chars@.len(),
                eps_closed(sts, bitmap_set(states_bm@)),
                match_run(sts, bitmap_set(states_bm@), s@.skip(i as int)) == spec_is_match(
                    self.spec_start(),
                    sts,
                    s@,
                ),
            decreases chars@.len() - i,
        {
            let newstates = self.step_once(&states_bm, chars[i]);
            proof {
                assert(s@.skip(i as int)[0] == s@[i as int]);
                assert(s@.skip(i as int).drop_first() =~= s@.skip(i + 1));
            }
            if !any_true(&newstates) {
                proof {
                    lemma_match_run_empty(sts, bitmap_set(newstates@), s@.skip(i + 1));
                }
                return false;
            }
            states_bm = newstates;
            i = i + 1;
        }
        proof {
            assert(s@.skip(s@.len() as int) =~= Seq::<char>::empty());
        }
        self.accepts(&states_bm)
    }

    /// The index of the last character that still had a viable
    /// continuation, found by maximal munch: the frontier advances one
    /// character at a time, and as soon as it empties the index of the
    /// previously consumed character is returned. When the whole text is
    /// consumed, the index of its last character is returned if the final
    /// frontier accepts, and `-1` otherwise.
    pub fn find_end(&self, s: &str) -> (r: isize)
        requires
            s@.len() <= isize::MAX,
        ensures
            r as int == spec_find_end(self.spec_start(), self.spec_states(), s@),
    {
        let ghost sts = self.statelist@;
        let chars = to_char_vec(s);
        let mut states_bm = self.initial_frontier();
        let mut i: usize = 0;
        proof {
            assert(s@.skip(0) =~= s@);
        }
        while i < chars.len()
            invariant
                sts == self.statelist@,
                chars@ == s@,
                s@.len() <= isize::MAX,
                states_bm@.len() == sts.len(),
                i <= chars@.len(),
                eps_closed(sts, bitmap_set(states_bm@)),
                find_run(sts, bitmap_set(states_bm@), s@.skip(i as int), i as int)
                    == spec_find_end(self.spec_start(), sts, s@),
            decreases chars@.len() - i,
        {
            let newstates = self.step_once(&states_bm, chars[i]);
            proof {
                assert(s@.skip(i as int)[0] == s@[i as int]);
                assert(s@.skip(i as int).drop_first() =~= s@.skip(i + 1));
            }
            if !any_true(&newstates) {
                return (i as isize) - 1;
            }
            states_bm = newstates;
            i = i + 1;
        }
        proof {
            assert(s@.skip(s@.len() as int) =~= Seq::<char>::empty());
        }
        if self.accepts(&states_bm) {
            (chars.len() as isize) - 1
        } else {
            -1
        }
    }
}

/// The prefix search never reports an index beyond the last character.
pub(crate) proof fn lemma_find_run_bound(states: Seq<State>, f: Set<int>, cs: Seq<char>, consumed: int)
    requires
        consumed >= 0,
    ensures
        find_run(states, f, cs, consumed) <= consumed + cs.len() - 1,
    decreases cs.len(),
{
    if cs.len() > 0 {
        let f1 = step_frontier(states, f, cs[0]);
        if !set_is_empty(f1) {
            lemma_find_run_bound(states, f1, cs.drop_first(), consumed + 1);
        }
    }
}

/// On non-empty input, a whole-string match is reported exactly when the
/// prefix search reaches the last character.
pub(crate) proof fn lemma_find_match_agree(
    states: Seq<State>,
    f: Set<int>,
    cs: Seq<char>,
    consumed: int,
)
    requires
        cs.len() > 0,
        consumed >= 0,
    ensures
        match_run(states, f, cs) <==> find_run(states, f, cs, consumed) == consumed + cs.len() - 1,
    decreases cs.len(),
{
    let f1 = step_frontier(states, f, cs[0]);
    let rest = cs.drop_first();
    if cs.len() == 1 {
        reveal_with_fuel(find_run, 2);
        reveal_with_fuel(match_run, 2);
        if set_is_empty(f1) {
            lemma_match_run_empty(states, f1, rest);
        }
    } else {
        if set_is_empty(f1) {
            lemma_match_run_empty(states, f1, rest);
        } else {
            lemma_find_match_agree(states, f1, rest, consumed + 1);
        }
    }
}

/// The two matching entry points agree. On any automaton and any
/// non-empty text: `find_end` never reports beyond the last character;
/// it reports exactly the last character's index when `is_match` holds,
/// and therefore reports strictly less when `is_match` does not hold.
pub proof fn lemma_find_end_is_match(start: usize, states: Seq<State>, text: Seq<char>)
    requires
        text.len() > 0,
    ensures
        spec_find_end(start, states, text) <= text.len() - 1,
        spec_is_match(start, states, text) <==> spec_find_end(start, states, text) == text.len()
            - 1,
{
    let f0 = frontier0(start, states);
    lemma_find_run_bound(states, f0, text, 0);
    lemma_find_match_agree(states, f0, text, 0);
}

/// Model-equal arenas have the same epsilon edges.
pub(crate) proof fn lemma_same_model_edges(states1: Seq<State>, states2: Seq<State>)
    requires
        models_of(states1) == models_of(states2),
    ensures
        states1.len() == states2.len(),
        forall|a: int, b: int| eps_edge(states1, a, b) == #[trigger] eps_edge(states2, a, b),
{
    assert(models_of(states1).len() == states1.len());
    assert(models_of(states2).len() == states2.len());
    assert forall|a: int, b: int|
        eps_edge(states1, a, b) == #[trigger] eps_edge(states2, a, b) by {
        if 0 <= a < states1.len() {
            lemma_models_index(states1, a);
            lemma_models_index(states2, a);
            assert(state_model(states1[a]) == state_model(states2[a]));
        }
    }
}

/// Model-equal arenas have the same epsilon reachability.
pub(crate) proof fn lemma_same_model_reach(states1: Seq<State>, states2: Seq<State>)
    requires
        models_of(states1) == models_of(states2),
    ensures
        forall|a: int, b: int| eps_reach(states1, a, b) == #[trigger] eps_reach(states2, a, b),
{
    lemma_same_model_edges(states1, states2);
    assert forall|p: Seq<int>| is_eps_path(states1, p) == #[trigger] is_eps_path(states2, p) by {
        if is_eps_path(states1, p) {
            assert forall|k: int| 0 <= k < p.len() - 1 implies eps_edge(
                states2,
                #[trigger] p[k],
                p[k + 1],
            ) by {
                assert(eps_edge(states1, p[k], p[k + 1]));
            }
        }
        if is_eps_path(states2, p) {
            assert forall|k: int| 0 <= k < p.len() - 1 implies eps_edge(
                states1,
                #[trigger] p[k],
                p[k + 1],
            ) by {
                assert(eps_edge(states2, p[k], p[k + 1]));
            }
        }
    }
    assert forall|a: int, b: int|
        eps_reach(states1, a, b) == #[trigger] eps_reach(states2, a, b) by {
        if eps_reach_plus(states1, a, b) {
            let p = choose|p: Seq<int>|
                is_eps_path(states1, p) && p.len() >= 2 && p.first() == a && p.last() == b;
            assert(is_eps_path(states2, p));
        }
        if eps_reach_plus(states2, a, b) {
            let p = choose|p: Seq<int>|
                is_eps_path(states2, p) && p.len() >= 2 && p.first() == a && p.last() == b;
            assert(is_eps_path(states1, p));
        }
    }
}

/// Model-equal arenas accept the same frontiers and step identically, so
/// both matching runs agree from any frontier.
pub(crate) proof fn lemma_same_model_runs(
    states1: Seq<State>,
    states2: Seq<State>,
    f: Set<int>,
    cs: Seq<char>,
    consumed: int,
)
    requires
        models_of(states1) == models_of(states2),
    ensures
        match_run(states1, f, cs) == match_run(states2, f, cs),
        find_run(states1, f, cs, consumed) == find_run(states2, f, cs, consumed),
    decreases cs.len(),
{
    lemma_same_model_edges(states1, states2);
    lemma_same_model_reach(states1, states2);
    assert forall|i: int| 0 <= i < states1.len() implies state_model(#[trigger] states1[i])
        == state_model(states2[i]) by {
        lemma_models_index(states1, i);
        lemma_models_index(states2, i);
    }
    assert(accept_frontier(states1, f) == accept_frontier(states2, f)) by {
        if accept_frontier(states1, f) {
            let i = choose|i: int| f.contains(i) && 0 <= i < states1.len() && states1[i] is Match;
            assert(state_model(states1[i]) == state_model(states2[i]));
            assert(states2[i] is Match);
        }
        if accept_frontier(states2, f) {
            let i = choose|i: int| f.contains(i) && 0 <= i < states2.len() && states2[i] is Match;
            assert(state_model(states1[i]) == state_model(states2[i]));
            assert(states1[i] is Match);
        }
    }
    if cs.len() > 0 {
        let c = cs[0];
        assert forall|i: int, b: int|
            moves_to(states1, i, c, b) == #[trigger] moves_to(states2, i, c, b) by {
            if 0 <= i < states1.len() {
                lemma_same_model_transition(states1[i], states2[i], c);
            }
        }
        assert(step_frontier(states1, f, c) =~= step_frontier(states2, f, c)) by {
            assert forall|b: int|
                step_frontier(states1, f, c).contains(b) == #[trigger] step_frontier(
                    states2,
                    f,
                    c,
                ).contains(b) by {
                if step_frontier(states1, f, c).contains(b) {
                    let i = choose|i: int| f.contains(i) && moves_to(states1, i, c, b);
                    assert(moves_to(states2, i, c, b));
                }
                if step_frontier(states2, f, c).contains(b) {
                    let i = choose|i: int| f.contains(i) && moves_to(states2, i, c, b);
                    assert(moves_to(states1, i, c, b));
                }
            }
        }
        lemma_same_model_runs(states1, states2, step_frontier(states1, f, c), cs.drop_first(), consumed + 1);
    }
}

/// Matching behavior is a function of the automaton's model alone: two
/// automata with the same start index and model-equal state arenas return
/// the same results from `is_match` and `find_end` on every text. In
/// particular, since compilation determines the model of its output from
/// the pattern alone, compiling a pattern twice yields automata that match
/// identically.
pub proof fn lemma_same_model_same_matching(
    start: usize,
    states1: Seq<State>,
    states2: Seq<State>,
    text: Seq<char>,
)
    requires
        models_of(states1) == models_of(states2),
    ensures
        spec_is_match(start, states1, text) == spec_is_match(start, states2, text),
        spec_find_end(start, states1, text) == spec_find_end(start, states2, text),
{
    lemma_same_model_edges(states1, states2);
    lemma_same_model_reach(states1, states2);
    assert(frontier0(start, states1) =~= frontier0(start, states2));
    lemma_same_model_runs(states1, states2, frontier0(start, states1), text, 0);
}

/// Idempotence of compilation: two successful compilations of the same
/// pattern yield automata with identical matching behavior on every text
/// (their state graphs need not be identical, only their models are, and
/// matching depends on the model alone).
pub proof fn lemma_compile_idempotent(
    pattern: Seq<char>,
    start1: usize,
    states1: Seq<State>,
    start2: usize,
    states2: Seq<State>,
    text: Seq<char>,
)
    requires
        crate::parser::parse_outcome_of(
            pattern,
            (crate::parser::ParseOutcome { ok: Some((start1, models_of(states1))), nerr: 0 }),
        ),
        crate::parser::parse_outcome_of(
            pattern,
            (crate::parser::ParseOutcome { ok: Some((start2, models_of(states2))), nerr: 0 }),
        ),
    ensures
        start1 == start2,
        spec_is_match(start1, states1, text) == spec_is_match(start2, states2, text),
        spec_find_end(start1, states1, text) == spec_find_end(start2, states2, text),
{
    crate::parser::lemma_parse_outcome_unique(
        pattern,
        (crate::parser::ParseOutcome { ok: Some((start1, models_of(states1))), nerr: 0 }),
        (crate::parser::ParseOutcome { ok: Some((start2, models_of(states2))), nerr: 0 }),
    );
    lemma_same_model_same_matching(start1, states1, states2, text);
}

/// A fresh all-false bitmap of length `n`.
fn make_false_vec(n: usize) -> (v: Vec<bool>)
    ensures
        v@.len() == n,
        forall|i: int| 0 <= i < n ==> !v@[i],
{
    let mut v: Vec<bool> = Vec::new();
    let mut i: usize = 0;
    while i < n
        invariant
            i <= n,
            v@.len() == i,
            forall|k: int| 0 <= k < i ==> !v@[k],
        decreases n - i,
    {
        v.push(false);
        i = i + 1;
    }
    v
}

/// Whether any index of the bitmap is marked.
fn any_true(v: &Vec<bool>) -> (r: bool)
    ensures
        r == !set_is_empty(bitmap_set(v@)),
{
    let mut i: usize = 0;
    while i < v.len()
        invariant
            i <= v@.len(),
            forall|k: int| 0 <= k < i ==> !v@[k],
        decreases v@.len() - i,
    {
        if v[i] {
            assert(bitmap_set(v@).contains(i as int));
            return true;
        }
        i = i + 1;
    }
    assert forall|k: int| !(#[trigger] bitmap_set(v@).contains(k)) by {}
    false
}

} // verus!
