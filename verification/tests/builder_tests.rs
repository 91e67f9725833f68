use rejects::builder::Builder;
use rejects::character_sets::CharSet;
use rejects::nfa::State;
use rejects::rejects::Rejects;

fn single(c: char) -> CharSet {
    let mut s = CharSet::new();
    s.insert(c);
    s
}

#[test]
fn builder_replays_a_literal_automaton() {
    // the automaton for "ab": two transitions and a match state
    let mut builder = Builder::new(0);
    builder.with_transition(single('a'), CharSet::new(), Some(1));
    builder.with_transition(single('b'), CharSet::new(), Some(2));
    builder.with_match();
    let re = builder.build();
    assert!(re.is_match("ab"));
    assert!(!re.is_match("a"));
    assert!(!re.is_match("abb"));
    assert_eq!(re.find_end("abxy"), 1);
}

#[test]
fn builder_split_builds_a_union() {
    // the automaton for "a|b": a split into two transitions
    let mut builder = Builder::new(2);
    builder.with_transition(single('a'), CharSet::new(), Some(3));
    builder.with_transition(single('b'), CharSet::new(), Some(3));
    builder.with_split(0, Some(1));
    builder.with_match();
    let re = builder.build();
    assert!(re.is_match("a"));
    assert!(re.is_match("b"));
    assert!(!re.is_match("c"));
    assert!(!re.is_match("ab"));
}

#[test]
fn builder_add_state_accepts_made_states() {
    let mut builder = Builder::new(0);
    builder.add_state(State::make_transition(single('x'), CharSet::new(), Some(1)));
    builder.add_state(State::make_match());
    builder.add_state(State::make_nil());
    let re = builder.build();
    assert!(re.is_match("x"));
    assert!(!re.is_match("y"));
}

#[test]
fn builder_matches_compiled_automaton() {
    // replaying a compiled automaton state by state preserves behaviour
    let compiled = match Rejects::new("(ab)*") {
        Ok(r) => r,
        Err(e) => panic!("pattern should compile, got {:?}", e),
    };
    let mut builder = Builder::new(compiled.start());
    let mut i: usize = 0;
    while i < compiled.state_count() {
        let copy = match compiled.state_at(i) {
            State::Transition { inclusive, exclusive, out } => {
                let mut inc = CharSet::new();
                for c in inclusive.chars.iter() {
                    inc.insert(*c);
                }
                let mut exc = CharSet::new();
                for c in exclusive.chars.iter() {
                    exc.insert(*c);
                }
                State::make_transition(inc, exc, *out)
            }
            State::Split { out1, out2 } => State::make_split(*out1, *out2),
            State::Match => State::make_match(),
            State::Nil => State::make_nil(),
        };
        builder.add_state(copy);
        i += 1;
    }
    let replayed = builder.build();
    for text in ["", "ab", "abab", "aba", "ba", "abc"] {
        assert_eq!(compiled.is_match(text), replayed.is_match(text), "on {:?}", text);
        assert_eq!(compiled.find_end(text), replayed.find_end(text), "on {:?}", text);
    }
}

#[test]
fn empty_builder_never_matches() {
    let re = Builder::new(0).build();
    assert!(!re.is_match(""));
    assert!(!re.is_match("a"));
    assert_eq!(re.find_end("a"), -1);
}

#[test]
fn nil_state_dead_ends() {
    let mut builder = Builder::new(0);
    builder.with_transition(single('a'), CharSet::new(), Some(1));
    builder.with_nil();
    let re = builder.build();
    assert!(!re.is_match("a"));
    assert_eq!(re.find_end("ab"), 0);
}

#[test]
fn out_of_range_successors_dead_end() {
    // matching is total: a stored successor index outside the arena is
    // treated as a dead end, never an error
    let mut builder = Builder::new(0);
    builder.with_transition(single('a'), CharSet::new(), Some(9));
    builder.with_split(7, Some(8));
    let re = builder.build();
    assert!(!re.is_match("a"));
    assert_eq!(re.find_end("a"), -1);
    let mut far = Builder::new(5);
    far.with_match();
    let re2 = far.build();
    assert!(!re2.is_match(""));
    assert_eq!(re2.find_end("x"), -1);
}
