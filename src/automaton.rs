//! Anchored byte-level automata compiled from a terminal's regex.
//!
//! The automaton itself is regex_automata's dense DFA. Its behaviour is named
//! here by spec functions over the regex source, which is the identity of a
//! terminal: the same pattern always compiles to the same automaton.
use regex_automata::dfa::dense;
use regex_automata::dfa::Automaton;
use regex_automata::util::primitives::StateID;
use regex_automata::util::start;
use regex_automata::Anchored;
use vstd::prelude::*;
use vstd::utf8::encode_scalar;

verus! {

#[verifier::external_type_specification]
#[verifier::external_body]
#[verifier::reject_recursive_types(T)]
pub struct ExDenseDfa<T>(dense::DFA<T>);

#[verifier::external_type_specification]
#[verifier::external_body]
pub struct ExBuildError(dense::BuildError);

/// Whether `dense::DFA::new` accepts the pattern.
pub uninterp spec fn compiles(regex: Seq<char>) -> bool;

/// The anchored start state of the pattern's automaton, if it has one.
pub uninterp spec fn anchored_start(regex: Seq<char>) -> Option<u32>;

/// The transition of the pattern's automaton from a state on a byte.
pub uninterp spec fn next_byte(regex: Seq<char>, s: u32, b: u8) -> u32;

/// The end-of-input transition of the pattern's automaton from a state.
pub uninterp spec fn next_eoi(regex: Seq<char>, s: u32) -> u32;

/// Whether a state of the pattern's automaton is a match state.
pub uninterp spec fn is_match(regex: Seq<char>, s: u32) -> bool;

/// Whether a state of the pattern's automaton is its dead state.
pub uninterp spec fn is_dead(regex: Seq<char>, s: u32) -> bool;

/// Whether a state of the pattern's automaton is its quit state.
pub uninterp spec fn is_quit(regex: Seq<char>, s: u32) -> bool;

/// A dead or quit state: the automaton will never match from it.
pub open spec fn halted(regex: Seq<char>, s: u32) -> bool {
    is_dead(regex, s) || is_quit(regex, s)
}

/// Neither dead nor quit: more input could still lead to a match.
pub open spec fn live(regex: Seq<char>, s: u32) -> bool {
    !halted(regex, s)
}

/// Dead and quit states never match, and every transition from one of them
/// leads to a dead or quit state.
pub open spec fn halting_persists(regex: Seq<char>) -> bool {
    forall|s: u32|
        #![trigger halted(regex, s)]
        halted(regex, s) ==> {
            &&& !is_match(regex, s)
            &&& halted(regex, next_eoi(regex, s))
            &&& forall|b: u8| halted(regex, #[trigger] next_byte(regex, s, b))
        }
}

/// One step of the automaton: a byte, or the end of input (`None`).
pub open spec fn step(regex: Seq<char>, s: u32, u: Option<u8>) -> u32 {
    match u {
        Some(b) => next_byte(regex, s, b),
        None => next_eoi(regex, s),
    }
}

/// The state reached from `s` by a sequence of steps.
pub open spec fn walk(regex: Seq<char>, s: u32, w: Seq<Option<u8>>) -> u32
    decreases w.len(),
{
    if w.len() == 0 {
        s
    } else {
        step(regex, walk(regex, s, w.drop_last()), w.last())
    }
}

/// The anchored start state, for a pattern that has one.
pub open spec fn start_of(regex: Seq<char>) -> u32 {
    anchored_start(regex)->Some_0
}

/// A state that some sequence of steps reaches from the anchored start.
pub open spec fn reachable(regex: Seq<char>, s: u32) -> bool {
    exists|w: Seq<Option<u8>>| walk(regex, start_of(regex), w) == s
}

/// The state reached from `s` by feeding bytes.
pub open spec fn run_bytes(regex: Seq<char>, s: u32, bytes: Seq<u8>) -> u32
    decreases bytes.len(),
{
    if bytes.len() == 0 {
        s
    } else {
        next_byte(regex, run_bytes(regex, s, bytes.drop_last()), bytes.last())
    }
}

/// The state reached from `s` by feeding the UTF-8 encoding of one character.
pub open spec fn feed(regex: Seq<char>, s: u32, c: char) -> u32 {
    run_bytes(regex, s, encode_scalar(c as u32))
}

/// The state reached from `s` by feeding characters, one after the other.
pub open spec fn run(regex: Seq<char>, s: u32, w: Seq<char>) -> u32
    decreases w.len(),
{
    if w.len() == 0 {
        s
    } else {
        feed(regex, run(regex, s, w.drop_last()), w.last())
    }
}

/// Bytes `a` and `b` move every state to the same state.
pub open spec fn same_moves(regex: Seq<char>, a: u8, b: u8) -> bool {
    forall|s: u32| #[trigger] next_byte(regex, s, a) == next_byte(regex, s, b)
}

/// Some byte of `reps` moves every state where `b` moves it.
pub open spec fn represented(regex: Seq<char>, reps: Seq<u8>, b: u8) -> bool {
    exists|i: int| 0 <= i < reps.len() && #[trigger] same_moves(regex, reps[i], b)
}

/// The steps that feed a byte sequence.
pub open spec fn byte_steps(bytes: Seq<u8>) -> Seq<Option<u8>> {
    bytes.map_values(|b: u8| Some(b))
}

pub proof fn lemma_run_bytes_walk(regex: Seq<char>, s: u32, bytes: Seq<u8>)
    ensures
        run_bytes(regex, s, bytes) == walk(regex, s, byte_steps(bytes)),
    decreases bytes.len(),
{
    if bytes.len() > 0 {
        lemma_run_bytes_walk(regex, s, bytes.drop_last());
        assert(byte_steps(bytes).drop_last() =~= byte_steps(bytes.drop_last()));
    }
}

/// Extending a walk by more steps.
pub proof fn lemma_walk_append(regex: Seq<char>, s: u32, w1: Seq<Option<u8>>, w2: Seq<Option<u8>>)
    ensures
        walk(regex, s, w1 + w2) == walk(regex, walk(regex, s, w1), w2),
    decreases w2.len(),
{
    if w2.len() == 0 {
        assert(w1 + w2 =~= w1);
    } else {
        lemma_walk_append(regex, s, w1, w2.drop_last());
        assert((w1 + w2).drop_last() =~= w1 + w2.drop_last());
    }
}

/// Feeding bytes from a reachable state stays among reachable states.
pub proof fn lemma_reachable_run_bytes(regex: Seq<char>, s: u32, bytes: Seq<u8>)
    requires
        reachable(regex, s),
    ensures
        reachable(regex, run_bytes(regex, s, bytes)),
{
    let w = choose|w: Seq<Option<u8>>| walk(regex, start_of(regex), w) == s;
    lemma_run_bytes_walk(regex, s, bytes);
    lemma_walk_append(regex, start_of(regex), w, byte_steps(bytes));
}

/// A single step from a reachable state stays among reachable states.
pub proof fn lemma_reachable_step(regex: Seq<char>, s: u32, u: Option<u8>)
    requires
        reachable(regex, s),
    ensures
        reachable(regex, step(regex, s, u)),
{
    let w = choose|w: Seq<Option<u8>>| walk(regex, start_of(regex), w) == s;
    assert(w.push(u).drop_last() =~= w);
    assert(walk(regex, start_of(regex), w.push(u)) == step(regex, s, u));
}

/// Why an automaton could not be made for a pattern.
#[derive(Debug)]
pub enum DfaError {
    /// The pattern is not a regex that `dense::DFA::new` accepts.
    Malformed { regex: String },
    /// The automaton has no anchored start state.
    NoAnchoredStart { regex: String },
}

impl DfaError {
    /// The pattern that could not be made into an automaton.
    pub open spec fn pattern(&self) -> Seq<char> {
        match self {
            DfaError::Malformed { regex } => regex@,
            DfaError::NoAnchoredStart { regex } => regex@,
        }
    }
}

/// The pattern compiles to an automaton with an anchored start.
pub open spec fn buildable(regex: Seq<char>) -> bool {
    compiles(regex) && anchored_start(regex) is Some
}

/// Every regex of the list compiles to an automaton with an anchored start.
pub open spec fn all_buildable(ts: Seq<Seq<char>>) -> bool {
    forall|i: int| 0 <= i < ts.len() ==> buildable(#[trigger] ts[i])
}

/// An anchored automaton together with the pattern it was compiled from.
///
/// The fields are private: `Dfa::new` is the only place that pairs a
/// pattern with a compiled automaton, so the automaton is always the one
/// that the pattern compiles to.
#[derive(Debug)]
pub struct Dfa {
    regex: String,
    inner: dense::DFA<Vec<u32>>,
    start: u32,
}

/// Relies on `dense::DFA::new`: it succeeds exactly on the patterns that it
/// accepts. In the automaton it builds, every transition of the dead state
/// leads back to it (as `Automaton::is_dead_state` documents), the quit
/// state is added as an empty state whose transitions all lead to the dead
/// state, and neither is a match state (`is_match_state` excludes the dead
/// state, and the quit state comes before the match states).
#[verifier::external_body]
fn compile(regex: &str) -> (r: Result<dense::DFA<Vec<u32>>, dense::BuildError>)
    ensures
        r is Ok <==> compiles(regex@),
        r is Ok ==> halting_persists(regex@),
{
    dense::DFA::new(regex)
}

impl View for Dfa {
    type V = Seq<char>;

    closed spec fn view(&self) -> Seq<char> {
        self.regex@
    }
}

impl Dfa {
    /// The automaton compiled, has an anchored start, and is recorded with it.
    pub closed spec fn wf(&self) -> bool {
        &&& compiles(self.regex@)
        &&& anchored_start(self.regex@) == Some(self.start)
        &&& halting_persists(self.regex@)
    }

    /// Relies on `Automaton::start_state` with an anchored configuration.
    #[verifier::external_body]
    fn anchored_start_state(&self) -> (r: Option<u32>)
        ensures
            r == anchored_start(self@),
    {
        let config = start::Config::new().anchored(Anchored::Yes);
        match self.inner.start_state(&config) {
            Ok(id) => Some(id.as_u32()),
            Err(_) => None,
        }
    }

    /// Compiles `regex` into an anchored automaton.
    pub fn new(regex: &str) -> (r: Result<Dfa, DfaError>)
        ensures
            r is Ok <==> buildable(regex@),
            r matches Ok(d) ==> d@ == regex@ && d.wf(),
            r matches Err(e) ==> e.pattern() == regex@,
            r matches Err(DfaError::Malformed { regex: e }) ==> e@ == regex@ && !compiles(regex@),
            r matches Err(DfaError::NoAnchoredStart { regex: e }) ==> e@ == regex@,
    {
        let owned = regex.to_string();
        match compile(regex) {
            Err(_) => Err(DfaError::Malformed { regex: owned }),
            Ok(inner) => {
                let mut dfa = Dfa { regex: owned, inner, start: 0 };
                match dfa.anchored_start_state() {
                    None => Err(DfaError::NoAnchoredStart { regex: dfa.regex }),
                    Some(start) => {
                        dfa.start = start;
                        Ok(dfa)
                    },
                }
            },
        }
    }

    /// The pattern this automaton was compiled from.
    pub fn regex(&self) -> (r: &String)
        ensures
            r@ == self@,
    {
        &self.regex
    }

    /// The anchored start state.
    pub fn start(&self) -> (r: u32)
        requires
            self.wf(),
        ensures
            anchored_start(self@) == Some(r),
            r == start_of(self@),
            reachable(self@, r),
    {
        let r = self.start;
        proof {
            assert(walk(self@, start_of(self@), Seq::<Option<u8>>::empty()) == r);
        }
        r
    }

    /// Dead and quit states lead only to dead or quit states and never match.
    pub proof fn lemma_wf(&self)
        requires
            self.wf(),
        ensures
            halting_persists(self@),
            buildable(self@),
    {
    }

    /// Relies on `Automaton::next_state`: the transition on one byte. It
    /// depends on the byte's class only, and it indexes the transition table,
    /// so the state must be one of the automaton's own.
    #[verifier::external_body]
    pub(crate) fn next_state(&self, s: u32, b: u8) -> (r: u32)
        requires
            reachable(self@, s),
        ensures
            r == next_byte(self@, s, b),
    {
        self.inner.next_state(StateID::new_unchecked(s as usize), b).as_u32()
    }

    /// Relies on `Automaton::next_eoi_state`: the end-of-input transition.
    #[verifier::external_body]
    pub(crate) fn next_eoi_state(&self, s: u32) -> (r: u32)
        requires
            reachable(self@, s),
        ensures
            r == next_eoi(self@, s),
    {
        self.inner.next_eoi_state(StateID::new_unchecked(s as usize)).as_u32()
    }

    /// Relies on `Automaton::is_match_state`.
    #[verifier::external_body]
    pub(crate) fn is_match_state(&self, s: u32) -> (r: bool)
        ensures
            r == is_match(self@, s),
    {
        self.inner.is_match_state(StateID::new_unchecked(s as usize))
    }

    /// Relies on `Automaton::is_dead_state`.
    #[verifier::external_body]
    pub(crate) fn is_dead_state(&self, s: u32) -> (r: bool)
        ensures
            r == is_dead(self@, s),
    {
        self.inner.is_dead_state(StateID::new_unchecked(s as usize))
    }

    /// Relies on `Automaton::is_quit_state`.
    #[verifier::external_body]
    pub(crate) fn is_quit_state(&self, s: u32) -> (r: bool)
        ensures
            r == is_quit(self@, s),
    {
        self.inner.is_quit_state(StateID::new_unchecked(s as usize))
    }

    /// Relies on `ByteClasses::representatives` over all bytes: it yields
    /// each byte whose class differs from the class of the byte before it,
    /// so every byte shares its class, and therefore all its transitions
    /// (`next_state` looks up the class), with one of the bytes yielded.
    #[verifier::external_body]
    pub(crate) fn class_representatives(&self) -> (r: Vec<u8>)
        ensures
            forall|b: u8| #[trigger] represented(self@, r@, b),
    {
        let mut r = Vec::new();
        for unit in self.inner.byte_classes().representatives(0..=255) {
            match unit.as_u8() {
                Some(b) => r.push(b),
                None => {},
            }
        }
        r
    }
}

} // verus!
