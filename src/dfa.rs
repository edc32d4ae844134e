//! Positions in a terminal's automaton, the cache that compiles each terminal
//! once, and the enumeration of an automaton's reachable states.
use crate::automaton::{
    all_buildable, buildable, feed, halted, halting_persists, is_match, lemma_reachable_step,
    next_byte, next_eoi, reachable, represented, run, run_bytes, same_moves, start_of, step, walk,
    Dfa, DfaError,
};
use std::sync::Arc;
use vstd::prelude::*;
use vstd::std_specs::cmp::PartialEqSpec;
use vstd::set_lib::{lemma_int_range, lemma_len_subset, set_int_range};
use vstd::utf8::{char_is_scalar, encode_scalar};

verus! {

/// The UTF-8 encoding of one character, as `char::encode_utf8` writes it.
pub fn utf8_encode(c: char) -> (r: Vec<u8>)
    ensures
        r@ == encode_scalar(c as u32),
{
    proof {
        char_is_scalar(c);
    }
    let v: u32 = c as u32;
    if v <= 0x7F {
        vec![(v & 0x7F) as u8]
    } else if v <= 0x7FF {
        vec![0xC0 | ((v >> 6) & 0x1F) as u8, 0x80 | (v & 0x3F) as u8]
    } else if v <= 0xFFFF {
        vec![
            0xE0 | ((v >> 12) & 0x0F) as u8,
            0x80 | ((v >> 6) & 0x3F) as u8,
            0x80 | (v & 0x3F) as u8,
        ]
    } else {
        vec![
            0xF0 | ((v >> 18) & 0x7) as u8,
            0x80 | ((v >> 12) & 0x3F) as u8,
            0x80 | ((v >> 6) & 0x3F) as u8,
            0x80 | (v & 0x3F) as u8,
        ]
    }
}

/// A position in the automaton of one terminal.
///
/// Two positions are the same when they have the same terminal and the same
/// state; the shared automaton is never compared.
#[derive(Debug)]
pub struct DFAState {
    dfa: Arc<Dfa>,
    state_id: u32,
}

impl View for DFAState {
    /// The terminal's regex and the state.
    type V = (Seq<char>, u32);

    closed spec fn view(&self) -> (Seq<char>, u32) {
        (self.dfa@, self.state_id)
    }
}

impl PartialEq for DFAState {
    /// Same terminal regex and same state; the automata are not compared.
    fn eq(&self, other: &DFAState) -> (r: bool)
        ensures
            r == (self@ == other@),
    {
        let same_regex = *self.dfa.regex() == *other.dfa.regex();
        same_regex && self.state_id == other.state_id
    }
}

impl vstd::std_specs::cmp::PartialEqSpecImpl for DFAState {
    open spec fn obeys_eq_spec() -> bool {
        true
    }

    open spec fn eq_spec(&self, other: &DFAState) -> bool {
        self@ == other@
    }
}

impl Eq for DFAState {

}

impl std::hash::Hash for DFAState {
    /// Hashes what `==` compares, the terminal regex and the state, with
    /// std's `Hash` for the pair `(&String, u32)`.
    #[verifier::external_body]
    fn hash<H: std::hash::Hasher>(&self, hasher: &mut H) {
        (self.dfa.regex(), self.state_id).hash(hasher)
    }
}

/// Two positions with the same terminal regex and the same state are equal,
/// whichever automaton values they hold.
pub proof fn lemma_eq_by_position(a: &DFAState, b: &DFAState)
    requires
        a@ == b@,
    ensures
        a.eq_spec(b),
{
}

impl DFAState {
    /// The automaton is well formed and the state is one of its own.
    pub closed spec fn wf(&self) -> bool {
        &&& self.dfa.wf()
        &&& reachable(self.dfa@, self.state_id)
    }

    /// A well-formed position is a reachable state of an automaton whose dead
    /// and quit states lead only to dead or quit states.
    pub proof fn lemma_wf(&self)
        requires
            self.wf(),
        ensures
            reachable(self@.0, self@.1),
            buildable(self@.0),
            halting_persists(self@.0),
    {
        self.dfa.lemma_wf();
    }

    /// The state at the anchored start of `dfa`.
    pub fn new(dfa: Arc<Dfa>) -> (r: DFAState)
        requires
            dfa.wf(),
        ensures
            r.wf(),
            r@ == (dfa@, start_of(dfa@)),
    {
        let state_id = dfa.start();
        DFAState { dfa, state_id }
    }

    /// The state `state_id` of `dfa`.
    pub fn at(dfa: Arc<Dfa>, state_id: u32) -> (r: DFAState)
        requires
            dfa.wf(),
            reachable(dfa@, state_id),
        ensures
            r.wf(),
            r@ == (dfa@, state_id),
    {
        DFAState { dfa, state_id }
    }

    /// The shared automaton.
    pub fn dfa(&self) -> (r: &Arc<Dfa>)
        requires
            self.wf(),
        ensures
            r.wf(),
            r@ == self@.0,
            reachable(r@, self@.1),
    {
        &self.dfa
    }

    /// The current state.
    pub fn state_id(&self) -> (r: u32)
        ensures
            r == self@.1,
    {
        self.state_id
    }

    /// The terminal's regex.
    pub fn regex(&self) -> (r: String)
        requires
            self.wf(),
        ensures
            r@ == self@.0,
    {
        self.dfa.regex().clone()
    }

    /// Whether the current state is dead or quit.
    pub fn is_halted(&self) -> (r: bool)
        requires
            self.wf(),
        ensures
            r == halted(self@.0, self@.1),
    {
        self.dfa.is_dead_state(self.state_id) || self.dfa.is_quit_state(self.state_id)
    }

    /// Whether state `s` of this automaton is a match state.
    pub fn is_match_state(&self, s: u32) -> (r: bool)
        requires
            self.wf(),
        ensures
            r == is_match(self@.0, s),
    {
        self.dfa.is_match_state(s)
    }

    /// The end-of-input transition of this automaton from state `s`.
    pub fn next_eoi_state(&self, s: u32) -> (r: u32)
        requires
            self.wf(),
            reachable(self@.0, s),
        ensures
            r == next_eoi(self@.0, s),
            reachable(self@.0, r),
    {
        proof {
            lemma_reachable_step(self@.0, s, None);
        }
        self.dfa.next_eoi_state(s)
    }

    /// A copy at the same position, sharing the automaton.
    pub fn copy(&self) -> (r: DFAState)
        requires
            self.wf(),
        ensures
            r.wf(),
            r@ == self@,
    {
        DFAState { dfa: Arc::clone(&self.dfa), state_id: self.state_id }
    }

    /// Feeds the UTF-8 bytes of one character, and only those, in order;
    /// returns the new state.
    pub fn consume_character(&mut self, c: char) -> (r: u32)
        requires
            old(self).wf(),
        ensures
            final(self).wf(),
            final(self)@ == (old(self)@.0, feed(old(self)@.0, old(self)@.1, c)),
            r == final(self)@.1,
    {
        let bytes = utf8_encode(c);
        let ghost s0 = self.state_id;
        let mut i: usize = 0;
        while i < bytes.len()
            invariant
                self.wf(),
                self.dfa@ == old(self).dfa@,
                0 <= i <= bytes@.len(),
                s0 == old(self).state_id,
                self.state_id == run_bytes(self.dfa@, s0, bytes@.take(i as int)),
            decreases bytes@.len() - i,
        {
            proof {
                assert(bytes@.take(i + 1).drop_last() =~= bytes@.take(i as int));
                lemma_reachable_step(self.dfa@, self.state_id, Some(bytes@[i as int]));
            }
            self.state_id = self.dfa.next_state(self.state_id, bytes[i]);
            i = i + 1;
        }
        proof {
            assert(bytes@.take(i as int) =~= bytes@);
        }
        self.state_id
    }

    /// Feeds every character of `input`, in order; returns the new state.
    pub fn advance(&mut self, input: &str) -> (r: u32)
        requires
            old(self).wf(),
        ensures
            final(self).wf(),
            final(self)@ == (old(self)@.0, run(old(self)@.0, old(self)@.1, input@)),
            r == final(self)@.1,
    {
        let chars = chars_of(input);
        let ghost s0 = self.state_id;
        let mut i: usize = 0;
        while i < chars.len()
            invariant
                self.wf(),
                self.dfa@ == old(self).dfa@,
                0 <= i <= chars@.len(),
                chars@ == input@,
                s0 == old(self).state_id,
                self.state_id == run(self.dfa@, s0, chars@.take(i as int)),
            decreases chars@.len() - i,
        {
            proof {
                assert(chars@.take(i + 1).drop_last() =~= chars@.take(i as int));
            }
            self.consume_character(chars[i]);
            i = i + 1;
        }
        proof {
            assert(chars@.take(i as int) =~= chars@);
        }
        self.state_id
    }

    /// The position reached by feeding every character of `input`; this one
    /// is left as it is.
    pub fn py_advance(&self, input: String) -> (r: DFAState)
        requires
            self.wf(),
        ensures
            r.wf(),
            r@ == (self@.0, run(self@.0, self@.1, input@)),
    {
        let mut next = self.copy();
        next.advance(input.as_str());
        next
    }
}

/// A sequence of distinct states has at most one entry per `u32`.
proof fn lemma_distinct_states_bound(states: Seq<u32>)
    requires
        states.no_duplicates(),
    ensures
        states.len() <= 0x1_0000_0000,
{
    let ints = states.map_values(|x: u32| x as int);
    assert(ints.no_duplicates()) by {
        assert forall|i: int, j: int|
            0 <= i < ints.len() && 0 <= j < ints.len() && i != j implies ints[i] != ints[j] by {
            assert(states[i] != states[j]);
        }
    }
    ints.unique_seq_to_set();
    lemma_int_range(0, 0x1_0000_0000);
    assert(ints.to_set().subset_of(set_int_range(0, 0x1_0000_0000)));
    lemma_len_subset(ints.to_set(), set_int_range(0, 0x1_0000_0000));
}

/// Whether `x` occurs in `v`.
fn contains_state(v: &Vec<u32>, x: u32) -> (r: bool)
    ensures
        r == v@.contains(x),
{
    let mut i: usize = 0;
    while i < v.len()
        invariant
            0 <= i <= v@.len(),
            forall|k: int| 0 <= k < i ==> v@[k] != x,
        decreases v@.len() - i,
    {
        if v[i] == x {
            return true;
        }
        i = i + 1;
    }
    false
}

/// Every state one step from `s` is in `found`.
pub open spec fn successors_in(regex: Seq<char>, found: Seq<u32>, s: u32) -> bool {
    &&& found.contains(next_eoi(regex, s))
    &&& forall|b: u8| #[trigger] found.contains(next_byte(regex, s, b))
}

/// A set of states that holds the anchored start and is closed under every
/// step holds every reachable state.
pub proof fn lemma_closed_holds_reachable(regex: Seq<char>, found: Seq<u32>, s: u32)
    requires
        found.contains(start_of(regex)),
        forall|t: u32| found.contains(t) ==> #[trigger] successors_in(regex, found, t),
        reachable(regex, s),
    ensures
        found.contains(s),
{
    let w = choose|w: Seq<Option<u8>>| walk(regex, start_of(regex), w) == s;
    lemma_closed_holds_walk(regex, found, w);
}

proof fn lemma_closed_holds_walk(regex: Seq<char>, found: Seq<u32>, w: Seq<Option<u8>>)
    requires
        found.contains(start_of(regex)),
        forall|t: u32| found.contains(t) ==> #[trigger] successors_in(regex, found, t),
    ensures
        found.contains(walk(regex, start_of(regex), w)),
    decreases w.len(),
{
    if w.len() > 0 {
        lemma_closed_holds_walk(regex, found, w.drop_last());
        let t = walk(regex, start_of(regex), w.drop_last());
        assert(successors_in(regex, found, t));
        match w.last() {
            Some(b) => assert(found.contains(next_byte(regex, t, b))),
            None => {},
        }
    }
}

/// The number of states reachable from the anchored start.
pub open spec fn reachable_count(regex: Seq<char>) -> nat {
    Set::new(|s: u32| reachable(regex, s)).len()
}

/// The number of reachable states over all the terminals of a list.
pub open spec fn total_states(ts: Seq<Seq<char>>) -> nat
    decreases ts.len(),
{
    if ts.len() == 0 {
        0
    } else {
        total_states(ts.drop_last()) + reachable_count(ts.last())
    }
}

impl DFAState {
    /// Every state reachable from the anchored start, found breadth first
    /// over one byte of each byte class and the end-of-input transition.
    /// Dead states are included.
    pub fn states(&self) -> (r: Vec<u32>)
        requires
            self.wf(),
        ensures
            r@.no_duplicates(),
            r@.len() > 0,
            r@.len() == reachable_count(self@.0),
            r@[0] == start_of(self@.0),
            forall|s: u32| r@.contains(s) <==> reachable(self@.0, s),
            forall|s: u32| r@.contains(s) ==> #[trigger] successors_in(self@.0, r@, s),
    {
        let dfa = self.dfa();
        let ghost regex = self@.0;
        let reps = dfa.class_representatives();
        let start = dfa.start();
        let mut explored: Vec<u32> = vec![start];
        let mut head: usize = 0;
        proof {
            assert(explored@[0] == start);
        }
        while head < explored.len()
            invariant
                dfa.wf(),
                dfa@ == regex,
                forall|b: u8| #[trigger] represented(regex, reps@, b),
                explored@.len() > 0,
                explored@[0] == start,
                start == start_of(regex),
                0 <= head <= explored@.len(),
                explored@.no_duplicates(),
                forall|k: int| 0 <= k < explored@.len() ==> reachable(regex, #[trigger] explored@[k]),
                forall|k: int|
                    0 <= k < head ==> #[trigger] successors_in(regex, explored@, explored@[k]),
            decreases 0x1_0000_0000 - head,
        {
            proof {
                lemma_distinct_states_bound(explored@);
            }
            let current = explored[head];
            let ghost before = explored@;
            let mut j: usize = 0;
            #[verifier::loop_isolation(false)]
            while j < reps.len()
                invariant
                    dfa.wf(),
                    dfa@ == regex,
                    reachable(regex, current),
                    0 <= j <= reps@.len(),
                    explored@.len() > 0,
                    explored@[0] == start,
                    explored@.no_duplicates(),
                    before.len() <= explored@.len(),
                    forall|k: int| 0 <= k < before.len() ==> explored@[k] == before[k],
                    forall|k: int|
                        0 <= k < explored@.len() ==> reachable(regex, #[trigger] explored@[k]),
                    forall|jj: int|
                        0 <= jj < j ==> explored@.contains(next_byte(regex, current, #[trigger] reps@[jj])),
                decreases reps@.len() - j,
            {
                proof {
                    lemma_reachable_step(regex, current, Some(reps@[j as int]));
                }
                let next = dfa.next_state(current, reps[j]);
                let ghost prev = explored@;
                if !contains_state(&explored, next) {
                    explored.push(next);
                    proof {
                        assert(explored@[explored@.len() - 1] == next);
                    }
                }
                proof {
                    assert forall|jj: int|
                        0 <= jj < j + 1 implies explored@.contains(
                        next_byte(regex, current, #[trigger] reps@[jj]),
                    ) by {
                        let t = next_byte(regex, current, reps@[jj]);
                        if jj < j {
                            assert(prev.contains(t));
                            let k = choose|k: int| 0 <= k < prev.len() && prev[k] == t;
                            assert(explored@[k] == t);
                        } else {
                            assert(explored@.contains(next));
                        }
                    }
                }
                j = j + 1;
            }
            proof {
                lemma_reachable_step(regex, current, None);
            }
            let next = dfa.next_eoi_state(current);
            let ghost mid = explored@;
            if !contains_state(&explored, next) {
                explored.push(next);
                proof {
                    assert(explored@[explored@.len() - 1] == next);
                }
            }
            proof {
                assert forall|k: int| 0 <= k < mid.len() implies explored@[k] == mid[k] by {}
                assert forall|k: int| 0 <= k < before.len() implies explored@[k] == before[k] by {}
                assert forall|t: u32| #[trigger] mid.contains(t) implies explored@.contains(t) by {
                    let k = choose|k: int| 0 <= k < mid.len() && mid[k] == t;
                    assert(explored@[k] == t);
                }
                assert forall|t: u32| #[trigger] before.contains(t) implies explored@.contains(t) by {
                    let k = choose|k: int| 0 <= k < before.len() && before[k] == t;
                    assert(explored@[k] == t);
                }
                assert forall|b: u8| #[trigger] explored@.contains(next_byte(regex, current, b)) by {
                    assert(represented(regex, reps@, b));
                    let i = choose|i: int|
                        0 <= i < reps@.len() && #[trigger] same_moves(regex, reps@[i], b);
                    assert(next_byte(regex, current, reps@[i]) == next_byte(regex, current, b));
                    assert(mid.contains(next_byte(regex, current, reps@[i])));
                }
                assert(successors_in(regex, explored@, current));
                assert forall|k: int|
                    0 <= k < head + 1 implies #[trigger] successors_in(regex, explored@, explored@[k]) by {
                    if k < head {
                        let t = explored@[k];
                        assert(t == before[k]);
                        assert(successors_in(regex, before, before[k]));
                        assert(before.contains(next_eoi(regex, t)));
                        assert forall|b: u8| #[trigger] explored@.contains(next_byte(regex, t, b)) by {
                            assert(before.contains(next_byte(regex, t, b)));
                        }
                    }
                }
            }
            head = head + 1;
        }
        proof {
            assert forall|s: u32| explored@.contains(s) implies #[trigger] successors_in(regex, explored@, s) by {
                let k = choose|k: int| 0 <= k < explored@.len() && explored@[k] == s;
                assert(successors_in(regex, explored@, explored@[k]));
            }
            assert(explored@.contains(start_of(regex))) by {
                assert(explored@[0] == start);
            }
            assert forall|s: u32| explored@.contains(s) <==> reachable(regex, s) by {
                if reachable(regex, s) {
                    lemma_closed_holds_reachable(regex, explored@, s);
                }
            }
            assert(explored@.to_set() =~= Set::new(|s: u32| reachable(regex, s)));
            explored@.unique_seq_to_set();
        }
        explored
    }
}

/// Compiles automata, each distinct regex once, and shares them.
#[derive(Debug)]
pub struct DFABuilder {
    cache: Vec<Arc<Dfa>>,
}

impl View for DFABuilder {
    /// The regexes compiled so far.
    type V = Seq<Seq<char>>;

    closed spec fn view(&self) -> Seq<Seq<char>> {
        self.cache@.map_values(|d: Arc<Dfa>| d@)
    }
}

impl DFABuilder {
    /// Each cached automaton is well formed and no regex is cached twice.
    pub closed spec fn wf(&self) -> bool {
        &&& forall|i: int| 0 <= i < self.cache@.len() ==> (#[trigger] self.cache@[i]).wf()
        &&& self@.no_duplicates()
    }

    /// A builder with an empty cache.
    pub fn new() -> (r: DFABuilder)
        ensures
            r.wf(),
            r@ == Seq::<Seq<char>>::empty(),
    {
        let r = DFABuilder { cache: Vec::new() };
        proof {
            assert(r@ =~= Seq::<Seq<char>>::empty());
        }
        r
    }

    /// The automaton of `regex`: the cached one, or a new one that is then
    /// cached.
    pub fn dfa_for(&mut self, regex: &str) -> (r: Result<Arc<Dfa>, DfaError>)
        requires
            old(self).wf(),
        ensures
            final(self).wf(),
            r is Ok <==> buildable(regex@),
            r matches Ok(d) ==> d.wf() && d@ == regex@,
            r matches Err(e) ==> e.pattern() == regex@,
            final(self)@ == if old(self)@.contains(regex@) || !buildable(regex@) {
                old(self)@
            } else {
                old(self)@.push(regex@)
            },
    {
        let wanted = regex.to_string();
        let mut i: usize = 0;
        while i < self.cache.len()
            invariant
                self.wf(),
                self@ == old(self)@,
                0 <= i <= self.cache@.len(),
                wanted@ == regex@,
                forall|k: int| 0 <= k < i ==> self@[k] != regex@,
            decreases self.cache@.len() - i,
        {
            if *self.cache[i].regex() == wanted {
                proof {
                    self.cache@[i as int].lemma_wf();
                    assert(self@.contains(regex@)) by {
                        assert(self@[i as int] == regex@);
                    }
                }
                return Ok(Arc::clone(&self.cache[i]));
            }
            i = i + 1;
        }
        proof {
            assert(!self@.contains(regex@));
        }
        match Dfa::new(regex) {
            Err(e) => Err(e),
            Ok(dfa) => {
                let shared = Arc::new(dfa);
                self.cache.push(Arc::clone(&shared));
                proof {
                    assert(self@ =~= old(self)@.push(regex@));
                }
                Ok(shared)
            },
        }
    }

    /// A position at the anchored start of the automaton of `regex`.
    pub fn build_dfa(&mut self, regex: String) -> (r: Result<DFAState, DfaError>)
        requires
            old(self).wf(),
        ensures
            final(self).wf(),
            r is Ok <==> buildable(regex@),
            r matches Ok(st) ==> st.wf() && st@ == (regex@, start_of(regex@)),
            r matches Err(e) ==> e.pattern() == regex@,
            final(self)@ == if old(self)@.contains(regex@) || !buildable(regex@) {
                old(self)@
            } else {
                old(self)@.push(regex@)
            },
    {
        match self.dfa_for(regex.as_str()) {
            Err(e) => Err(e),
            Ok(dfa) => Ok(DFAState::new(dfa)),
        }
    }
}

/// Appends a position in `here`'s automaton for each state of `states`.
fn push_states(res: &mut Vec<DFAState>, here: &DFAState, states: &Vec<u32>)
    requires
        here.wf(),
        forall|s: u32| states@.contains(s) ==> reachable(here@.0, s),
        forall|k: int| 0 <= k < old(res)@.len() ==> (#[trigger] old(res)@[k]).wf(),
    ensures
        final(res)@.len() == old(res)@.len() + states@.len(),
        forall|k: int| 0 <= k < old(res)@.len() ==> final(res)@[k] == old(res)@[k],
        forall|k: int| 0 <= k < final(res)@.len() ==> (#[trigger] final(res)@[k]).wf(),
        forall|k: int|
            0 <= k < states@.len() ==> (#[trigger] final(res)@[old(res)@.len() + k])@ == (
            here@.0,
            states@[k],
        ),
{
    let ghost before = res@;
    let mut j: usize = 0;
    while j < states.len()
        invariant
            here.wf(),
            0 <= j <= states@.len(),
            forall|s: u32| states@.contains(s) ==> reachable(here@.0, s),
            before == old(res)@,
            res@.len() == before.len() + j,
            forall|k: int| 0 <= k < before.len() ==> res@[k] == before[k],
            forall|k: int| 0 <= k < res@.len() ==> (#[trigger] res@[k]).wf(),
            forall|k: int|
                0 <= k < j ==> (#[trigger] res@[before.len() + k])@ == (here@.0, states@[k]),
        decreases states@.len() - j,
    {
        proof {
            assert(states@.contains(states@[j as int]));
        }
        let st = DFAState::at(Arc::clone(here.dfa()), states[j]);
        res.push(st);
        j = j + 1;
    }
}

/// The regexes of a list of terminals.
pub open spec fn regexes(terminals: Seq<String>) -> Seq<Seq<char>> {
    terminals.map_values(|t: String| t@)
}

/// The positions that a list of states stands for.
pub open spec fn positions(states: Seq<DFAState>) -> Seq<(Seq<char>, u32)> {
    states.map_values(|st: DFAState| st@)
}

/// Every state of every terminal: for each terminal in order, its states in
/// the order that `DFAState::states` finds them. Fails on the first terminal
/// that cannot be compiled.
pub fn all_dfa_states(terminals: &Vec<String>) -> (r: Result<Vec<DFAState>, DfaError>)
    ensures
        r is Ok <==> all_buildable(regexes(terminals@)),
        r matches Err(e) ==> regexes(terminals@).contains(e.pattern()) && !buildable(e.pattern()),
        r matches Ok(v) ==> {
            &&& v@.len() == total_states(regexes(terminals@))
            &&& forall|k: int| 0 <= k < v@.len() ==> (#[trigger] v@[k]).wf()
            &&& forall|k: int|
                0 <= k < v@.len() ==> regexes(terminals@).contains((#[trigger] v@[k])@.0)
            &&& forall|t: Seq<char>, s: u32|
                regexes(terminals@).contains(t) && #[trigger] reachable(t, s) ==> positions(
                    v@,
                ).contains((t, s))
        },
{
    let mut builder = DFABuilder::new();
    let mut res: Vec<DFAState> = Vec::new();
    let mut t: usize = 0;
    while t < terminals.len()
        invariant
            builder.wf(),
            0 <= t <= terminals@.len(),
            forall|i: int| 0 <= i < t ==> buildable(#[trigger] terminals@[i]@),
            res@.len() == total_states(regexes(terminals@).take(t as int)),
            forall|k: int| 0 <= k < res@.len() ==> (#[trigger] res@[k]).wf(),
            forall|k: int|
                0 <= k < res@.len() ==> regexes(terminals@).take(t as int).contains(
                    (#[trigger] res@[k])@.0,
                ),
            forall|r: Seq<char>, s: u32|
                regexes(terminals@).take(t as int).contains(r) && #[trigger] reachable(r, s)
                    ==> positions(res@).contains((r, s)),
        decreases terminals@.len() - t,
    {
        let first = match builder.dfa_for(terminals[t].as_str()) {
            Err(e) => {
                proof {
                    assert(regexes(terminals@)[t as int] == e.pattern());
                }
                return Err(e);
            },
            Ok(d) => d,
        };
        let here = DFAState::new(first);
        let states = here.states();
        let ghost before = res@;
        push_states(&mut res, &here, &states);
        proof {
            let names = regexes(terminals@);
            assert(names.take(t + 1) =~= names.take(t as int).push(terminals@[t as int]@));
            assert(names.take(t + 1).drop_last() =~= names.take(t as int));
            assert forall|k: int|
                0 <= k < res@.len() implies names.take(t + 1).contains((#[trigger] res@[k])@.0) by {
                if k < before.len() {
                    assert(res@[k] == before[k]);
                    let i = choose|i: int| 0 <= i < t && names.take(t as int)[i] == before[k]@.0;
                    assert(names.take(t + 1)[i] == res@[k]@.0);
                } else {
                    assert(res@[before.len() + (k - before.len())]@ == (here@.0, states@[k - before.len()]));
                    assert(names.take(t + 1)[t as int] == res@[k]@.0);
                }
            }
            assert forall|r: Seq<char>, s: u32|
                names.take(t + 1).contains(r) && #[trigger] reachable(r, s)
                    implies positions(res@).contains((r, s)) by {
                if names.take(t as int).contains(r) {
                    assert(positions(before).contains((r, s)));
                    let k = choose|k: int| 0 <= k < before.len() && positions(before)[k] == (r, s);
                    assert(res@[k] == before[k]);
                    assert(positions(res@)[k] == (r, s));
                } else {
                    assert(r == here@.0);
                    assert(states@.contains(s));
                    let m = choose|m: int| 0 <= m < states@.len() && states@[m] == s;
                    assert(res@[before.len() + m]@ == (here@.0, states@[m]));
                    assert(positions(res@)[before.len() + m] == (r, s));
                }
            }
        }
        t = t + 1;
    }
    proof {
        assert(regexes(terminals@).take(t as int) =~= regexes(terminals@));
        assert forall|k: int| 0 <= k < regexes(terminals@).len() implies buildable(
            #[trigger] regexes(terminals@)[k],
        ) by {
            assert(buildable(terminals@[k]@));
        }
    }
    Ok(res)
}

/// The characters of a string, in order.
pub fn chars_of(s: &str) -> (r: Vec<char>)
    ensures
        r@ == s@,
{
    let n: usize = s.unicode_len();
    let mut r: Vec<char> = Vec::new();
    let mut i: usize = 0;
    while i < n
        invariant
            n == s@.len(),
            0 <= i <= n,
            r@ == s@.take(i as int),
        decreases n - i,
    {
        r.push(s.get_char(i));
        i = i + 1;
        proof {
            assert(r@ =~= s@.take(i as int));
        }
    }
    proof {
        assert(s@.take(i as int) =~= s@);
    }
    r
}

} // verus!
