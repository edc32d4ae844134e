//! The `dmatch` predicate, vocabulary masks, and the precomputed mask store.
use crate::automaton::{
    all_buildable, buildable, halted, halting_persists, is_match, live, next_eoi, reachable, run,
    run_bytes, start_of, Dfa, DfaError,
};
use crate::dfa::{
    all_dfa_states, chars_of, positions, regexes, total_states, DFABuilder, DFAState,
};
use std::sync::Arc;
use vstd::prelude::*;
use vstd::utf8::encode_scalar;

verus! {

/// Starting at `q`, some character after the first leaves the automaton in a
/// match state before it has halted: `w` has a non-empty matched prefix
/// followed by a non-empty rest.
pub open spec fn prefix_matches(regex: Seq<char>, q: u32, w: Seq<char>) -> bool {
    exists|j: int|
        #![trigger is_match(regex, run(regex, q, w.take(j + 1)))]
        0 < j < w.len() && is_match(regex, run(regex, q, w.take(j + 1))) && forall|m: int|
            0 <= m <= j ==> !halted(regex, #[trigger] run(regex, q, w.take(m + 1)))
}

/// Starting at `q`, the automaton first halts on character `k` of `w`.
pub open spec fn stops_at(regex: Seq<char>, q: u32, w: Seq<char>, k: int) -> bool {
    &&& 0 <= k < w.len()
    &&& halted(regex, run(regex, q, w.take(k + 1)))
    &&& forall|m: int| 0 <= m < k ==> !halted(regex, #[trigger] run(regex, q, w.take(m + 1)))
}

/// Whether `w` can continue the terminal `regex` from its state `q`, spilling
/// over into the terminals of `lam` in turn:
/// 1. the automaton, fed all of `w`, is still live; or
/// 2. `lam` is empty and a non-empty prefix of `w` leaves a match state with
///    a non-empty rest; or
/// 3. the automaton first halts on character `k > 0`, and the rest of `w`
///    from character `k - 1` matches from the anchored start of `lam[0]`
///    against the remaining terminals. The automaton reports a match one
///    character late, so character `k - 1` is the first one that a match
///    ending there did not take.
pub open spec fn dmatch_spec(w: Seq<char>, regex: Seq<char>, q: u32, lam: Seq<Seq<char>>) -> bool
    decreases lam.len(),
{
    if live(regex, run(regex, q, w)) {
        true
    } else if lam.len() == 0 {
        prefix_matches(regex, q, w)
    } else {
        exists|k: int|
            #![trigger stops_at(regex, q, w, k)]
            stops_at(regex, q, w, k) && k > 0 && dmatch_spec(
                w.skip(k - 1),
                lam[0],
                start_of(lam[0]),
                lam.drop_first(),
            )
    }
}

/// The automaton reports a match that ends exactly at the end of `w`: after
/// feeding `w` from the anchored start, the end-of-input transition leads
/// to a match state.
pub open spec fn accepts(regex: Seq<char>, w: Seq<char>) -> bool {
    is_match(regex, next_eoi(regex, run(regex, start_of(regex), w)))
}

/// Feeding `w1` and then `w2` is feeding `w1 + w2`.
pub proof fn lemma_run_append(regex: Seq<char>, s: u32, w1: Seq<char>, w2: Seq<char>)
    ensures
        run(regex, s, w1 + w2) == run(regex, run(regex, s, w1), w2),
    decreases w2.len(),
{
    if w2.len() == 0 {
        assert(w1 + w2 =~= w1);
    } else {
        lemma_run_append(regex, s, w1, w2.drop_last());
        assert((w1 + w2).drop_last() =~= w1 + w2.drop_last());
    }
}

proof fn lemma_halted_bytes_stay(regex: Seq<char>, s: u32, bytes: Seq<u8>)
    requires
        halting_persists(regex),
        halted(regex, s),
    ensures
        halted(regex, run_bytes(regex, s, bytes)),
    decreases bytes.len(),
{
    if bytes.len() > 0 {
        lemma_halted_bytes_stay(regex, s, bytes.drop_last());
        assert(halted(regex, run_bytes(regex, s, bytes.drop_last())));
    }
}

/// Once halted, the automaton stays halted whatever it is fed.
pub proof fn lemma_halted_stays(regex: Seq<char>, s: u32, w: Seq<char>)
    requires
        halting_persists(regex),
        halted(regex, s),
    ensures
        halted(regex, run(regex, s, w)),
    decreases w.len(),
{
    if w.len() > 0 {
        lemma_halted_stays(regex, s, w.drop_last());
        lemma_halted_bytes_stay(regex, run(regex, s, w.drop_last()), encode_scalar(w.last() as u32));
    }
}

/// A string that some extension turns into one that the terminal accepts
/// leaves the automaton live, so it matches from the anchored start with
/// no lookahead.
pub proof fn lemma_extendable_matches(dfa: &Dfa, s: Seq<char>, e: Seq<char>)
    requires
        dfa.wf(),
        accepts(dfa@, s + e),
    ensures
        live(dfa@, run(dfa@, start_of(dfa@), s)),
        dmatch_spec(s, dfa@, start_of(dfa@), seq![]),
{
    let regex = dfa@;
    let q = start_of(regex);
    dfa.lemma_wf();
    lemma_run_append(regex, q, s, e);
    if halted(regex, run(regex, q, s)) {
        lemma_halted_stays(regex, run(regex, q, s), e);
        assert(halted(regex, run(regex, q, s + e)));
        assert(halted(regex, next_eoi(regex, run(regex, q, s + e))));
    }
}

/// A string that the terminal accepts matches from its anchored start with
/// no lookahead.
pub proof fn lemma_accepted_matches(dfa: &Dfa, s: Seq<char>)
    requires
        dfa.wf(),
        accepts(dfa@, s),
    ensures
        dmatch_spec(s, dfa@, start_of(dfa@), seq![]),
{
    assert(s + Seq::<char>::empty() =~= s);
    lemma_extendable_matches(dfa, s, Seq::<char>::empty());
}

/// A string after which the automaton is dead or quit (no extension can
/// match) does not match from the anchored start with no lookahead, unless
/// a non-empty prefix of it is matched before the automaton halts (the
/// second case of `dmatch_spec`).
pub proof fn lemma_rejected_fails(dfa: &Dfa, s: Seq<char>)
    requires
        dfa.wf(),
        halted(dfa@, run(dfa@, start_of(dfa@), s)),
        !prefix_matches(dfa@, start_of(dfa@), s),
    ensures
        !dmatch_spec(s, dfa@, start_of(dfa@), seq![]),
{
}

/// A string that leaves the automaton live matches whatever the lookahead.
pub proof fn lemma_live_matches_any_lookahead(
    s: Seq<char>,
    regex: Seq<char>,
    q: u32,
    lam: Seq<Seq<char>>,
)
    requires
        live(regex, run(regex, q, s)),
    ensures
        dmatch_spec(s, regex, q, lam),
{
}

/// The regexes of a list of compiled automata.
pub open spec fn dfa_regexes(dfas: Seq<Arc<Dfa>>) -> Seq<Seq<char>> {
    dfas.map_values(|d: Arc<Dfa>| d@)
}

/// Every automaton of the list is well formed.
pub open spec fn all_wf(dfas: Seq<Arc<Dfa>>) -> bool {
    forall|i: int| 0 <= i < dfas.len() ==> (#[trigger] dfas[i]).wf()
}

/// `dmatch` on characters `from..` of `w`, from position `start`, with the
/// automata `accept[next..]` as lookahead.
fn dmatch_from(
    w: &Vec<char>,
    from: usize,
    start: &DFAState,
    accept: &Vec<Arc<Dfa>>,
    next: usize,
) -> (r: bool)
    requires
        start.wf(),
        from <= w@.len(),
        next <= accept@.len(),
        all_wf(accept@),
    ensures
        r == dmatch_spec(w@.skip(from as int), start@.0, start@.1, dfa_regexes(accept@).skip(next as int)),
    decreases accept@.len() - next,
{
    let ghost ws = w@.skip(from as int);
    let ghost regex = start@.0;
    let ghost q = start@.1;
    let ghost lam = dfa_regexes(accept@).skip(next as int);
    let len: usize = w.len();
    let count: usize = accept.len();
    let n: usize = len - from;
    // Case 1: the whole input leaves the automaton live.
    let mut cur = start.copy();
    let mut i: usize = 0;
    #[verifier::loop_isolation(false)]
    while i < n
        invariant
            cur.wf(),
            n == ws.len(),
            from + n == len,
            len == w@.len(),
            count == accept@.len(),
            ws == w@.skip(from as int),
            0 <= i <= n,
            cur@ == (regex, run(regex, q, ws.take(i as int))),
        decreases n - i,
    {
        proof {
            assert(ws.take(i + 1).drop_last() =~= ws.take(i as int));
        }
        cur.consume_character(w[from + i]);
        i = i + 1;
    }
    proof {
        assert(ws.take(n as int) =~= ws);
    }
    if !cur.is_halted() {
        return true;
    }
    if next == accept.len() {
        // Case 2: a matched non-empty prefix, and nothing to follow.
        proof {
            assert(lam.len() == 0);
        }
        let mut cur = start.copy();
        let mut i: usize = 0;
        #[verifier::loop_isolation(false)]
        while i < n
            invariant
                cur.wf(),
                n == ws.len(),
                from + n == len,
            len == w@.len(),
            count == accept@.len(),
                ws == w@.skip(from as int),
                0 <= i <= n,
                !live(regex, run(regex, q, ws)),
                lam.len() == 0,
                cur@ == (regex, run(regex, q, ws.take(i as int))),
                forall|m: int| 0 <= m < i ==> !halted(regex, #[trigger] run(regex, q, ws.take(m + 1))),
                forall|j: int|
                    0 < j < i ==> !is_match(regex, #[trigger] run(regex, q, ws.take(j + 1))),
            decreases n - i,
        {
            proof {
                assert(ws.take(i + 1).drop_last() =~= ws.take(i as int));
            }
            let s = cur.consume_character(w[from + i]);
            proof {
                assert(ws[i as int] == w@[from + i]);
                assert(cur@.1 == run(regex, q, ws.take(i + 1)));
            }
            if cur.is_halted() {
                proof {
                    assert forall|j: int|
                        0 < j < ws.len() && #[trigger] is_match(regex, run(regex, q, ws.take(j + 1))) implies !(
                        forall|m: int|
                            0 <= m <= j ==> !halted(regex, #[trigger] run(regex, q, ws.take(m + 1)))) by {
                        if j >= i {
                            assert(0 <= i <= j);
                            assert(halted(regex, run(regex, q, ws.take(i + 1))));
                        } else {
                            assert(!is_match(regex, run(regex, q, ws.take(j + 1))));
                        }
                    }
                }
                return false;
            }
            if i > 0 && cur.is_match_state(s) {
                proof {
                    assert forall|m: int| 0 <= m <= i implies !halted(
                        regex,
                        #[trigger] run(regex, q, ws.take(m + 1)),
                    ) by {}
                    assert(is_match(regex, run(regex, q, ws.take(i + 1))));
                }
                return true;
            }
            i = i + 1;
        }
        return false;
    }
    // Case 3: the automaton halts after consuming at least one character;
    // the rest goes to the next terminal.
    proof {
        assert(lam.len() > 0);
        assert(lam[0] == accept@[next as int]@);
        assert(lam.drop_first() =~= dfa_regexes(accept@).skip(next + 1));
    }
    let mut cur = start.copy();
    let mut i: usize = 0;
    #[verifier::loop_isolation(false)]
    while i < n
        invariant
            cur.wf(),
            n == ws.len(),
            from + n == len,
            len == w@.len(),
            count == accept@.len(),
            ws == w@.skip(from as int),
            0 <= i <= n,
            next < accept@.len(),
            all_wf(accept@),
            lam == dfa_regexes(accept@).skip(next as int),
            cur@ == (regex, run(regex, q, ws.take(i as int))),
            forall|m: int| 0 <= m < i ==> !halted(regex, #[trigger] run(regex, q, ws.take(m + 1))),
        decreases n - i,
    {
        proof {
            assert(ws.take(i + 1).drop_last() =~= ws.take(i as int));
        }
        cur.consume_character(w[from + i]);
        if cur.is_halted() {
            proof {
                assert(stops_at(regex, q, ws, i as int));
                assert forall|k: int| #[trigger] stops_at(regex, q, ws, k) implies k == i by {
                    if k < i {
                        assert(!halted(regex, run(regex, q, ws.take(k + 1))));
                    }
                    if k > i {
                        assert(!halted(regex, run(regex, q, ws.take(i + 1))));
                    }
                }
            }
            if i == 0 {
                return false;
            }
            let follow = DFAState::new(Arc::clone(&accept[next]));
            proof {
                assert(ws.skip(i - 1) =~= w@.skip(from + i - 1));
            }
            return dmatch_from(w, from + i - 1, &follow, accept, next + 1);
        }
        i = i + 1;
    }
    proof {
        assert(ws.take(n as int) =~= ws);
        assert(!live(regex, run(regex, q, ws.take(n as int))));
    }
    false
}

/// The regexes of a list of string slices.
pub open spec fn patterns(ts: Seq<&str>) -> Seq<Seq<char>> {
    ts.map_values(|t: &str| t@)
}

/// The texts of a list of character vectors.
pub open spec fn texts(ts: Seq<Vec<char>>) -> Seq<Seq<char>> {
    ts.map_values(|t: Vec<char>| t@)
}

/// The mask of a vocabulary: entry `i` is whether token `i` matches from
/// position `pos` with lookahead `lam`.
pub open spec fn mask_spec(vocab: Seq<Seq<char>>, pos: (Seq<char>, u32), lam: Seq<Seq<char>>) -> Seq<
    bool,
> {
    Seq::new(vocab.len(), |i: int| dmatch_spec(vocab[i], pos.0, pos.1, lam))
}

/// `seq` has length `n` and each of its entries is one of `ts`.
pub open spec fn is_sequence_over(seq: Seq<Seq<char>>, ts: Seq<Seq<char>>, n: nat) -> bool {
    &&& seq.len() == n
    &&& forall|j: int| 0 <= j < seq.len() ==> ts.contains(#[trigger] seq[j])
}

/// The mask of a vocabulary, from one position, against compiled lookahead.
fn mask_compiled(state: &DFAState, accept: &Vec<Arc<Dfa>>, vocab: &Vec<Vec<char>>) -> (r: Vec<bool>)
    requires
        state.wf(),
        all_wf(accept@),
    ensures
        r@ == mask_spec(texts(vocab@), state@, dfa_regexes(accept@)),
{
    let mut mask: Vec<bool> = Vec::new();
    let mut i: usize = 0;
    while i < vocab.len()
        invariant
            state.wf(),
            all_wf(accept@),
            0 <= i <= vocab@.len(),
            mask@.len() == i,
            forall|k: int|
                0 <= k < i ==> mask@[k] == dmatch_spec(
                    vocab@[k]@,
                    state@.0,
                    state@.1,
                    dfa_regexes(accept@),
                ),
        decreases vocab@.len() - i,
    {
        let b = dmatch_from(&vocab[i], 0, state, accept, 0);
        proof {
            assert(vocab@[i as int]@.skip(0) =~= vocab@[i as int]@);
            assert(dfa_regexes(accept@).skip(0) =~= dfa_regexes(accept@));
        }
        mask.push(b);
        i = i + 1;
    }
    proof {
        assert(mask@ =~= mask_spec(texts(vocab@), state@, dfa_regexes(accept@)));
    }
    mask
}

/// The characters of each token.
fn token_chars(vocabulary: &Vec<&str>) -> (r: Vec<Vec<char>>)
    ensures
        texts(r@) == patterns(vocabulary@),
{
    let mut r: Vec<Vec<char>> = Vec::new();
    let mut i: usize = 0;
    while i < vocabulary.len()
        invariant
            0 <= i <= vocabulary@.len(),
            texts(r@) == patterns(vocabulary@).take(i as int),
        decreases vocabulary@.len() - i,
    {
        let c = chars_of(vocabulary[i]);
        proof {
            assert(texts(r@.push(c)) =~= texts(r@).push(c@));
            assert(patterns(vocabulary@).take(i + 1) =~= patterns(vocabulary@).take(i as int).push(
                vocabulary@[i as int]@,
            ));
        }
        r.push(c);
        i = i + 1;
    }
    proof {
        assert(patterns(vocabulary@).take(i as int) =~= patterns(vocabulary@));
    }
    r
}

/// Owned copies of string slices.
fn owned(ts: &Vec<&str>) -> (r: Vec<String>)
    ensures
        regexes(r@) == patterns(ts@),
{
    let mut r: Vec<String> = Vec::new();
    let mut i: usize = 0;
    while i < ts.len()
        invariant
            0 <= i <= ts@.len(),
            regexes(r@) == patterns(ts@).take(i as int),
        decreases ts@.len() - i,
    {
        let t = ts[i].to_string();
        proof {
            assert(regexes(r@.push(t)) =~= regexes(r@).push(t@));
            assert(patterns(ts@).take(i + 1) =~= patterns(ts@).take(i as int).push(ts@[i as int]@));
        }
        r.push(t);
        i = i + 1;
    }
    proof {
        assert(patterns(ts@).take(i as int) =~= patterns(ts@));
    }
    r
}

/// A copy of a list of strings.
fn copy_strings(ts: &Vec<String>) -> (r: Vec<String>)
    ensures
        regexes(r@) == regexes(ts@),
{
    let mut r: Vec<String> = Vec::new();
    let mut i: usize = 0;
    while i < ts.len()
        invariant
            0 <= i <= ts@.len(),
            regexes(r@) == regexes(ts@).take(i as int),
        decreases ts@.len() - i,
    {
        let t = ts[i].clone();
        proof {
            assert(regexes(r@.push(t)) =~= regexes(r@).push(t@));
            assert(regexes(ts@).take(i + 1) =~= regexes(ts@).take(i as int).push(ts@[i as int]@));
        }
        r.push(t);
        i = i + 1;
    }
    proof {
        assert(regexes(ts@).take(i as int) =~= regexes(ts@));
    }
    r
}

/// Some entry of `v` holds the sequence `seq`.
pub open spec fn has_sequence(v: Seq<Vec<String>>, seq: Seq<Seq<char>>) -> bool {
    exists|k: int| 0 <= k < v.len() && regexes(#[trigger] v[k]@) == seq
}

/// An entry that `v` held is still held once `v` has grown at the end.
proof fn lemma_has_sequence_grows(v: Seq<Vec<String>>, w: Seq<Vec<String>>, seq: Seq<Seq<char>>)
    requires
        has_sequence(v, seq),
        v.len() <= w.len(),
        forall|k: int| 0 <= k < v.len() ==> w[k] == v[k],
    ensures
        has_sequence(w, seq),
{
    let k = choose|k: int| 0 <= k < v.len() && regexes(#[trigger] v[k]@) == seq;
    assert(regexes(w[k]@) == seq);
}

/// Every sequence of `alpha` terminals, in the order of the Cartesian
/// product: the last position varies fastest.
pub fn accept_sequences(terminals: &Vec<String>, alpha: usize) -> (r: Vec<Vec<String>>)
    ensures
        forall|k: int|
            0 <= k < r@.len() ==> is_sequence_over(
                regexes((#[trigger] r@[k])@),
                regexes(terminals@),
                alpha as nat,
            ),
        forall|seq: Seq<Seq<char>>|
            #[trigger] is_sequence_over(seq, regexes(terminals@), alpha as nat) ==> has_sequence(
                r@,
                seq,
            ),
{
    let ghost ts = regexes(terminals@);
    let mut current: Vec<Vec<String>> = vec![Vec::new()];
    proof {
        assert forall|seq: Seq<Seq<char>>| #[trigger]
            is_sequence_over(seq, ts, 0) implies has_sequence(current@, seq) by {
            assert(regexes(current@[0]@) =~= seq);
        }
        assert(regexes(current@[0]@) =~= Seq::<Seq<char>>::empty());
    }
    let mut level: usize = 0;
    while level < alpha
        invariant
            ts == regexes(terminals@),
            0 <= level <= alpha,
            forall|k: int|
                0 <= k < current@.len() ==> is_sequence_over(
                    regexes((#[trigger] current@[k])@),
                    ts,
                    level as nat,
                ),
            forall|seq: Seq<Seq<char>>|
                #[trigger] is_sequence_over(seq, ts, level as nat) ==> has_sequence(current@, seq),
        decreases alpha - level,
    {
        let mut longer: Vec<Vec<String>> = Vec::new();
        let mut a: usize = 0;
        while a < current.len()
            invariant
                ts == regexes(terminals@),
                0 <= a <= current@.len(),
                forall|k: int|
                    0 <= k < current@.len() ==> is_sequence_over(
                        regexes((#[trigger] current@[k])@),
                        ts,
                        level as nat,
                    ),
                forall|k: int|
                    0 <= k < longer@.len() ==> is_sequence_over(
                        regexes((#[trigger] longer@[k])@),
                        ts,
                        (level + 1) as nat,
                    ),
                forall|seq: Seq<Seq<char>>|
                    #[trigger] is_sequence_over(seq, ts, level as nat) ==> has_sequence(current@, seq),
                forall|aa: int, bb: int|
                    0 <= aa < a && 0 <= bb < ts.len() ==> #[trigger] has_sequence(
                        longer@,
                        regexes(current@[aa]@).push(ts[bb]),
                    ),
            decreases current@.len() - a,
        {
            let mut b: usize = 0;
            let ghost before = longer@;
            while b < terminals.len()
                invariant
                    ts == regexes(terminals@),
                    0 <= a < current@.len(),
                    0 <= b <= terminals@.len(),
                    is_sequence_over(regexes(current@[a as int]@), ts, level as nat),
                    before.len() <= longer@.len(),
                    forall|k: int| 0 <= k < before.len() ==> longer@[k] == before[k],
                    forall|k: int|
                        0 <= k < longer@.len() ==> is_sequence_over(
                            regexes((#[trigger] longer@[k])@),
                            ts,
                            (level + 1) as nat,
                        ),
                    forall|bb: int|
                        0 <= bb < b ==> #[trigger] has_sequence(
                            longer@,
                            regexes(current@[a as int]@).push(ts[bb]),
                        ),
                decreases terminals@.len() - b,
            {
                let mut seq = copy_strings(&current[a]);
                seq.push(terminals[b].clone());
                proof {
                    assert(regexes(seq@) =~= regexes(current@[a as int]@).push(ts[b as int]));
                    assert(ts.contains(ts[b as int]));
                    assert forall|j: int| 0 <= j < regexes(seq@).len() implies ts.contains(
                        #[trigger] regexes(seq@)[j],
                    ) by {
                        if j < level {
                            assert(regexes(seq@)[j] == regexes(current@[a as int]@)[j]);
                        }
                    }
                }
                let ghost mid = longer@;
                longer.push(seq);
                proof {
                    assert forall|bb: int| 0 <= bb < b + 1 implies #[trigger] has_sequence(
                        longer@,
                        regexes(current@[a as int]@).push(ts[bb]),
                    ) by {
                        if bb < b {
                            lemma_has_sequence_grows(
                                mid,
                                longer@,
                                regexes(current@[a as int]@).push(ts[bb]),
                            );
                        } else {
                            assert(regexes(longer@[mid.len() as int]@) == regexes(
                                current@[a as int]@,
                            ).push(ts[bb]));
                        }
                    }
                }
                b = b + 1;
            }
            proof {
                assert forall|aa: int, bb: int|
                    0 <= aa < a + 1 && 0 <= bb < ts.len() implies #[trigger] has_sequence(
                        longer@,
                        regexes(current@[aa]@).push(ts[bb]),
                    ) by {
                    if aa < a {
                        assert(has_sequence(before, regexes(current@[aa]@).push(ts[bb])));
                        lemma_has_sequence_grows(before, longer@, regexes(current@[aa]@).push(ts[bb]));
                    } else {
                        assert(has_sequence(longer@, regexes(current@[a as int]@).push(ts[bb])));
                    }
                }
            }
            a = a + 1;
        }
        proof {
            assert forall|seq: Seq<Seq<char>>| #[trigger]
                is_sequence_over(seq, ts, (level + 1) as nat) implies has_sequence(longer@, seq) by {
                let prefix = seq.drop_last();
                assert(is_sequence_over(prefix, ts, level as nat)) by {
                    assert forall|j: int| 0 <= j < prefix.len() implies ts.contains(
                        #[trigger] prefix[j],
                    ) by {
                        assert(prefix[j] == seq[j]);
                    }
                }
                assert(has_sequence(current@, prefix));
                let aa = choose|aa: int|
                    0 <= aa < current@.len() && regexes(#[trigger] current@[aa]@) == prefix;
                assert(ts.contains(seq.last()));
                let bb = choose|bb: int| 0 <= bb < ts.len() && ts[bb] == seq.last();
                assert(prefix.push(ts[bb]) =~= seq);
                assert(has_sequence(longer@, regexes(current@[aa]@).push(ts[bb])));
            }
        }
        let ghost old_level = level;
        current = longer;
        level = level + 1;
        proof {
            assert forall|seq: Seq<Seq<char>>| #[trigger]
                is_sequence_over(seq, ts, level as nat) implies has_sequence(current@, seq) by {
                assert(is_sequence_over(seq, ts, (old_level + 1) as nat));
            }
        }
    }
    current
}

/// One precomputed mask: a position, a lookahead, and the vocabulary's mask.
#[derive(Debug)]
pub struct MaskEntry {
    state: DFAState,
    sequence: Vec<String>,
    mask: Vec<bool>,
}

impl MaskEntry {
    /// The entry's key: its position and its lookahead.
    pub closed spec fn key(&self) -> ((Seq<char>, u32), Seq<Seq<char>>) {
        (self.state@, regexes(self.sequence@))
    }

    /// The stored mask.
    pub closed spec fn mask_view(&self) -> Seq<bool> {
        self.mask@
    }
}

/// Whether two lists of strings hold the same strings in the same order.
fn same_strings(a: &Vec<String>, b: &Vec<String>) -> (r: bool)
    ensures
        r == (regexes(a@) == regexes(b@)),
{
    if a.len() != b.len() {
        proof {
            assert(regexes(a@).len() != regexes(b@).len());
        }
        return false;
    }
    let mut i: usize = 0;
    while i < a.len()
        invariant
            a@.len() == b@.len(),
            0 <= i <= a@.len(),
            forall|k: int| 0 <= k < i ==> a@[k]@ == b@[k]@,
        decreases a@.len() - i,
    {
        if a[i] != b[i] {
            proof {
                assert(regexes(a@)[i as int] != regexes(b@)[i as int]);
            }
            return false;
        }
        i = i + 1;
    }
    proof {
        assert(regexes(a@) =~= regexes(b@));
    }
    true
}

/// The precomputed table from (position, lookahead) to vocabulary mask.
#[derive(Debug)]
pub struct MaskStore {
    vocabulary: Vec<String>,
    entries: Vec<MaskEntry>,
}

impl MaskStore {
    /// The vocabulary that the masks are over.
    pub closed spec fn vocab(&self) -> Seq<Seq<char>> {
        regexes(self.vocabulary@)
    }

    /// Whether the table has a mask for this position and lookahead.
    pub closed spec fn has_key(&self, pos: (Seq<char>, u32), seq: Seq<Seq<char>>) -> bool {
        exists|i: int| 0 <= i < self.entries@.len() && #[trigger] self.entries@[i].key() == (pos, seq)
    }

    /// Every stored mask is the mask of its key over the vocabulary.
    pub closed spec fn wf(&self) -> bool {
        forall|i: int|
            0 <= i < self.entries@.len() ==> (#[trigger] self.entries@[i]).mask_view() == mask_spec(
                self.vocab(),
                self.entries@[i].key().0,
                self.entries@[i].key().1,
            )
    }

    /// The number of stored masks.
    pub closed spec fn size(&self) -> nat {
        self.entries@.len()
    }

    /// The number of stored masks.
    pub fn len(&self) -> (r: usize)
        ensures
            r == self.size(),
    {
        self.entries.len()
    }

    /// The mask stored for `state` with lookahead `sequence`, if any.
    pub fn get(&self, state: &DFAState, sequence: &Vec<&str>) -> (r: Option<&Vec<bool>>)
        requires
            self.wf(),
        ensures
            r is Some <==> self.has_key(state@, patterns(sequence@)),
            r matches Some(m) ==> m@ == mask_spec(self.vocab(), state@, patterns(sequence@)),
    {
        let wanted = owned(sequence);
        let mut i: usize = 0;
        while i < self.entries.len()
            invariant
                self.wf(),
                regexes(wanted@) == patterns(sequence@),
                0 <= i <= self.entries@.len(),
                forall|k: int|
                    0 <= k < i ==> (#[trigger] self.entries@[k]).key() != (
                        state@,
                        patterns(sequence@),
                    ),
            decreases self.entries@.len() - i,
        {
            let entry = &self.entries[i];
            if entry.state == *state && same_strings(&entry.sequence, &wanted) {
                proof {
                    assert(self.entries@[i as int].key() == (state@, patterns(sequence@)));
                }
                return Some(&entry.mask);
            }
            i = i + 1;
        }
        None
    }
}

/// A key that the store built over terminals `ts` with lookahead length
/// `alpha` covers: a reachable state of one of the terminals, and a sequence
/// of `alpha` of the terminals.
pub open spec fn store_key(
    ts: Seq<Seq<char>>,
    alpha: nat,
    pos: (Seq<char>, u32),
    seq: Seq<Seq<char>>,
) -> bool {
    &&& ts.contains(pos.0)
    &&& reachable(pos.0, pos.1)
    &&& is_sequence_over(seq, ts, alpha)
}

/// `store` holds, for exactly the keys over terminals `ts` and lookahead
/// length `alpha`, the mask of `vocab`.
pub open spec fn is_store_of(
    store: MaskStore,
    ts: Seq<Seq<char>>,
    alpha: nat,
    vocab: Seq<Seq<char>>,
) -> bool {
    &&& store.wf()
    &&& store.vocab() == vocab
    &&& forall|pos: (Seq<char>, u32), seq: Seq<Seq<char>>|
        #[trigger] store.has_key(pos, seq) <==> store_key(ts, alpha, pos, seq)
}

/// Some entry has this key.
spec fn has_entry(entries: Seq<MaskEntry>, key: ((Seq<char>, u32), Seq<Seq<char>>)) -> bool {
    exists|k: int| 0 <= k < entries.len() && #[trigger] entries[k].key() == key
}

/// Why a mask store was not built.
#[derive(Debug)]
pub enum StoreError {
    /// A terminal could not be compiled.
    Dfa(DfaError),
    /// The masks would take more bits than the budget allows; `bits` is
    /// their size, or `usize::MAX` if that does not fit.
    TooLarge { bits: usize },
}

/// `b` to the power `e`.
pub open spec fn power(b: nat, e: nat) -> nat
    decreases e,
{
    if e == 0 {
        1
    } else {
        b * power(b, (e - 1) as nat)
    }
}

/// The bits that a mask store takes: one per token, for each state and each
/// sequence of `alpha` terminals.
pub open spec fn store_bits(n_states: nat, n_terminals: nat, alpha: nat, n_tokens: nat) -> nat {
    n_states * power(n_terminals, alpha) * n_tokens
}

/// `x` if it fits in a `usize`, else `usize::MAX`.
pub open spec fn saturated(x: nat) -> nat {
    if x > usize::MAX {
        usize::MAX as nat
    } else {
        x
    }
}

/// Multiplying a saturated value saturates the product.
proof fn lemma_saturated_times(a: nat, b: nat)
    ensures
        saturated(saturated(a) * b) == saturated(a * b),
{
    if a > usize::MAX && b > 0 {
        assert(usize::MAX * b >= usize::MAX) by (nonlinear_arith)
            requires
                b > 0,
        ;
        assert(a * b >= usize::MAX * b) by (nonlinear_arith)
            requires
                a > usize::MAX,
                b > 0,
        ;
    }
}

/// `a * b`, or `usize::MAX` if that does not fit.
fn saturating_times(a: usize, b: usize) -> (r: usize)
    ensures
        r == saturated(a as nat * b as nat),
{
    match a.checked_mul(b) {
        Some(p) => p,
        None => usize::MAX,
    }
}

/// The bits of a store of `n_states` states, `n_terminals` terminals taken
/// `alpha` at a time, and `n_tokens` tokens, or `usize::MAX` if that does
/// not fit.
pub fn store_size(n_states: usize, n_terminals: usize, alpha: usize, n_tokens: usize) -> (r: usize)
    ensures
        r == saturated(store_bits(n_states as nat, n_terminals as nat, alpha as nat, n_tokens as nat)),
{
    let ghost t = n_terminals as nat;
    let mut sequences: usize = 1;
    let mut k: usize = 0;
    while k < alpha
        invariant
            0 <= k <= alpha,
            t == n_terminals,
            sequences == saturated(power(t, k as nat)),
        decreases alpha - k,
    {
        proof {
            lemma_saturated_times(power(t, k as nat), t);
            assert(power(t, (k + 1) as nat) == t * power(t, k as nat));
            assert(power(t, k as nat) * t == t * power(t, k as nat)) by (nonlinear_arith);
        }
        sequences = saturating_times(sequences, n_terminals);
        k = k + 1;
    }
    let ghost p = power(t, alpha as nat);
    let with_states = saturating_times(sequences, n_states);
    proof {
        lemma_saturated_times(p, n_states as nat);
        assert(p * n_states == n_states * p) by (nonlinear_arith);
    }
    let r = saturating_times(with_states, n_tokens);
    proof {
        lemma_saturated_times(n_states as nat * p, n_tokens as nat);
    }
    r
}

/// Answers `dmatch` and mask queries, compiling each terminal once.
#[derive(Debug)]
pub struct Masker {
    pub dfa_builder: DFABuilder,
}

impl Masker {
    /// The builder's cache is well formed.
    pub open spec fn wf(&self) -> bool {
        self.dfa_builder.wf()
    }

    /// A masker with an empty cache.
    pub fn new() -> (r: Masker)
        ensures
            r.wf(),
    {
        Masker { dfa_builder: DFABuilder::new() }
    }

    /// The automata of a list of terminals, in order.
    fn resolve(&mut self, terms: &Vec<String>) -> (r: Result<Vec<Arc<Dfa>>, DfaError>)
        requires
            old(self).wf(),
        ensures
            final(self).wf(),
            r is Ok <==> all_buildable(regexes(terms@)),
            r matches Ok(v) ==> all_wf(v@) && dfa_regexes(v@) == regexes(terms@),
            r matches Err(e) ==> regexes(terms@).contains(e.pattern()) && !buildable(e.pattern()),
    {
        let mut v: Vec<Arc<Dfa>> = Vec::new();
        let mut i: usize = 0;
        while i < terms.len()
            invariant
                self.wf(),
                0 <= i <= terms@.len(),
                all_wf(v@),
                dfa_regexes(v@) == regexes(terms@).take(i as int),
                forall|k: int| 0 <= k < i ==> buildable(#[trigger] terms@[k]@),
            decreases terms@.len() - i,
        {
            match self.dfa_builder.dfa_for(terms[i].as_str()) {
                Err(e) => {
                    proof {
                        assert(regexes(terms@)[i as int] == e.pattern());
                    }
                    return Err(e);
                },
                Ok(d) => {
                    proof {
                        assert(dfa_regexes(v@.push(d)) =~= dfa_regexes(v@).push(d@));
                        assert(regexes(terms@).take(i + 1) =~= regexes(terms@).take(i as int).push(
                            terms@[i as int]@,
                        ));
                    }
                    v.push(d);
                },
            }
            i = i + 1;
        }
        proof {
            assert(regexes(terms@).take(i as int) =~= regexes(terms@));
            assert forall|k: int| 0 <= k < regexes(terms@).len() implies buildable(
                #[trigger] regexes(terms@)[k],
            ) by {
                assert(buildable(terms@[k]@));
            }
        }
        Ok(v)
    }

    /// Whether `string` can continue the terminal of `starting_state` from
    /// that state, spilling over into `sequence_of_terminals` in turn.
    /// Fails when one of those terminals cannot be compiled.
    pub fn dmatch(
        &mut self,
        string: &str,
        starting_state: &DFAState,
        sequence_of_terminals: Vec<&str>,
    ) -> (r: Result<bool, DfaError>)
        requires
            old(self).wf(),
            starting_state.wf(),
        ensures
            final(self).wf(),
            r is Ok <==> all_buildable(patterns(sequence_of_terminals@)),
            r matches Ok(b) ==> b == dmatch_spec(
                string@,
                starting_state@.0,
                starting_state@.1,
                patterns(sequence_of_terminals@),
            ),
            r matches Err(e) ==> patterns(sequence_of_terminals@).contains(e.pattern())
                && !buildable(e.pattern()),
    {
        let terms = owned(&sequence_of_terminals);
        let accept = match self.resolve(&terms) {
            Err(e) => {
                return Err(e);
            },
            Ok(v) => v,
        };
        let chars = chars_of(string);
        let b = dmatch_from(&chars, 0, starting_state, &accept, 0);
        proof {
            assert(chars@.skip(0) =~= string@);
            assert(dfa_regexes(accept@).skip(0) =~= patterns(sequence_of_terminals@));
        }
        Ok(b)
    }

    /// The mask of `vocabulary` at `state` with lookahead
    /// `terminal_sequence`: entry `i` is `dmatch` of token `i`.
    pub fn dfa_mask(
        &mut self,
        state: &DFAState,
        terminal_sequence: &Vec<&str>,
        vocabulary: &Vec<&str>,
    ) -> (r: Result<Vec<bool>, DfaError>)
        requires
            old(self).wf(),
            state.wf(),
        ensures
            final(self).wf(),
            r is Ok <==> all_buildable(patterns(terminal_sequence@)),
            r matches Ok(m) ==> m@ == mask_spec(
                patterns(vocabulary@),
                state@,
                patterns(terminal_sequence@),
            ),
            r matches Err(e) ==> patterns(terminal_sequence@).contains(e.pattern())
                && !buildable(e.pattern()),
    {
        let terms = owned(terminal_sequence);
        let accept = match self.resolve(&terms) {
            Err(e) => {
                return Err(e);
            },
            Ok(v) => v,
        };
        let vocab = token_chars(vocabulary);
        Ok(mask_compiled(state, &accept, &vocab))
    }

    /// The automata of each accept sequence.
    fn resolve_all(&mut self, sequences: &Vec<Vec<String>>, ts: Ghost<Seq<Seq<char>>>) -> (r: Vec<
        Vec<Arc<Dfa>>,
    >)
        requires
            old(self).wf(),
            all_buildable(ts@),
            forall|k: int|
                0 <= k < sequences@.len() ==> is_sequence_over(
                    regexes((#[trigger] sequences@[k])@),
                    ts@,
                    regexes(sequences@[k]@).len(),
                ),
        ensures
            final(self).wf(),
            r@.len() == sequences@.len(),
            forall|k: int|
                0 <= k < r@.len() ==> all_wf(#[trigger] r@[k]@) && dfa_regexes(r@[k]@) == regexes(
                    sequences@[k]@,
                ),
    {
        let mut compiled: Vec<Vec<Arc<Dfa>>> = Vec::new();
        let mut j: usize = 0;
        #[verifier::loop_isolation(false)]
        while j < sequences.len()
            invariant
                self.wf(),
                0 <= j <= sequences@.len(),
                compiled@.len() == j,
                forall|k: int|
                    0 <= k < j ==> all_wf(#[trigger] compiled@[k]@) && dfa_regexes(compiled@[k]@)
                        == regexes(sequences@[k]@),
            decreases sequences@.len() - j,
        {
            proof {
                let seq = regexes(sequences@[j as int]@);
                assert(is_sequence_over(seq, ts@, seq.len()));
                assert forall|i: int| 0 <= i < seq.len() implies buildable(#[trigger] seq[i]) by {
                    assert(ts@.contains(seq[i]));
                    let m = choose|m: int| 0 <= m < ts@.len() && ts@[m] == seq[i];
                    assert(buildable(ts@[m]));
                }
            }
            match self.resolve(&sequences[j]) {
                Err(e) => {
                    proof {
                        assert(false);
                    }
                    return compiled;
                },
                Ok(v) => {
                    compiled.push(v);
                },
            }
            j = j + 1;
        }
        compiled
    }

    /// The mask store: for every state of every terminal and every sequence
    /// of `length_of_terminal_sequences` terminals, the mask of the
    /// vocabulary. Fails when a terminal cannot be compiled.
    pub fn dfa_mask_store(
        &mut self,
        lexical_terminals: Vec<&str>,
        model_vocabulary: Vec<&str>,
        length_of_terminal_sequences: usize,
    ) -> (r: Result<MaskStore, DfaError>)
        requires
            old(self).wf(),
        ensures
            final(self).wf(),
            r is Ok <==> all_buildable(patterns(lexical_terminals@)),
            r matches Err(e) ==> patterns(lexical_terminals@).contains(e.pattern()) && !buildable(
                e.pattern(),
            ),
            r matches Ok(store) ==> is_store_of(
                store,
                patterns(lexical_terminals@),
                length_of_terminal_sequences as nat,
                patterns(model_vocabulary@),
            ),
    {
        let ghost ts = patterns(lexical_terminals@);
        let ghost alpha = length_of_terminal_sequences as nat;
        let terminals = owned(&lexical_terminals);
        let states = match all_dfa_states(&terminals) {
            Err(e) => {
                return Err(e);
            },
            Ok(v) => v,
        };
        let sequences = accept_sequences(&terminals, length_of_terminal_sequences);
        let compiled = self.resolve_all(&sequences, Ghost(ts));
        let vocab = token_chars(&model_vocabulary);
        let vocabulary = owned(&model_vocabulary);
        let mut entries: Vec<MaskEntry> = Vec::new();
        let mut i: usize = 0;
        while i < states.len()
            invariant
                self.wf(),
                ts == regexes(terminals@),
                texts(vocab@) == patterns(model_vocabulary@),
                0 <= i <= states@.len(),
                compiled@.len() == sequences@.len(),
                forall|k: int| 0 <= k < states@.len() ==> (#[trigger] states@[k]).wf(),
                forall|k: int| 0 <= k < states@.len() ==> ts.contains((#[trigger] states@[k])@.0),
                forall|k: int|
                    0 <= k < sequences@.len() ==> is_sequence_over(
                        regexes((#[trigger] sequences@[k])@),
                        ts,
                        alpha,
                    ),
                forall|k: int|
                    0 <= k < compiled@.len() ==> all_wf(#[trigger] compiled@[k]@) && dfa_regexes(
                        compiled@[k]@,
                    ) == regexes(sequences@[k]@),
                forall|k: int|
                    0 <= k < entries@.len() ==> (#[trigger] entries@[k]).mask_view() == mask_spec(
                        texts(vocab@),
                        entries@[k].key().0,
                        entries@[k].key().1,
                    ) && store_key(ts, alpha, entries@[k].key().0, entries@[k].key().1),
                forall|ii: int, jj: int|
                    0 <= ii < i && 0 <= jj < sequences@.len() ==> has_entry(
                        entries@,
                        (#[trigger] states@[ii]@, regexes((#[trigger] sequences@[jj])@)),
                    ),
            decreases states@.len() - i,
        {
            let ghost before = entries@;
            let mut j: usize = 0;
            while j < sequences.len()
                invariant
                    self.wf(),
                    ts == regexes(terminals@),
                    texts(vocab@) == patterns(model_vocabulary@),
                    0 <= i < states@.len(),
                    0 <= j <= sequences@.len(),
                    compiled@.len() == sequences@.len(),
                    states@[i as int].wf(),
                    ts.contains(states@[i as int]@.0),
                    forall|k: int|
                        0 <= k < sequences@.len() ==> is_sequence_over(
                            regexes((#[trigger] sequences@[k])@),
                            ts,
                            alpha,
                        ),
                    forall|k: int|
                        0 <= k < compiled@.len() ==> all_wf(#[trigger] compiled@[k]@) && dfa_regexes(
                            compiled@[k]@,
                        ) == regexes(sequences@[k]@),
                    before.len() <= entries@.len(),
                    forall|k: int| 0 <= k < before.len() ==> entries@[k] == before[k],
                    forall|k: int|
                        0 <= k < entries@.len() ==> (#[trigger] entries@[k]).mask_view() == mask_spec(
                            texts(vocab@),
                            entries@[k].key().0,
                            entries@[k].key().1,
                        ) && store_key(ts, alpha, entries@[k].key().0, entries@[k].key().1),
                    forall|jj: int|
                        0 <= jj < j ==> has_entry(
                            entries@,
                            (states@[i as int]@, regexes((#[trigger] sequences@[jj])@)),
                        ),
                decreases sequences@.len() - j,
            {
                let mask = mask_compiled(&states[i], &compiled[j], &vocab);
                let entry = MaskEntry {
                    state: states[i].copy(),
                    sequence: copy_strings(&sequences[j]),
                    mask,
                };
                proof {
                    assert(reachable(states@[i as int]@.0, states@[i as int]@.1)) by {
                        states@[i as int].lemma_wf();
                    }
                    assert(entry.key() == (states@[i as int]@, regexes(sequences@[j as int]@)));
                }
                let ghost mid = entries@;
                entries.push(entry);
                proof {
                    assert forall|jj: int| 0 <= jj < j + 1 implies has_entry(
                        entries@,
                        (states@[i as int]@, regexes((#[trigger] sequences@[jj])@)),
                    ) by {
                        if jj < j {
                            let k = choose|k: int|
                                0 <= k < mid.len() && #[trigger] mid[k].key() == (
                                    states@[i as int]@,
                                    regexes(sequences@[jj]@),
                                );
                            assert(entries@[k] == mid[k]);
                        } else {
                            assert(entries@[mid.len() as int].key() == (
                                states@[i as int]@,
                                regexes(sequences@[jj]@),
                            ));
                        }
                    }
                }
                j = j + 1;
            }
            proof {
                assert forall|ii: int, jj: int|
                    0 <= ii < i + 1 && 0 <= jj < sequences@.len() implies has_entry(
                        entries@,
                        (#[trigger] states@[ii]@, regexes((#[trigger] sequences@[jj])@)),
                    ) by {
                    if ii < i {
                        assert(has_entry(before, (states@[ii]@, regexes(sequences@[jj]@))));
                        let k = choose|k: int|
                            0 <= k < before.len() && #[trigger] before[k].key() == (
                                states@[ii]@,
                                regexes(sequences@[jj]@),
                            );
                        assert(entries@[k] == before[k]);
                    }
                }
            }
            i = i + 1;
        }
        let store = MaskStore { vocabulary, entries };
        proof {
            assert(ts == regexes(terminals@));
            assert forall|pos: (Seq<char>, u32), seq: Seq<Seq<char>>|
                #[trigger] store.has_key(pos, seq) <==> store_key(ts, alpha, pos, seq) by {
                if store_key(ts, alpha, pos, seq) {
                    assert(positions(states@).contains(pos));
                    let ii = choose|ii: int| 0 <= ii < states@.len() && positions(states@)[ii] == pos;
                    assert(states@[ii]@ == pos);
                    assert(has_sequence(sequences@, seq));
                    let jj = choose|jj: int|
                        0 <= jj < sequences@.len() && regexes(#[trigger] sequences@[jj]@) == seq;
                    assert(has_entry(store.entries@, (states@[ii]@, regexes(sequences@[jj]@))));
                }
            }
        }
        Ok(store)
    }

    /// As `dfa_mask_store`, but fails before computing any mask when the
    /// masks would take more than `budget` bits (a size past `usize::MAX`
    /// counts as `usize::MAX`).
    pub fn dfa_mask_store_within(
        &mut self,
        lexical_terminals: Vec<&str>,
        model_vocabulary: Vec<&str>,
        length_of_terminal_sequences: usize,
        budget: usize,
    ) -> (r: Result<MaskStore, StoreError>)
        requires
            old(self).wf(),
        ensures
            final(self).wf(),
            ({
                let ts = patterns(lexical_terminals@);
                let bits = store_bits(
                    total_states(ts),
                    ts.len(),
                    length_of_terminal_sequences as nat,
                    model_vocabulary@.len(),
                );
                &&& !all_buildable(ts) ==> (r matches Err(StoreError::Dfa(e)) && ts.contains(
                    e.pattern(),
                ) && !buildable(e.pattern()))
                &&& all_buildable(ts) && saturated(bits) > budget ==> (r matches Err(
                    StoreError::TooLarge { bits: b },
                ) && b == saturated(bits))
                &&& all_buildable(ts) && saturated(bits) <= budget ==> (r matches Ok(store) && is_store_of(
                    store,
                    ts,
                    length_of_terminal_sequences as nat,
                    patterns(model_vocabulary@),
                ))
            }),
    {
        let terminals = owned(&lexical_terminals);
        let n_states = match all_dfa_states(&terminals) {
            Err(e) => {
                return Err(StoreError::Dfa(e));
            },
            Ok(v) => v.len(),
        };
        proof {
            assert(regexes(terminals@).len() == terminals@.len());
            assert(patterns(lexical_terminals@).len() == lexical_terminals@.len());
        }
        let bits = store_size(
            n_states,
            terminals.len(),
            length_of_terminal_sequences,
            model_vocabulary.len(),
        );
        if bits > budget {
            return Err(StoreError::TooLarge { bits });
        }
        match self.dfa_mask_store(lexical_terminals, model_vocabulary, length_of_terminal_sequences) {
            Err(e) => Err(StoreError::Dfa(e)),
            Ok(store) => Ok(store),
        }
    }
}

} // verus!
