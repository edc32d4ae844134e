//! Consuming the longest prefix of an input that an automaton matches.
use crate::automaton::{halted, is_dead, is_match, reachable, run_bytes, start_of, Dfa};
use vstd::prelude::*;
use vstd::utf8::{encode_utf8, is_char_boundary};

verus! {

/// The state after the first `k` bytes of `bytes`, from the anchored start.
pub open spec fn state_after(regex: Seq<char>, bytes: Seq<u8>, k: int) -> u32 {
    run_bytes(regex, start_of(regex), bytes.take(k))
}

/// Byte `k` is the first byte on which the automaton enters its dead state.
pub open spec fn dies_at(regex: Seq<char>, bytes: Seq<u8>, k: int) -> bool {
    &&& 0 <= k < bytes.len()
    &&& is_dead(regex, state_after(regex, bytes, k + 1))
    &&& forall|j: int| 0 <= j < k ==> !is_dead(regex, #[trigger] state_after(regex, bytes, j + 1))
}

/// Byte `i` is the last byte before byte `k` on which the automaton enters
/// a match state: the match ends just before byte `i`.
pub open spec fn last_match_before(regex: Seq<char>, bytes: Seq<u8>, k: int, i: int) -> bool {
    &&& 0 <= i < k
    &&& is_match(regex, state_after(regex, bytes, i + 1))
    &&& forall|j: int| i < j < k ==> !is_match(regex, #[trigger] state_after(regex, bytes, j + 1))
}

/// Every byte on which the automaton enters a match state, before it dies,
/// starts a character of the input.
pub open spec fn matches_on_boundaries(regex: Seq<char>, input: Seq<char>) -> bool {
    let bytes = encode_utf8(input);
    forall|i: int|
        0 <= i < bytes.len() && #[trigger] is_match(regex, state_after(regex, bytes, i + 1)) && (
        forall|j: int| 0 <= j <= i ==> !is_dead(regex, #[trigger] state_after(regex, bytes, j + 1)))
            ==> is_char_boundary(bytes, i)
}

/// Feeds the bytes of `input` from the anchored start of `dfa`. If the
/// automaton dies, returns whether it matched a prefix before that, with
/// the rest of the input after the longest such prefix. If it takes the
/// whole input without dying, returns `(true, Some(""))`.
pub fn consume_prefix(dfa: &Dfa, input: &str) -> (r: (bool, Option<String>))
    requires
        dfa.wf(),
        matches_on_boundaries(dfa@, input@),
    ensures
        ({
            let bytes = encode_utf8(input@);
            &&& (forall|k: int| !dies_at(dfa@, bytes, k)) ==> r.0 && r.1 is Some && r.1->Some_0@.len()
                == 0
            &&& forall|k: int|
                #[trigger] dies_at(dfa@, bytes, k) ==> {
                    &&& (forall|i: int| !last_match_before(dfa@, bytes, k, i)) ==> !r.0 && r.1
                        is None
                    &&& forall|i: int|
                        #[trigger] last_match_before(dfa@, bytes, k, i) ==> r.0 && r.1 is Some
                            && encode_utf8(r.1->Some_0@) == bytes.skip(i)
                }
        }),
{
    let ghost regex = dfa@;
    let bytes = input.as_bytes();
    let ghost bs = encode_utf8(input@);
    let mut state = dfa.start();
    let mut remainder: Option<String> = None;
    let ghost mut last: int = -1;
    let mut i: usize = 0;
    while i < bytes.len()
        invariant
            dfa.wf(),
            regex == dfa@,
            bytes@ == bs,
            bs == encode_utf8(input@),
            matches_on_boundaries(regex, input@),
            0 <= i <= bs.len(),
            state == state_after(regex, bs, i as int),
            reachable(regex, state),
            forall|j: int| 0 <= j < i ==> !is_dead(regex, #[trigger] state_after(regex, bs, j + 1)),
            -1 <= last < i,
            last == -1 ==> remainder is None && forall|j: int|
                0 <= j < i ==> !is_match(regex, #[trigger] state_after(regex, bs, j + 1)),
            last >= 0 ==> last_match_before(regex, bs, i as int, last) && remainder is Some
                && encode_utf8(remainder->Some_0@) == bs.skip(last),
        decreases bs.len() - i,
    {
        proof {
            assert(bs.take(i + 1).drop_last() =~= bs.take(i as int));
            crate::automaton::lemma_reachable_step(regex, state, Some(bs[i as int]));
        }
        state = dfa.next_state(state, bytes[i]);
        proof {
            assert(state == state_after(regex, bs, i + 1));
        }
        if dfa.is_match_state(state) {
            proof {
                dfa.lemma_wf();
                assert(!halted(regex, state));
                assert forall|j: int| 0 <= j <= i implies !is_dead(
                    regex,
                    #[trigger] state_after(regex, bs, j + 1),
                ) by {}
                assert(is_char_boundary(bs, i as int));
            }
            let (_, rest) = input.split_at(i);
            remainder = Some(rest.to_string());
            proof {
                last = i as int;
                assert(!is_dead(regex, state_after(regex, bs, i + 1)));
            }
        } else if dfa.is_dead_state(state) {
            proof {
                assert(dies_at(regex, bs, i as int));
                assert forall|k: int| #[trigger] dies_at(regex, bs, k) implies k == i by {
                    if k < i {
                        assert(!is_dead(regex, state_after(regex, bs, k + 1)));
                    }
                    if k > i {
                        assert(!is_dead(regex, state_after(regex, bs, i + 1)));
                    }
                }
                if last >= 0 {
                    assert forall|m: int| #[trigger] last_match_before(regex, bs, i as int, m) implies m == last by {
                        if m < last {
                            assert(!is_match(regex, state_after(regex, bs, last + 1)));
                        }
                        if m > last {
                            assert(!is_match(regex, state_after(regex, bs, m + 1)));
                        }
                    }
                }
            }
            let matched = remainder.is_some();
            return (matched, remainder);
        }
        i = i + 1;
    }
    proof {
        assert forall|k: int| !dies_at(regex, bs, k) by {
            if 0 <= k < bs.len() {
                assert(!is_dead(regex, state_after(regex, bs, k + 1)));
            }
        }
    }
    (true, Some(String::new()))
}

} // verus!
