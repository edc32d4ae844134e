use rust_syncode::{all_dfa_states, DFABuilder, DFAState, Dfa, DfaError};
use std::collections::hash_map::DefaultHasher;
use std::hash::{Hash, Hasher};
use std::sync::Arc;

fn start(regex: &str) -> DFAState {
    DFABuilder::new().build_dfa(regex.to_string()).unwrap()
}

#[test]
fn test_consume_character_match() {
    let mut dfa_state = start("a");
    let mut state = dfa_state.consume_character('a');
    state = dfa_state.next_eoi_state(state);
    assert!(dfa_state.is_match_state(state));
}

#[test]
fn test_consume_character_fails_to_match() {
    let mut dfa_state = start("a");
    let mut state = dfa_state.consume_character('b');
    state = dfa_state.next_eoi_state(state);
    assert!(!dfa_state.is_match_state(state));
}

#[test]
fn test_advance_match() {
    let mut dfa_state = start("[ab¥]*");
    let mut state = dfa_state.advance("aabb¥aab");
    state = dfa_state.next_eoi_state(state);
    assert!(dfa_state.is_match_state(state));
}

#[test]
fn test_advance_fails_to_match() {
    let mut dfa_state = start("[ab]*");
    let mut state = dfa_state.advance("aabba¥ab");
    state = dfa_state.next_eoi_state(state);
    assert!(!dfa_state.is_match_state(state));
}

#[test]
fn test_advance() {
    let mut dfa_state = start(r"[a-zA-Z_]*");
    let state = dfa_state.advance("indeed");
    assert!(dfa_state.is_match_state(state));
}

#[test]
fn multibyte_character_feeds_all_its_bytes() {
    // Feeding '¥' one character at a time equals feeding its two bytes.
    let mut by_char = start("¥b");
    by_char.consume_character('¥');
    by_char.consume_character('b');
    let end = by_char.next_eoi_state(by_char.state_id());
    assert!(by_char.is_match_state(end));
}

#[test]
fn utf8_encoding_matches_std() {
    for c in ['a', '¥', '³', 'Ġ', '€', '😀'] {
        let mut buf = [0u8; 4];
        let expected = c.encode_utf8(&mut buf).as_bytes().to_vec();
        assert_eq!(rust_syncode::dfa::utf8_encode(c), expected);
    }
}

#[test]
fn py_advance_leaves_the_receiver() {
    let here = start(r"[a-zA-Z_]*");
    let there = here.py_advance("is".to_string());
    let mut again = start(r"[a-zA-Z_]*");
    again.advance("is");
    assert_eq!(there, again);
    assert_ne!(here, there);
    assert_eq!(there.regex(), r"[a-zA-Z_]*");
}

#[test]
fn states_are_closed_and_start_first() {
    let here = start(r"[ab]*cd");
    let states = here.states();
    assert_eq!(states[0], here.state_id());
    for (i, s) in states.iter().enumerate() {
        assert!(!states[..i].contains(s));
    }
    for &s in &states {
        for b in 0..=255u8 {
            let mut step = DFAState::at(here.dfa().clone(), s);
            // Feed the byte through a one-byte character where possible.
            if b < 0x80 {
                let next = step.consume_character(b as char);
                assert!(states.contains(&next));
            }
        }
        let eoi = here.next_eoi_state(s);
        assert!(states.contains(&eoi));
    }
    // Dead states are reachable nodes too.
    let mut dead = DFAState::at(here.dfa().clone(), here.state_id());
    dead.consume_character('x');
    assert!(dead.is_halted());
    assert!(states.contains(&dead.state_id()));
}

#[test]
fn equal_positions_compare_and_hash_equal() {
    // Two automata compiled apart, at the same state of the same regex.
    let a = start(r"[a-zA-Z_]*").py_advance("is".to_string());
    let b = start(r"[a-zA-Z_]*").py_advance("is".to_string());
    assert_eq!(a, b);
    let mut ha = DefaultHasher::new();
    a.hash(&mut ha);
    let mut hb = DefaultHasher::new();
    b.hash(&mut hb);
    assert_eq!(ha.finish(), hb.finish());
    // Another regex is another position, even at the same state id.
    let x = DFAState::new(Arc::new(Dfa::new("x").unwrap()));
    let y = start("y");
    assert_eq!(x.state_id(), y.state_id());
    assert_ne!(x, y);
}

#[test]
fn builder_shares_compiled_automata() {
    let mut builder = DFABuilder::new();
    let first = builder.dfa_for("[ab]*").unwrap();
    let second = builder.dfa_for("[ab]*").unwrap();
    assert!(Arc::ptr_eq(&first, &second));
}

#[test]
fn malformed_regex_is_an_error() {
    let mut builder = DFABuilder::new();
    match builder.build_dfa("(".to_string()) {
        Err(DfaError::Malformed { regex }) => assert_eq!(regex, "("),
        other => panic!("expected a malformed regex, got {:?}", other),
    }
}

#[test]
fn all_states_of_all_terminals() {
    let terminals = vec![r"\(".to_string(), r"[a-zA-Z_]*".to_string()];
    let all = all_dfa_states(&terminals).unwrap();
    let paren = start(r"\(").states();
    let ident = start(r"[a-zA-Z_]*").states();
    assert_eq!(all.len(), paren.len() + ident.len());
    for (k, s) in paren.iter().enumerate() {
        assert_eq!(all[k].regex(), r"\(");
        assert_eq!(all[k].state_id(), *s);
    }
    for (k, s) in ident.iter().enumerate() {
        assert_eq!(all[paren.len() + k].regex(), r"[a-zA-Z_]*");
        assert_eq!(all[paren.len() + k].state_id(), *s);
    }
    assert!(all_dfa_states(&vec!["(".to_string()]).is_err());
}
