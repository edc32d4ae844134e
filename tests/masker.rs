use rust_syncode::{accept_sequences, store_size, DFAState, Masker, StoreError};

fn state(matcher: &mut Masker, regex: &str) -> DFAState {
    matcher.dfa_builder.build_dfa(regex.to_string()).unwrap()
}

#[test]
fn test_dmatch_case1() {
    let candidate_string = "abba";
    let mut matcher = Masker::new();
    let starting_state = state(&mut matcher, r"[ab]*cd");
    let accept_sequence: Vec<&str> = Vec::new();
    assert!(matcher.dmatch(candidate_string, &starting_state, accept_sequence).unwrap());
}

#[test]
fn test_dmatch_case2() {
    // False in strict mode, true in overapproximation mode (grammar mask).
    let candidate_string = "abbacdd";
    let mut matcher = Masker::new();
    let starting_state = state(&mut matcher, r"[ab]*");
    let accept_sequence: Vec<&str> = Vec::new();
    let mut matcher = Masker::new();
    assert!(matcher.dmatch(candidate_string, &starting_state, accept_sequence).unwrap());
}

#[test]
fn test_dmatch_case3() {
    let candidate_string = "_prime():";
    let mut matcher = Masker::new();
    let mut starting_state = state(&mut matcher, r"[a-zA-Z_]*");
    starting_state.advance("is");
    let accept_sequence = vec![r"\(", r"\)"];
    assert!(matcher.dmatch(candidate_string, &starting_state, accept_sequence).unwrap());
}

#[test]
fn test_dmatch_case3a() {
    // Consuming next terminal leaves residual string.
    let candidate_string = "abbacde";
    let mut matcher = Masker::new();
    let mut starting_state = state(&mut matcher, r"[ab]*");
    starting_state.advance("ab");
    let accept_sequence = vec![r"c"];
    let mut matcher = Masker::new();
    assert!(matcher.dmatch(candidate_string, &starting_state, accept_sequence).unwrap());
}

#[test]
fn test_dmatch_supports_unicode_fails() {
    let candidate_string = "³Ġt";
    let accept_sequence = vec![];
    let mut matcher = Masker::new();
    let starting_state = state(&mut matcher, r"[a-zA-Z_]*");
    assert!(!matcher.dmatch(candidate_string, &starting_state, accept_sequence).unwrap());
}

#[test]
fn test_dmatch_supports_unicode_case3() {
    let candidate_string = "iÃ³";
    let accept_sequence = vec![r"\(", r"\)"];
    let mut matcher = Masker::new();
    let starting_state = state(&mut matcher, r"[a-zA-Z_]*");
    assert!(!matcher.dmatch(candidate_string, &starting_state, accept_sequence).unwrap());
}

#[test]
fn test_dmatch_fails_case2() {
    let candidate_string = "3not an id";
    let accept_sequence = vec![];
    let mut matcher = Masker::new();
    let starting_state = state(&mut matcher, r"[a-zA-Z_]*");
    assert!(!matcher.dmatch(candidate_string, &starting_state, accept_sequence).unwrap());
}

#[test]
fn test_dmatch_accepts_matching_input() {
    let candidate_string = "indeed";
    let accept_sequence = vec![r"\(", r"\)"];
    let mut matcher = Masker::new();
    let starting_state = state(&mut matcher, r"[a-zA-Z_]*");
    assert!(matcher.dmatch(candidate_string, &starting_state, accept_sequence).unwrap());
}

#[test]
fn test_dmatch_fails_case3() {
    let candidate_string = "3not an id";
    let accept_sequence = vec![r"\(", r"\)"];
    let mut matcher = Masker::new();
    let starting_state = state(&mut matcher, r"[a-zA-Z_]*");
    assert!(!matcher.dmatch(candidate_string, &starting_state, accept_sequence).unwrap());
}

#[test]
fn test_dfa_mask_name() {
    let vocabulary = vec!["_prime():", ":#", "¡", " hi", "indeed", "n0pe"];
    let terminal_sequence = vec![r"\(", r"\)"];
    let mut matcher = Masker::new();
    let mut starting_state = state(&mut matcher, r"[a-zA-Z_]*");
    starting_state.advance("is");
    assert_eq!(
        matcher.dfa_mask(&starting_state, &terminal_sequence, &vocabulary).unwrap(),
        vec![true, false, false, false, true, false],
    );
}

#[test]
fn test_dfa_mask_store() {
    let model_vocabulary = vec!["_prime():", ":#", "'''", " hi", "indeed", "n0pe"];
    let lexical_terminals = vec![r"\(", r"\)", r"[a-zA-Z_]*"];
    let mut matcher = Masker::new();
    let store = matcher.dfa_mask_store(lexical_terminals, model_vocabulary, 2).unwrap();
    let candidate_string = "is";
    let mut starting_state = state(&mut matcher, r"[a-zA-Z_]*");
    starting_state.advance(candidate_string);
    assert_eq!(
        store.get(&starting_state, &vec![r"\(", r"\)"]).unwrap(),
        &vec![true, false, false, false, true, false],
    );
}

#[test]
fn quote_is_rejected_before_any_character() {
    let mut matcher = Masker::new();
    let starting_state = state(&mut matcher, r"[a-zA-Z_]*");
    assert!(!matcher.dmatch("'not an id", &starting_state, vec![r"\(", r"\)"]).unwrap());
}

#[test]
fn mask_with_spec_vocabulary() {
    let vocabulary = vec!["_prime():", ":#", "'''", " hi", "indeed", "n0pe"];
    let mut matcher = Masker::new();
    let mut starting_state = state(&mut matcher, r"[a-zA-Z_]*");
    starting_state.advance("is");
    let terminal_sequence = vec![r"\(", r"\)"];
    let first = matcher.dfa_mask(&starting_state, &terminal_sequence, &vocabulary).unwrap();
    let second = matcher.dfa_mask(&starting_state, &terminal_sequence, &vocabulary).unwrap();
    assert_eq!(first, vec![true, false, false, false, true, false]);
    assert_eq!(first, second);
    for (i, token) in vocabulary.iter().enumerate() {
        let one = matcher.dmatch(token, &starting_state, terminal_sequence.clone()).unwrap();
        assert_eq!(first[i], one);
    }
}

#[test]
fn accepted_strings_match_without_lookahead() {
    let mut matcher = Masker::new();
    let starting_state = state(&mut matcher, r"[ab]*cd");
    for s in ["cd", "abcd", "abbacd"] {
        assert!(matcher.dmatch(s, &starting_state, vec![]).unwrap());
    }
    // Live prefixes that are not yet accepted.
    for s in ["", "a", "abc"] {
        assert!(matcher.dmatch(s, &starting_state, vec![]).unwrap());
    }
}

#[test]
fn dead_strings_without_a_matched_prefix_fail() {
    let mut matcher = Masker::new();
    let starting_state = state(&mut matcher, r"[ab]*cd");
    for s in ["x", "abx", "acx"] {
        assert!(!matcher.dmatch(s, &starting_state, vec![]).unwrap());
    }
}

#[test]
fn live_strings_match_whatever_the_lookahead() {
    let mut matcher = Masker::new();
    let starting_state = state(&mut matcher, r"[ab]*cd");
    assert!(matcher.dmatch("abba", &starting_state, vec![r"x", r"y"]).unwrap());
    assert!(matcher.dmatch("abba", &starting_state, vec![r"\("]).unwrap());
}

#[test]
fn malformed_lookahead_is_an_error() {
    let mut matcher = Masker::new();
    let starting_state = state(&mut matcher, r"[ab]*");
    assert!(matcher.dmatch("ab", &starting_state, vec!["("]).is_err());
    assert!(matcher.dfa_mask_store(vec!["(", "a"], vec!["a"], 1).is_err());
}

#[test]
fn accept_sequences_in_product_order() {
    let terminals = vec!["a".to_string(), "b".to_string()];
    let pairs = accept_sequences(&terminals, 2);
    let expected: Vec<Vec<String>> = vec![
        vec!["a".to_string(), "a".to_string()],
        vec!["a".to_string(), "b".to_string()],
        vec!["b".to_string(), "a".to_string()],
        vec!["b".to_string(), "b".to_string()],
    ];
    assert_eq!(pairs, expected);
    assert_eq!(accept_sequences(&terminals, 0), vec![Vec::<String>::new()]);
}

#[test]
fn store_size_is_states_times_sequences() {
    let lexical_terminals = vec![r"\(", r"\)", r"[a-zA-Z_]*"];
    let mut matcher = Masker::new();
    let store = matcher.dfa_mask_store(lexical_terminals.clone(), vec!["a"], 2).unwrap();
    let mut n_states = 0;
    for t in &lexical_terminals {
        n_states += state(&mut matcher, t).states().len();
    }
    assert_eq!(store.len(), n_states * 9);
    let mut ident = state(&mut matcher, r"[a-zA-Z_]*");
    ident.advance("is");
    assert!(store.get(&ident, &vec![r"\("]).is_none());
}

#[test]
fn store_size_counts_bits() {
    // 5 states, 3 terminals in pairs, 6 tokens.
    assert_eq!(store_size(5, 3, 2, 6), 5 * 9 * 6);
    assert_eq!(store_size(5, 3, 0, 6), 30);
    assert_eq!(store_size(0, 3, 2, 6), 0);
    assert_eq!(store_size(usize::MAX, 2, 1, 1), usize::MAX);
    assert_eq!(store_size(2, 1 << 40, 2, 1), usize::MAX);
}

#[test]
fn store_within_budget() {
    let lexical_terminals = vec![r"\(", r"\)", r"[a-zA-Z_]*"];
    let model_vocabulary = vec!["_prime():", ":#", "'''", " hi", "indeed", "n0pe"];
    let mut matcher = Masker::new();
    let store = matcher.dfa_mask_store(lexical_terminals.clone(), model_vocabulary.clone(), 2).unwrap();
    let bits = store.len() * model_vocabulary.len();
    match matcher.dfa_mask_store_within(lexical_terminals.clone(), model_vocabulary.clone(), 2, bits - 1) {
        Err(StoreError::TooLarge { bits: b }) => assert_eq!(b, bits),
        other => panic!("expected the budget to be exceeded, got {:?}", other.map(|s| s.len())),
    }
    let within = matcher.dfa_mask_store_within(lexical_terminals, model_vocabulary, 2, bits).unwrap();
    assert_eq!(within.len(), store.len());
    match matcher.dfa_mask_store_within(vec!["("], vec!["a"], 1, 1000) {
        Err(StoreError::Dfa(_)) => {},
        other => panic!("expected a malformed regex, got {:?}", other.map(|s| s.len())),
    }
}
