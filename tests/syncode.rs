use rust_syncode::{consume_prefix, Dfa};

#[test]
fn whole_name_is_consumed() {
    let dfa = Dfa::new(r"[a-zA-Z_]\w*").unwrap();
    let result = consume_prefix(&dfa, "this_is_a_python_name");
    assert_eq!(result, (true, Some(String::from(""))));
}

#[test]
fn rest_after_the_name() {
    let dfa = Dfa::new(r"[a-zA-Z_]\w*").unwrap();
    let result = consume_prefix(&dfa, "this_is_a_python_name followed_by_other_stuff");
    assert_eq!(result, (true, Some(String::from(" followed_by_other_stuff"))));
}

#[test]
fn rest_from_the_quote() {
    let dfa = Dfa::new(r"[a-zA-Z_]\w*").unwrap();
    let result = consume_prefix(&dfa, "this_is't_a_python_name");
    assert_eq!(result, (true, Some(String::from("'t_a_python_name"))));
}

#[test]
fn rejected_at_once() {
    let dfa = Dfa::new(r"[a-zA-Z_]\w*").unwrap();
    let result = consume_prefix(&dfa, "'tai'nt_a_python_name");
    assert_eq!(result, (false, None));
}
