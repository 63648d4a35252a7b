use mineflake::state::{diff_states, ServerState};

fn state(paths: &[&str]) -> ServerState {
    ServerState {
        paths: paths.iter().map(|p| String::from(*p)).collect(),
    }
}

#[test]
fn test_diff_states() {
    let curr_state = ServerState {
        paths: vec![
            String::from("a"),
            String::from("b"),
            String::from("c"),
            String::from("d"),
        ],
    };
    let prev_state = ServerState {
        paths: vec![
            String::from("a"),
            String::from("b"),
            String::from("c"),
            String::from("d"),
            String::from("e"),
            String::from("f"),
        ],
    };
    let diff = diff_states(&curr_state, &prev_state);
    assert_eq!(diff, vec![String::from("e"), String::from("f")]);
}

#[test]
fn test_diff_states_empty() {
    let curr_state = ServerState {
        paths: vec![
            String::from("a"),
            String::from("b"),
            String::from("c"),
            String::from("d"),
        ],
    };
    let prev_state = ServerState {
        paths: vec![
            String::from("a"),
            String::from("b"),
            String::from("c"),
            String::from("d"),
        ],
    };
    let diff = diff_states(&curr_state, &prev_state);
    assert_eq!(diff, Vec::<String>::new());
}

#[test]
fn diff_of_a_state_with_itself_is_empty() {
    let a = state(&["/srv/x", "/srv/y/z"]);
    assert!(diff_states(&a, &a).is_empty());
}

#[test]
fn diff_against_empty_previous_is_empty() {
    let a = state(&["a", "b"]);
    assert!(diff_states(&a, &state(&[])).is_empty());
}

#[test]
fn diff_against_empty_current_is_previous() {
    let a = state(&["a", "b", "c"]);
    assert_eq!(diff_states(&state(&[]), &a), a.paths);
}

#[test]
fn diff_of_two_empty_states_is_empty() {
    assert!(diff_states(&state(&[]), &state(&[])).is_empty());
}

#[test]
fn diff_keeps_previous_order_and_exact_text() {
    let curr = state(&["b", "A", "d/"]);
    let prev = state(&["d", "a", "b", "c"]);
    assert_eq!(
        diff_states(&curr, &prev),
        vec![String::from("d"), String::from("a"), String::from("c")]
    );
}
