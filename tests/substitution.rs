use mineflake::env::substitute_env;

fn env(pairs: &[(&str, &str)]) -> Vec<(String, String)> {
    pairs.iter().map(|(k, v)| (String::from(*k), String::from(*v))).collect()
}

#[test]
fn unset_placeholder_stays_verbatim() {
    assert_eq!(substitute_env("{{UNSET_XYZ}}", &env(&[])), "{{UNSET_XYZ}}");
    assert_eq!(substitute_env("{{UNSET_XYZ}}", &env(&[("USER", "alice")])), "{{UNSET_XYZ}}");
}

#[test]
fn single_placeholder_is_replaced() {
    assert_eq!(substitute_env("user={{USER}}", &env(&[("USER", "alice")])), "user=alice");
}

#[test]
fn repeated_and_many_placeholders() {
    let e = env(&[("A", "1"), ("B", "two")]);
    assert_eq!(substitute_env("{{A}}-{{B}}-{{A}}{{C}}", &e), "1-two-1{{C}}");
}

#[test]
fn no_placeholder_leaves_text() {
    assert_eq!(substitute_env("plain { text }}", &env(&[("A", "1")])), "plain { text }}");
    assert_eq!(substitute_env("", &env(&[("A", "1")])), "");
}

#[test]
fn substitution_is_not_recursive() {
    let e = env(&[("A", "{{B}}"), ("B", "x")]);
    assert_eq!(substitute_env("{{A}}", &e), "{{B}}");
}

#[test]
fn first_binding_wins() {
    let e = env(&[("A", "first"), ("A", "second")]);
    assert_eq!(substitute_env("{{A}}", &e), "first");
}

#[test]
fn extra_brace_before_placeholder() {
    let e = env(&[("A", "1")]);
    assert_eq!(substitute_env("{{{A}}", &e), "{1");
    assert_eq!(substitute_env("{{A", &e), "{{A");
}
