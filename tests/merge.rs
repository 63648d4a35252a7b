use mineflake::doc::{merge_json, Doc};

fn num(n: &str) -> Doc {
    Doc::Number(String::from(n))
}

fn obj(entries: Vec<(&str, Doc)>) -> Doc {
    Doc::Object(entries.into_iter().map(|(k, v)| (String::from(k), v)).collect())
}

#[test]
fn merge_preserves_untouched_keys() {
    let mut dest = obj(vec![("a", num("0")), ("b", num("2"))]);
    merge_json(&mut dest, obj(vec![("a", num("1"))]));
    assert_eq!(dest, obj(vec![("a", num("1")), ("b", num("2"))]));
}

#[test]
fn merge_twice_equals_merge_once() {
    let fragment = || {
        obj(vec![
            ("server", obj(vec![("port", num("25565")), ("motd", Doc::Str(String::from("hi")))])),
            ("list", Doc::Array(vec![num("1"), num("2")])),
            ("new", Doc::Bool(true)),
        ])
    };
    let dest = || {
        obj(vec![
            ("server", obj(vec![("port", num("1")), ("keep", Doc::Null)])),
            ("list", Doc::Array(vec![num("9")])),
            ("other", Doc::Str(String::from("x"))),
        ])
    };
    let mut once = dest();
    merge_json(&mut once, fragment());
    let mut twice = dest();
    merge_json(&mut twice, fragment());
    merge_json(&mut twice, fragment());
    assert_eq!(once, twice);
    assert_eq!(
        once,
        obj(vec![
            ("server", obj(vec![("port", num("25565")), ("keep", Doc::Null), ("motd", Doc::Str(String::from("hi")))])),
            ("list", Doc::Array(vec![num("1"), num("2")])),
            ("other", Doc::Str(String::from("x"))),
            ("new", Doc::Bool(true)),
        ])
    );
}

#[test]
fn merge_object_over_scalar_replaces() {
    let mut dest = obj(vec![("a", num("3"))]);
    merge_json(&mut dest, obj(vec![("a", obj(vec![("b", Doc::Null)]))]));
    assert_eq!(dest, obj(vec![("a", obj(vec![("b", Doc::Null)]))]));
}

#[test]
fn merge_scalar_over_object_replaces() {
    let mut dest = obj(vec![("a", obj(vec![("b", Doc::Null)]))]);
    merge_json(&mut dest, obj(vec![("a", Doc::Bool(false))]));
    assert_eq!(dest, obj(vec![("a", Doc::Bool(false))]));
}

#[test]
fn merge_array_replaces_array() {
    let mut dest = Doc::Array(vec![num("1"), num("2"), num("3")]);
    merge_json(&mut dest, Doc::Array(vec![num("4")]));
    assert_eq!(dest, Doc::Array(vec![num("4")]));
}

#[test]
fn merge_into_empty_object_inserts() {
    let mut dest = obj(vec![]);
    merge_json(&mut dest, obj(vec![("k", Doc::Str(String::from("v")))]));
    assert_eq!(dest, obj(vec![("k", Doc::Str(String::from("v")))]));
}
