use mineflake::doc::Doc;
use mineflake::linker::{is_escaping, join_path, link_files, FileMapping, LinkAction, LinkError, LinkTypes};

fn env(pairs: &[(&str, &str)]) -> Vec<(String, String)> {
    pairs.iter().map(|(k, v)| (String::from(*k), String::from(*v))).collect()
}

#[test]
fn get_path_of_each_kind() {
    let ops = vec![
        LinkTypes::Copy(FileMapping(String::from("/src/a.jar"), String::from("plugins/a.jar"))),
        LinkTypes::Raw(String::from("x"), String::from("eula.txt")),
        LinkTypes::MergeJSON(Doc::Null, String::from("ops.json")),
        LinkTypes::MergeYAML(Doc::Null, String::from("bukkit.yml")),
    ];
    let paths: Vec<String> = ops.iter().map(|o| o.get_path()).collect();
    assert_eq!(paths, vec!["plugins/a.jar", "eula.txt", "ops.json", "bukkit.yml"]);
}

#[test]
fn raw_content_gets_environment_values() {
    let ops = vec![LinkTypes::Raw(String::from("user={{USER}}"), String::from("conf/user.txt"))];
    let plan = link_files("/srv", ops, &env(&[("USER", "alice")])).unwrap();
    assert_eq!(plan.steps.len(), 1);
    assert_eq!(plan.steps[0].dest, "/srv/conf/user.txt");
    assert_eq!(plan.steps[0].action, LinkAction::Write(String::from("user=alice")));
}

#[test]
fn plan_keeps_order_and_records_each_destination_once() {
    let ops = vec![
        LinkTypes::Copy(FileMapping(String::from("/store/server.properties"), String::from("server.properties"))),
        LinkTypes::MergeJSON(Doc::Bool(true), String::from("server.properties")),
        LinkTypes::MergeYAML(Doc::Null, String::from("plugins/p/config.yml")),
    ];
    let plan = link_files("/srv/", ops, &env(&[])).unwrap();
    assert_eq!(plan.steps[0].action, LinkAction::CopyFrom(String::from("/store/server.properties")));
    assert_eq!(plan.steps[1].action, LinkAction::MergeJson(Doc::Bool(true)));
    assert_eq!(plan.steps[2].action, LinkAction::MergeYaml(Doc::Null));
    assert_eq!(plan.steps[2].dest, "/srv/plugins/p/config.yml");
    assert_eq!(
        plan.state.paths,
        vec![String::from("/srv/server.properties"), String::from("/srv/plugins/p/config.yml")]
    );
}

#[test]
fn copy_step_names_its_source() {
    let ops = vec![LinkTypes::Copy(FileMapping(String::from("ro.txt"), String::from("out/ro.txt")))];
    let plan = link_files("dir", ops, &env(&[])).unwrap();
    assert_eq!(plan.steps[0].dest, "dir/out/ro.txt");
    assert_eq!(plan.steps[0].action, LinkAction::CopyFrom(String::from("ro.txt")));
}

#[test]
fn escaping_destination_is_refused() {
    let ops = vec![
        LinkTypes::Raw(String::from("a"), String::from("ok.txt")),
        LinkTypes::Raw(String::from("b"), String::from("x/../../etc/passwd")),
        LinkTypes::Raw(String::from("c"), String::from("/abs")),
    ];
    let r = link_files("/srv", ops, &env(&[]));
    assert_eq!(r, Err(LinkError::UnsafeDestination(String::from("x/../../etc/passwd"))));
}

#[test]
fn escaping_paths() {
    assert!(is_escaping(""));
    assert!(is_escaping("/etc"));
    assert!(is_escaping(".."));
    assert!(is_escaping("a/.."));
    assert!(!is_escaping("a/..b/c"));
    assert!(!is_escaping("a..b"));
    assert!(!is_escaping("plugins/x.jar"));
}

#[test]
fn join_paths() {
    assert_eq!(join_path("/srv", "a/b"), "/srv/a/b");
    assert_eq!(join_path("/srv/", "a"), "/srv/a");
    assert_eq!(join_path("", "a"), "a");
}
