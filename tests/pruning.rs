use mineflake::prune::{parent_path, prune_next, prune_start, PruneAction};

/// Runs the walk against a model of a filesystem given as a list of paths of
/// files and directories, and returns what was removed.
fn run(path: &str, entries: &mut Vec<String>) -> Vec<String> {
    let mut removed = Vec::new();
    let mut action = prune_start(path);
    let mut seen = None;
    loop {
        match &action {
            PruneAction::RemoveFile(p) | PruneAction::RemoveDir(p) => {
                entries.retain(|e| e != p);
                removed.push(p.clone());
                seen = None;
            }
            PruneAction::Inspect(d) => {
                let prefix = if d.ends_with('/') { d.clone() } else { format!("{}/", d) };
                let count = entries
                    .iter()
                    .filter(|e| e.starts_with(&prefix) && !e[prefix.len()..].contains('/'))
                    .count();
                seen = Some(count);
            }
            PruneAction::Done => break,
        }
        action = prune_next(&action, seen);
    }
    removed
}

#[test]
fn pruning_removes_emptied_parents_up_to_a_non_empty_one() {
    let mut fs: Vec<String> = ["/srv", "/srv/keep.txt", "/srv/a", "/srv/a/b", "/srv/a/b/c", "/srv/a/b/c/f.txt"]
        .iter()
        .map(|s| String::from(*s))
        .collect();
    let removed = run("/srv/a/b/c/f.txt", &mut fs);
    assert_eq!(removed, vec!["/srv/a/b/c/f.txt", "/srv/a/b/c", "/srv/a/b", "/srv/a"]);
    assert_eq!(fs, vec![String::from("/srv"), String::from("/srv/keep.txt")]);
}

#[test]
fn pruning_stops_at_a_directory_with_a_sibling() {
    let mut fs: Vec<String> = ["/d", "/d/x", "/d/y"].iter().map(|s| String::from(*s)).collect();
    let removed = run("/d/x", &mut fs);
    assert_eq!(removed, vec!["/d/x"]);
    assert_eq!(fs, vec![String::from("/d"), String::from("/d/y")]);
}

#[test]
fn unreadable_directory_ends_the_walk() {
    let next = prune_next(&PruneAction::Inspect(String::from("/a")), None);
    assert_eq!(next, PruneAction::Done);
    let next = prune_next(&PruneAction::Inspect(String::from("/a")), Some(0));
    assert_eq!(next, PruneAction::RemoveDir(String::from("/a")));
    let next = prune_next(&PruneAction::RemoveDir(String::from("/a")), None);
    assert_eq!(next, PruneAction::Inspect(String::from("/")));
    let next = prune_next(&PruneAction::RemoveDir(String::from("/")), None);
    assert_eq!(next, PruneAction::Done);
}

#[test]
fn parents() {
    assert_eq!(parent_path("/a/b/c"), Some(String::from("/a/b")));
    assert_eq!(parent_path("/a"), Some(String::from("/")));
    assert_eq!(parent_path("/"), None);
    assert_eq!(parent_path("a/b"), Some(String::from("a")));
    assert_eq!(parent_path("a"), None);
    assert_eq!(parent_path(""), None);
}
