//! The operations that produce files in a server directory, and the plan
//! that turns a list of them into filesystem actions and a new state.

use vstd::prelude::*;
use crate::doc::Doc;
use crate::env::{env_view, substitute_env, substituted};
use crate::state::{path_texts, ServerState};

verus! {

/// A source file and the path, relative to the server directory, that it is
/// copied to.
#[derive(Debug, Clone, PartialEq)]
pub struct FileMapping(pub String, pub String);

/// One operation that produces a file.
#[derive(Debug, PartialEq)]
pub enum LinkTypes {
    /// Copy a file from one path to another.
    Copy(FileMapping),
    /// Write a text, after placeholder substitution, to a path.
    Raw(String, String),
    /// Merge a document into the JSON file at a path.
    MergeJSON(Doc, String),
    /// Merge a document into the YAML file at a path.
    MergeYAML(Doc, String),
}

impl LinkTypes {
    /// The destination, relative to the server directory.
    pub open spec fn path(&self) -> Seq<char> {
        match self {
            LinkTypes::Copy(f) => f.1@,
            LinkTypes::Raw(_, p) => p@,
            LinkTypes::MergeJSON(_, p) => p@,
            LinkTypes::MergeYAML(_, p) => p@,
        }
    }

    /// The destination of the operation, whatever its kind.
    pub fn get_path(&self) -> (r: String)
        ensures
            r@ == self.path(),
    {
        match self {
            LinkTypes::Copy(f) => f.1.clone(),
            LinkTypes::Raw(_, p) => p.clone(),
            LinkTypes::MergeJSON(_, p) => p.clone(),
            LinkTypes::MergeYAML(_, p) => p.clone(),
        }
    }
}

/// `p` has a `..` component starting at index `i`.
pub open spec fn parent_component_at(p: Seq<char>, i: int) -> bool {
    0 <= i && i + 1 < p.len() && p[i] == '.' && p[i + 1] == '.' && (i == 0 || p[i - 1] == '/')
        && (i + 2 == p.len() || p[i + 2] == '/')
}

/// A destination that could lead out of the server directory: empty,
/// absolute, or with a `..` component.
pub open spec fn escapes_root(p: Seq<char>) -> bool {
    p.len() == 0 || p[0] == '/' || exists|i: int| parent_component_at(p, i)
}

/// `rel` under the directory `root`.
pub open spec fn joined(root: Seq<char>, rel: Seq<char>) -> Seq<char> {
    if root.len() == 0 {
        rel
    } else if root[root.len() - 1] == '/' {
        root + rel
    } else {
        root + seq!['/'] + rel
    }
}

/// Tells whether `p` could lead out of the server directory.
pub fn is_escaping(p: &str) -> (r: bool)
    ensures
        r == escapes_root(p@),
{
    let n = p.unicode_len();
    if n == 0 || p.get_char(0) == '/' {
        return true;
    }
    let mut i: usize = 0;
    while i < n - 1
        invariant
            n == p@.len(),
            n > 0,
            forall|m: int| 0 <= m < i ==> !parent_component_at(p@, m),
        decreases n - i,
    {
        if p.get_char(i) == '.' && p.get_char(i + 1) == '.' && (i == 0 || p.get_char(i - 1)
            == '/') && (i + 2 == n || p.get_char(i + 2) == '/') {
            assert(parent_component_at(p@, i as int));
            return true;
        }
        i += 1;
    }
    assert(forall|m: int| !parent_component_at(p@, m)) by {
        assert(forall|m: int| m >= i ==> !parent_component_at(p@, m));
    }
    false
}

/// The path of `rel` under the directory `root`.
pub fn join_path(root: &str, rel: &str) -> (r: String)
    ensures
        r@ == joined(root@, rel@),
{
    let n = root.unicode_len();
    let mut out = String::from_str(root);
    if n > 0 && root.get_char(n - 1) != '/' {
        proof {
            reveal_strlit("/");
        }
        out.append("/");
    }
    out.append(rel);
    out
}

/// What to do at one destination.
#[derive(Debug, PartialEq)]
pub enum LinkAction {
    /// Copy the file at this source path, then clear the copy's read-only flag.
    CopyFrom(String),
    /// Write this text, replacing what the file held.
    Write(String),
    /// Parse the JSON file there, merge this document into it, write it back.
    MergeJson(Doc),
    /// Parse the YAML file there, merge this document into it, write it back.
    MergeYaml(Doc),
}

/// One action, at a destination under the server directory whose parent
/// directories are to be created first.
#[derive(Debug, PartialEq)]
pub struct LinkStep {
    pub dest: String,
    pub action: LinkAction,
}

/// The steps of a run, in the order of the operations, and the state that
/// records their destinations.
#[derive(Debug, PartialEq)]
pub struct LinkPlan {
    pub steps: Vec<LinkStep>,
    pub state: ServerState,
}

/// Why a list of operations was refused.
#[derive(Debug, Clone, PartialEq)]
pub enum LinkError {
    /// This destination could lead out of the server directory.
    UnsafeDestination(String),
}

/// `step` carries out `op` in the directory `root`, with placeholders
/// resolved from `env`.
pub open spec fn step_of(op: LinkTypes, root: Seq<char>, env: Seq<(Seq<char>, Seq<char>)>, step: LinkStep) -> bool {
    &&& step.dest@ == joined(root, op.path())
    &&& match (op, step.action) {
        (LinkTypes::Copy(f), LinkAction::CopyFrom(src)) => src@ == f.0@,
        (LinkTypes::Raw(content, _), LinkAction::Write(text)) => text@ == substituted(content@, env),
        (LinkTypes::MergeJSON(d, _), LinkAction::MergeJson(e)) => e@ == d@,
        (LinkTypes::MergeYAML(d, _), LinkAction::MergeYaml(e)) => e@ == d@,
        _ => false,
    }
}

/// The paths of `s`, each kept at its first occurrence only.
pub open spec fn distinct_paths(s: Seq<Seq<char>>) -> Seq<Seq<char>>
    decreases s.len(),
{
    if s.len() == 0 {
        Seq::empty()
    } else {
        let r = distinct_paths(s.drop_last());
        if r.contains(s.last()) {
            r
        } else {
            r.push(s.last())
        }
    }
}

/// The destinations of `ops` under `root`.
pub open spec fn destinations(ops: Seq<LinkTypes>, root: Seq<char>) -> Seq<Seq<char>> {
    ops.map_values(|op: LinkTypes| joined(root, op.path()))
}

/// Index of the first operation whose destination could leave the server
/// directory, or -1.
pub open spec fn first_escaping(ops: Seq<LinkTypes>) -> int {
    if exists|i: int| 0 <= i < ops.len() && escapes_root(ops[i].path()) {
        choose|i: int|
            0 <= i < ops.len() && escapes_root(ops[i].path()) && forall|m: int|
                0 <= m < i ==> !escapes_root(#[trigger] ops[m].path())
    } else {
        -1
    }
}

/// `distinct_paths(s)` holds the paths of `s`, each once.
pub proof fn lemma_distinct_paths(s: Seq<Seq<char>>)
    ensures
        distinct_paths(s).no_duplicates(),
        forall|p: Seq<char>| #[trigger] distinct_paths(s).contains(p) <==> s.contains(p),
    decreases s.len(),
{
    if s.len() > 0 {
        let init = s.drop_last();
        lemma_distinct_paths(init);
        let r = distinct_paths(init);
        assert forall|p: Seq<char>| #[trigger] distinct_paths(s).contains(p) <==> s.contains(p) by {
            if s.contains(p) && p != s.last() {
                let k = choose|k: int| 0 <= k < s.len() && s[k] == p;
                assert(init[k] == p);
            }
            if init.contains(p) {
                let k = choose|k: int| 0 <= k < init.len() && init[k] == p;
                assert(s[k] == p);
            }
            if !r.contains(s.last()) {
                let out = r.push(s.last());
                assert(out[r.len() as int] == s.last());
                if out.contains(p) && p != s.last() {
                    let k = choose|k: int| 0 <= k < out.len() && out[k] == p;
                    assert(r[k] == p);
                }
                if r.contains(p) {
                    let k = choose|k: int| 0 <= k < r.len() && r[k] == p;
                    assert(out[k] == p);
                }
            }
        }
        if !r.contains(s.last()) {
            let out = r.push(s.last());
            assert forall|i: int, j: int| 0 <= i < out.len() && 0 <= j < out.len() && i != j
                implies out[i] != out[j] by {
                if i == r.len() {
                    assert(r[j] == out[j]);
                } else if j == r.len() {
                    assert(r[i] == out[i]);
                }
            }
        }
    }
}

/// The state a plan records is a set: it holds each destination of the
/// operations, and only those, once.
pub proof fn lemma_plan_state(ops: Seq<LinkTypes>, root: Seq<char>)
    ensures
        distinct_paths(destinations(ops, root)).no_duplicates(),
        forall|p: Seq<char>|
            #[trigger] distinct_paths(destinations(ops, root)).contains(p) <==> exists|i: int|
                0 <= i < ops.len() && p == joined(root, ops[i].path()),
{
    let ds = destinations(ops, root);
    lemma_distinct_paths(ds);
    assert forall|p: Seq<char>|
        #[trigger] distinct_paths(ds).contains(p) <==> exists|i: int|
            0 <= i < ops.len() && p == joined(root, ops[i].path()) by {
        if exists|i: int| 0 <= i < ops.len() && p == joined(root, ops[i].path()) {
            let i = choose|i: int| 0 <= i < ops.len() && p == joined(root, ops[i].path());
            assert(ds[i] == p);
        }
    }
}

/// Adds `p` to `paths` unless it is there already.
fn record_path(paths: &mut Vec<String>, p: String)
    ensures
        path_texts(final(paths)@) == if path_texts(old(paths)@).contains(p@) {
            path_texts(old(paths)@)
        } else {
            path_texts(old(paths)@).push(p@)
        },
{
    let ghost v = path_texts(paths@);
    let mut i: usize = 0;
    while i < paths.len()
        invariant
            v == path_texts(paths@),
            forall|m: int| 0 <= m < i ==> v[m] != p@,
        decreases paths.len() - i,
    {
        if paths[i] == p {
            assert(v[i as int] == p@);
            return;
        }
        i += 1;
    }
    let ghost before = paths@;
    paths.push(p);
    assert(path_texts(paths@) =~= path_texts(before).push(p@));
}

/// Plans a run: checks that every destination stays inside `directory`, and
/// gives, for each operation in order, the action at its destination under
/// `directory` (raw text with its placeholders resolved from `env`), along
/// with the state that records each destination once.
pub fn link_files(directory: &str, files: Vec<LinkTypes>, env: &Vec<(String, String)>) -> (r: Result<LinkPlan, LinkError>)
    ensures
        first_escaping(files@) == -1 <==> r is Ok,
        match r {
            Ok(plan) => {
                &&& plan.steps@.len() == files@.len()
                &&& forall|i: int|
                    0 <= i < files@.len() ==> step_of(
                        files@[i],
                        directory@,
                        env_view(env@),
                        #[trigger] plan.steps@[i],
                    )
                &&& plan.state.view() == distinct_paths(destinations(files@, directory@))
            },
            Err(LinkError::UnsafeDestination(p)) => p@ == files@[first_escaping(files@)].path(),
        },
{
    let ghost ops = files@;
    let n = files.len();
    let mut k: usize = 0;
    while k < n
        invariant
            n == ops.len(),
            ops == files@,
            forall|m: int| 0 <= m < k ==> !escapes_root(#[trigger] ops[m].path()),
        decreases n - k,
    {
        let p = files[k].get_path();
        if is_escaping(p.as_str()) {
            proof {
                let c = first_escaping(ops);
                assert(0 <= k < ops.len() && escapes_root(ops[k as int].path()));
                if c < k {
                    assert(!escapes_root(ops[c].path()));
                }
                if c > k {
                    assert(!escapes_root(ops[k as int].path()));
                }
            }
            return Err(LinkError::UnsafeDestination(p));
        }
        k += 1;
    }
    let mut steps: Vec<LinkStep> = Vec::new();
    let mut paths: Vec<String> = Vec::new();
    let mut rest = files;
    let mut i: usize = 0;
    while i < n
        invariant
            n == ops.len(),
            i <= n,
            rest@ == ops.subrange(i as int, n as int),
            steps@.len() == i,
            forall|m: int|
                0 <= m < i ==> step_of(ops[m], directory@, env_view(env@), #[trigger] steps@[m]),
            path_texts(paths@) == distinct_paths(destinations(ops, directory@).subrange(0, i as int)),
        decreases n - i,
    {
        let op = rest.remove(0);
        assert(op == ops[i as int]);
        let rel = op.get_path();
        let dest = join_path(directory, rel.as_str());
        let action = match op {
            LinkTypes::Copy(f) => LinkAction::CopyFrom(f.0),
            LinkTypes::Raw(content, _) => LinkAction::Write(substitute_env(content.as_str(), env)),
            LinkTypes::MergeJSON(d, _) => LinkAction::MergeJson(d),
            LinkTypes::MergeYAML(d, _) => LinkAction::MergeYaml(d),
        };
        proof {
            let ds = destinations(ops, directory@);
            let taken = ds.subrange(0, i + 1);
            assert(taken.drop_last() =~= ds.subrange(0, i as int));
            assert(taken.last() == dest@);
        }
        record_path(&mut paths, dest.clone());
        steps.push(LinkStep { dest, action });
        i += 1;
        assert(rest@ =~= ops.subrange(i as int, n as int));
    }
    proof {
        assert(destinations(ops, directory@).subrange(0, n as int) =~= destinations(ops, directory@));
        if exists|j: int| 0 <= j < ops.len() && escapes_root(ops[j].path()) {
            let j = choose|j: int| 0 <= j < ops.len() && escapes_root(ops[j].path());
            assert(!escapes_root(ops[j].path()));
        }
    }
    Ok(LinkPlan { steps, state: ServerState { paths } })
}

} // verus!
