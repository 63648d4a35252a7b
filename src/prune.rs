//! Removal of a stale file and of the directories that its removal leaves
//! empty. The decisions are made here; the caller performs each action on the
//! filesystem and reports what it saw.

use vstd::prelude::*;

verus! {

/// The last index below `n` that holds `/`, or -1.
pub open spec fn last_slash(p: Seq<char>, n: int) -> int
    decreases n,
{
    if n <= 0 {
        -1
    } else if p[n - 1] == '/' {
        n - 1
    } else {
        last_slash(p, n - 1)
    }
}

/// The directory that holds `p`, if `p` names one: the text before its last
/// `/`, or the root `/` itself.
pub open spec fn parent_of(p: Seq<char>) -> Option<Seq<char>> {
    let k = last_slash(p, p.len() as int);
    if k < 0 {
        None
    } else if k == 0 {
        if p.len() > 1 {
            Some(seq!['/'])
        } else {
            None
        }
    } else {
        Some(p.subrange(0, k))
    }
}

proof fn lemma_last_slash(p: Seq<char>, n: int)
    requires
        0 <= n <= p.len(),
    ensures
        -1 <= last_slash(p, n) < n,
        last_slash(p, n) >= 0 ==> p[last_slash(p, n)] == '/',
    decreases n,
{
    if n > 0 && p[n - 1] != '/' {
        lemma_last_slash(p, n - 1);
    }
}

/// The directory that holds `p`; it is always shorter than `p`.
pub fn parent_path(p: &str) -> (r: Option<String>)
    ensures
        match r {
            Some(q) => parent_of(p@) == Some(q@) && q@.len() < p@.len(),
            None => parent_of(p@) is None,
        },
{
    let n = p.unicode_len();
    let mut k = n;
    while k > 0 && p.get_char(k - 1) != '/'
        invariant
            k <= n,
            n == p@.len(),
            last_slash(p@, n as int) == last_slash(p@, k as int),
        decreases k,
    {
        k -= 1;
    }
    proof {
        lemma_last_slash(p@, n as int);
        reveal_strlit("/");
    }
    if k == 0 {
        None
    } else if k == 1 {
        if n > 1 {
            Some(String::from_str("/"))
        } else {
            None
        }
    } else {
        Some(String::from_str(p.substring_char(0, k - 1)))
    }
}

/// One step of removing a file and then each ancestor directory that is
/// left empty.
#[derive(Debug, Clone, PartialEq)]
pub enum PruneAction {
    /// Remove the file; a failure is ignored.
    RemoveFile(String),
    /// Count the entries of the directory.
    Inspect(String),
    /// Remove the directory, which was found empty; a failure is ignored.
    RemoveDir(String),
    /// Nothing more to do.
    Done,
}

/// After `p` is removed: inspect its parent, or stop where it has none.
pub open spec fn ascend(p: Seq<char>) -> PruneView {
    match parent_of(p) {
        Some(q) => PruneView::Inspect(q),
        None => PruneView::Done,
    }
}

/// The mathematical value of a `PruneAction`.
pub enum PruneView {
    RemoveFile(Seq<char>),
    Inspect(Seq<char>),
    RemoveDir(Seq<char>),
    Done,
}

impl PruneAction {
    pub open spec fn view(&self) -> PruneView {
        match self {
            PruneAction::RemoveFile(p) => PruneView::RemoveFile(p@),
            PruneAction::Inspect(p) => PruneView::Inspect(p@),
            PruneAction::RemoveDir(p) => PruneView::RemoveDir(p@),
            PruneAction::Done => PruneView::Done,
        }
    }
}

/// What follows `last`, given for an `Inspect` the number of entries found in
/// the directory (`None` where it could not be read).
pub open spec fn prune_step(last: PruneView, entries: Option<usize>) -> PruneView {
    match last {
        PruneView::RemoveFile(p) => ascend(p),
        PruneView::Inspect(d) => if entries == Some(0usize) {
            PruneView::RemoveDir(d)
        } else {
            PruneView::Done
        },
        PruneView::RemoveDir(d) => ascend(d),
        PruneView::Done => PruneView::Done,
    }
}

/// The first action of removing `path` and the directories it leaves empty.
pub fn prune_start(path: &str) -> (r: PruneAction)
    ensures
        r@ == PruneView::RemoveFile(path@),
{
    PruneAction::RemoveFile(String::from_str(path))
}

/// The action that follows `last`. After a file or a directory is removed
/// the walk moves to its parent, if there is one; an inspected directory is
/// removed only when it has no entry, and otherwise the walk stops there.
pub fn prune_next(last: &PruneAction, entries: Option<usize>) -> (r: PruneAction)
    ensures
        r@ == prune_step(last@, entries),
{
    match last {
        PruneAction::RemoveFile(p) => ascend_from(p.as_str()),
        PruneAction::Inspect(d) => {
            if entries == Some(0usize) {
                PruneAction::RemoveDir(d.clone())
            } else {
                PruneAction::Done
            }
        },
        PruneAction::RemoveDir(d) => ascend_from(d.as_str()),
        PruneAction::Done => PruneAction::Done,
    }
}

fn ascend_from(p: &str) -> (r: PruneAction)
    ensures
        r@ == ascend(p@),
{
    match parent_path(p) {
        Some(q) => PruneAction::Inspect(q),
        None => PruneAction::Done,
    }
}

/// A directory is removed only right after it was inspected and found with no
/// entry at all; an unreadable or non-empty directory ends the walk.
pub proof fn lemma_prune_removes_only_empty(last: PruneView, entries: Option<usize>)
    ensures
        prune_step(last, entries) matches PruneView::RemoveDir(d) ==> last == PruneView::Inspect(d)
            && entries == Some(0usize),
        last is Inspect && entries != Some(0usize) ==> prune_step(last, entries) == PruneView::Done,
{
}

/// Each directory the walk inspects is shorter than the path it came from,
/// so the walk ends.
pub proof fn lemma_prune_ascends(p: Seq<char>)
    ensures
        ascend(p) matches PruneView::Inspect(q) ==> q.len() < p.len(),
{
    lemma_last_slash(p, p.len() as int);
}

} // verus!
