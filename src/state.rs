//! The record of paths written during a run, and the difference between two
//! such records.

use vstd::prelude::*;

verus! {

/// The paths that one run wrote, as they stand on disk.
#[derive(Debug, Clone, PartialEq)]
pub struct ServerState {
    pub paths: Vec<String>,
}

/// The text of each path in `paths`.
pub open spec fn path_texts(paths: Seq<String>) -> Seq<Seq<char>> {
    paths.map_values(|p: String| p@)
}

impl ServerState {
    pub open spec fn view(&self) -> Seq<Seq<char>> {
        path_texts(self.paths@)
    }

    /// A state is a set: no path is recorded twice.
    pub open spec fn wf(&self) -> bool {
        self.view().no_duplicates()
    }
}

/// The paths of `prev`, in their order there, that `curr` does not hold.
pub open spec fn stale_paths(curr: Seq<Seq<char>>, prev: Seq<Seq<char>>) -> Seq<Seq<char>>
    decreases prev.len(),
{
    if prev.len() == 0 {
        Seq::empty()
    } else {
        let rest = stale_paths(curr, prev.drop_last());
        if curr.contains(prev.last()) {
            rest
        } else {
            rest.push(prev.last())
        }
    }
}

/// Lists the paths of `prev_state` that `curr_state` does not hold, in the
/// order of `prev_state`: the files a new run no longer produces.
pub fn diff_states(curr_state: &ServerState, prev_state: &ServerState) -> (out: Vec<String>)
    ensures
        path_texts(out@) == stale_paths(curr_state.view(), prev_state.view()),
{
    let ghost curr = curr_state.view();
    let ghost prev = prev_state.view();
    let mut out: Vec<String> = Vec::new();
    let mut i: usize = 0;
    while i < prev_state.paths.len()
        invariant
            i <= prev_state.paths.len(),
            curr == curr_state.view(),
            prev == prev_state.view(),
            path_texts(out@) == stale_paths(curr, prev.take(i as int)),
        decreases prev_state.paths.len() - i,
    {
        let prev_path = &prev_state.paths[i];
        let mut collision = false;
        let mut j: usize = 0;
        while j < curr_state.paths.len()
            invariant
                j <= curr_state.paths.len(),
                curr == curr_state.view(),
                i < prev.len(),
                prev_path@ == prev[i as int],
                collision == exists|k: int| 0 <= k < j && curr[k] == prev_path@,
            decreases curr_state.paths.len() - j,
        {
            if *prev_path == curr_state.paths[j] {
                collision = true;
            }
            proof {
                assert(curr[j as int] == curr_state.paths@[j as int]@);
            }
            j += 1;
        }
        proof {
            assert(prev.take(i as int + 1).drop_last() =~= prev.take(i as int));
            if curr.contains(prev_path@) {
                let k = choose|k: int| 0 <= k < curr.len() && curr[k] == prev_path@;
                assert(curr[k] == curr_state.paths@[k]@);
            }
        }
        if !collision {
            let ghost before = out@;
            out.push(prev_path.clone());
            proof {
                assert(path_texts(out@) =~= path_texts(before).push(prev_path@));
            }
        }
        i += 1;
    }
    proof {
        assert(prev.take(prev.len() as int) =~= prev);
    }
    out
}

/// Every path of `stale_paths(curr, prev)` is in `prev` and not in `curr`, and
/// every such path of `prev` is in it.
pub proof fn lemma_stale_paths_contains(curr: Seq<Seq<char>>, prev: Seq<Seq<char>>, p: Seq<char>)
    ensures
        stale_paths(curr, prev).contains(p) <==> (prev.contains(p) && !curr.contains(p)),
    decreases prev.len(),
{
    if prev.len() > 0 {
        let init = prev.drop_last();
        lemma_stale_paths_contains(curr, init, p);
        let rest = stale_paths(curr, init);
        if prev.contains(p) && p != prev.last() {
            let k = choose|k: int| 0 <= k < prev.len() && prev[k] == p;
            assert(init[k] == p);
        }
        if init.contains(p) {
            let k = choose|k: int| 0 <= k < init.len() && init[k] == p;
            assert(prev[k] == p);
        }
        if !curr.contains(prev.last()) {
            assert(rest.push(prev.last()).last() == prev.last());
            if rest.push(prev.last()).contains(p) && p != prev.last() {
                let k = choose|k: int| 0 <= k < rest.len() + 1 && rest.push(prev.last())[k] == p;
                assert(rest[k] == p);
            }
            if rest.contains(p) {
                let k = choose|k: int| 0 <= k < rest.len() && rest[k] == p;
                assert(rest.push(prev.last())[k] == p);
            }
        }
    }
}

/// Without repeated paths in `prev`, no path is listed twice.
pub proof fn lemma_stale_paths_no_duplicates(curr: Seq<Seq<char>>, prev: Seq<Seq<char>>)
    requires
        prev.no_duplicates(),
    ensures
        stale_paths(curr, prev).no_duplicates(),
    decreases prev.len(),
{
    if prev.len() > 0 {
        let init = prev.drop_last();
        lemma_stale_paths_no_duplicates(curr, init);
        lemma_stale_paths_contains(curr, init, prev.last());
        if init.contains(prev.last()) {
            let k = choose|k: int| 0 <= k < init.len() && init[k] == prev.last();
            assert(prev[k] == prev[prev.len() - 1]);
        }
        let rest = stale_paths(curr, init);
        if !curr.contains(prev.last()) {
            let out = rest.push(prev.last());
            assert forall|i: int, j: int| 0 <= i < out.len() && 0 <= j < out.len() && i != j
                implies out[i] != out[j] by {
                if i == rest.len() {
                    assert(rest[j] == out[j]);
                } else if j == rest.len() {
                    assert(rest[i] == out[i]);
                }
            }
        }
    }
}

/// Nothing is stale when every path of `prev` is still in `curr`.
pub proof fn lemma_stale_paths_of_subset(curr: Seq<Seq<char>>, prev: Seq<Seq<char>>)
    requires
        forall|i: int| 0 <= i < prev.len() ==> curr.contains(#[trigger] prev[i]),
    ensures
        stale_paths(curr, prev) == Seq::<Seq<char>>::empty(),
    decreases prev.len(),
{
    if prev.len() > 0 {
        let init = prev.drop_last();
        assert forall|i: int| 0 <= i < init.len() implies curr.contains(#[trigger] init[i]) by {
            assert(init[i] == prev[i]);
        }
        lemma_stale_paths_of_subset(curr, init);
        assert(curr.contains(prev[prev.len() - 1]));
    }
}

/// Diffing a state against itself removes nothing.
pub proof fn lemma_diff_with_itself(a: ServerState)
    ensures
        stale_paths(a.view(), a.view()) == Seq::<Seq<char>>::empty(),
{
    let s = a.view();
    assert forall|i: int| 0 <= i < s.len() implies s.contains(#[trigger] s[i]) by {}
    lemma_stale_paths_of_subset(s, s);
}

/// Against an empty previous state nothing is stale; against an empty
/// current state every previous path is.
pub proof fn lemma_diff_with_empty(a: ServerState)
    ensures
        stale_paths(a.view(), Seq::empty()) == Seq::<Seq<char>>::empty(),
        stale_paths(Seq::empty(), a.view()) == a.view(),
{
    lemma_stale_paths_of_nothing_current(a.view());
}

/// With an empty current state, the stale paths are `prev` itself.
pub proof fn lemma_stale_paths_of_nothing_current(prev: Seq<Seq<char>>)
    ensures
        stale_paths(Seq::empty(), prev) == prev,
    decreases prev.len(),
{
    if prev.len() > 0 {
        lemma_stale_paths_of_nothing_current(prev.drop_last());
        assert(prev.drop_last().push(prev.last()) =~= prev);
    }
}

/// The diff is exactly the set difference `prev \ curr`: each listed path is
/// in `prev_state` and not in `curr_state`, each such path is listed, and none
/// is listed twice.
pub proof fn lemma_diff_is_set_difference(curr_state: ServerState, prev_state: ServerState)
    requires
        prev_state.wf(),
    ensures
        forall|p: Seq<char>|
            #[trigger] stale_paths(curr_state.view(), prev_state.view()).contains(p) <==> (
            prev_state.view().contains(p) && !curr_state.view().contains(p)),
        stale_paths(curr_state.view(), prev_state.view()).no_duplicates(),
{
    assert forall|p: Seq<char>|
        #[trigger] stale_paths(curr_state.view(), prev_state.view()).contains(p) <==> (
        prev_state.view().contains(p) && !curr_state.view().contains(p)) by {
        lemma_stale_paths_contains(curr_state.view(), prev_state.view(), p);
    }
    lemma_stale_paths_no_duplicates(curr_state.view(), prev_state.view());
}

} // verus!
