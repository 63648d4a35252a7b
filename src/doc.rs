//! Structured documents shared by JSON and YAML content, and the deep merge
//! of one document into another.

use vstd::prelude::*;

verus! {

broadcast use vstd::std_specs::vec::group_vec_axioms, vstd::seq::group_seq_axioms;

/// A tree of maps, sequences and scalars. A number is kept as its text, so
/// that no precision is lost between parsing and writing.
#[derive(Debug, PartialEq)]
pub enum Doc {
    Null,
    Bool(bool),
    Number(String),
    Str(String),
    Array(Vec<Doc>),
    Object(Vec<(String, Doc)>),
}

/// The mathematical value of a `Doc`.
pub enum DocV {
    Null,
    Bool(bool),
    Number(Seq<char>),
    Str(Seq<char>),
    Array(Seq<DocV>),
    Object(Seq<(Seq<char>, DocV)>),
}

impl Doc {
    pub open spec fn view(&self) -> DocV
        decreases self,
    {
        match self {
            Doc::Null => DocV::Null,
            Doc::Bool(b) => DocV::Bool(*b),
            Doc::Number(n) => DocV::Number(n@),
            Doc::Str(s) => DocV::Str(s@),
            Doc::Array(items) => DocV::Array(items_view(items@)),
            Doc::Object(entries) => DocV::Object(entries_view(entries@)),
        }
    }
}

/// The values of a sequence of items.
pub open spec fn items_view(s: Seq<Doc>) -> Seq<DocV>
    decreases s,
{
    if s.len() == 0 {
        Seq::empty()
    } else {
        items_view(s.subrange(0, s.len() - 1)).push(s[s.len() - 1].view())
    }
}

/// The values of a sequence of keyed entries.
pub open spec fn entries_view(s: Seq<(String, Doc)>) -> Seq<(Seq<char>, DocV)>
    decreases s,
{
    if s.len() == 0 {
        Seq::empty()
    } else {
        entries_view(s.subrange(0, s.len() - 1)).push((s[s.len() - 1].0@, s[s.len() - 1].1.view()))
    }
}

/// Entry by entry, the values of keyed entries.
pub proof fn lemma_entries_view(s: Seq<(String, Doc)>)
    ensures
        entries_view(s).len() == s.len(),
        forall|i: int| 0 <= i < s.len() ==> #[trigger] entries_view(s)[i] == (s[i].0@, s[i].1@),
    decreases s.len(),
{
    if s.len() > 0 {
        let init = s.subrange(0, s.len() - 1);
        lemma_entries_view(init);
        assert forall|i: int| 0 <= i < s.len() implies #[trigger] entries_view(s)[i] == (
        s[i].0@, s[i].1@) by {
            if i < s.len() - 1 {
                assert(init[i] == s[i]);
            }
        }
    }
}

/// The position of the first entry with key `k`, or -1 where there is none.
#[verifier::opaque]
pub open spec fn key_index(entries: Seq<(Seq<char>, DocV)>, k: Seq<char>) -> int {
    if exists|i: int| 0 <= i < entries.len() && entries[i].0 == k {
        choose|i: int|
            0 <= i < entries.len() && entries[i].0 == k && forall|m: int|
                0 <= m < i ==> entries[m].0 != k
    } else {
        -1
    }
}

/// `fragment` merged into `dest`: two objects merge key by key, and in any
/// other case the fragment replaces the destination.
pub open spec fn merged(dest: DocV, fragment: DocV) -> DocV
    decreases fragment, 0int,
{
    match fragment {
        DocV::Object(fs) => match dest {
            DocV::Object(ds) => DocV::Object(merge_entries(ds, fs)),
            _ => fragment,
        },
        _ => fragment,
    }
}

/// The entries `fs`, in order, each merged into `ds` by `merge_key`.
pub open spec fn merge_entries(ds: Seq<(Seq<char>, DocV)>, fs: Seq<(Seq<char>, DocV)>) -> Seq<(Seq<char>, DocV)>
    decreases fs, 0int,
{
    if fs.len() == 0 {
        ds
    } else {
        let last = fs[fs.len() - 1];
        merge_key(merge_entries(ds, fs.subrange(0, fs.len() - 1)), last.0, last.1)
    }
}

/// One entry merged into an object's entries: a key already there has its
/// value merged in place, a new key is appended.
pub open spec fn merge_key(ds: Seq<(Seq<char>, DocV)>, k: Seq<char>, v: DocV) -> Seq<(Seq<char>, DocV)>
    decreases v, 1int,
{
    let i = key_index(ds, k);
    if 0 <= i < ds.len() {
        ds.update(i, (k, merged(ds[i].1, v)))
    } else {
        ds.push((k, v))
    }
}

proof fn lemma_merge_entries_prefix(ds: Seq<(Seq<char>, DocV)>, fs: Seq<(Seq<char>, DocV)>, i: int)
    requires
        0 <= i < fs.len(),
    ensures
        merge_entries(ds, fs.subrange(0, i + 1)) == merge_key(
            merge_entries(ds, fs.subrange(0, i)),
            fs[i].0,
            fs[i].1,
        ),
{
    let taken = fs.subrange(0, i + 1);
    assert(taken.subrange(0, taken.len() - 1) =~= fs.subrange(0, i));
    assert(taken[taken.len() - 1] == fs[i]);
}

/// Finds the first entry with key `k`.
fn find_key(entries: &Vec<(String, Doc)>, k: &String) -> (r: Option<usize>)
    ensures
        match r {
            Some(j) => j == key_index(entries_view(entries@), k@) && j < entries@.len()
                && entries@[j as int].0@ == k@,
            None => key_index(entries_view(entries@), k@) == -1,
        },
{
    let ghost es = entries_view(entries@);
    proof {
        lemma_entries_view(entries@);
    }
    let mut j: usize = 0;
    while j < entries.len()
        invariant
            j <= entries.len(),
            es == entries_view(entries@),
            es.len() == entries@.len(),
            forall|m: int| 0 <= m < es.len() ==> es[m] == (entries@[m].0@, entries@[m].1@),
            forall|m: int| 0 <= m < j ==> es[m].0 != k@,
        decreases entries.len() - j,
    {
        if entries[j].0 == *k {
            proof {
                reveal(key_index);
                assert(es[j as int].0 == k@);
                let c = key_index(es, k@);
                assert(0 <= j < es.len() && es[j as int].0 == k@ && forall|m: int|
                    0 <= m < j ==> es[m].0 != k@);
                assert(0 <= c < es.len() && es[c].0 == k@);
                if c < j {
                    assert(es[c].0 != k@);
                }
                if c > j {
                    assert(es[j as int].0 != k@);
                }
            }
            return Some(j);
        }
        j += 1;
    }
    proof {
        reveal(key_index);
    }
    None
}

/// Merges `fragment` into `dest`: objects merge key by key, keeping the keys
/// that only `dest` has; anything else in the fragment replaces what `dest`
/// holds at that place.
pub fn merge_json(dest: &mut Doc, fragment: Doc)
    ensures
        final(dest)@ == merged(old(dest)@, fragment@),
        doc_wf(old(dest)@) && doc_wf(fragment@) ==> doc_wf(final(dest)@),
    decreases fragment@,
{
    proof {
        if doc_wf(dest@) && doc_wf(fragment@) {
            lemma_merge_wf(dest@, fragment@);
        }
    }
    match fragment {
        Doc::Object(fentries) => {
            match dest {
                Doc::Object(dentries) => {
                    merge_all_entries(dentries, fentries);
                },
                _ => {
                    *dest = Doc::Object(fentries);
                },
            }
        },
        _ => {
            *dest = fragment;
        },
    }
}

/// Merges each entry of `fentries`, in order, into `dentries`.
fn merge_all_entries(dentries: &mut Vec<(String, Doc)>, fentries: Vec<(String, Doc)>)
    ensures
        entries_view(final(dentries)@) == merge_entries(entries_view(old(dentries)@), entries_view(fentries@)),
    decreases entries_view(fentries@),
{
    let ghost ds0 = entries_view(dentries@);
    let ghost fs0 = entries_view(fentries@);
    let ghost orig = fentries@;
    proof {
        lemma_entries_view(fentries@);
    }
    let n = fentries.len();
    let mut rest = fentries;
    let mut i: usize = 0;
    while i < n
        invariant
            i <= n,
            n == orig.len(),
            fs0 == entries_view(fentries@),
            fs0.len() == n,
            forall|m: int| 0 <= m < n ==> fs0[m] == (orig[m].0@, orig[m].1@),
            rest@ == orig.subrange(i as int, n as int),
            entries_view(dentries@) == merge_entries(ds0, fs0.subrange(0, i as int)),
        decreases n - i,
    {
        let (k, v) = rest.remove(0);
        assert(orig[i as int] == (k, v));
        let ghost before = dentries@;
        proof {
            lemma_merge_entries_prefix(ds0, fs0, i as int);
        }
        match find_key(dentries, &k) {
            Some(j) => {
                proof {
                    assert(decreases_to!(fs0 => fs0[i as int]));
                    assert(fs0[i as int].1 == v@);
                }
                merge_json(&mut dentries[j].1, v);
                proof {
                    lemma_entries_view(before);
                    lemma_entries_view(dentries@);
                    assert(entries_view(dentries@) =~= entries_view(before).update(
                        j as int,
                        (k@, merged(entries_view(before)[j as int].1, v@)),
                    ));
                }
            },
            None => {
                dentries.push((k, v));
                proof {
                    lemma_entries_view(before);
                    lemma_entries_view(dentries@);
                    assert(entries_view(dentries@) =~= entries_view(before).push((k@, v@)));
                }
            },
        }
        i += 1;
        assert(rest@ =~= orig.subrange(i as int, n as int));
    }
    proof {
        assert(fs0.subrange(0, n as int) =~= fs0);
    }
}

/// Every object has distinct keys, at every depth.
pub open spec fn doc_wf(d: DocV) -> bool
    decreases d, 1int,
{
    match d {
        DocV::Array(items) => items_wf(items),
        DocV::Object(es) => keys_distinct(es) && entries_wf(es),
        _ => true,
    }
}

/// Each item is well formed.
pub open spec fn items_wf(items: Seq<DocV>) -> bool
    decreases items, 0int,
{
    items.len() == 0 || (items_wf(items.subrange(0, items.len() - 1)) && doc_wf(
        items[items.len() - 1],
    ))
}

/// The value of each entry is well formed.
pub open spec fn entries_wf(es: Seq<(Seq<char>, DocV)>) -> bool
    decreases es, 0int,
{
    es.len() == 0 || (entries_wf(es.subrange(0, es.len() - 1)) && doc_wf(es[es.len() - 1].1))
}

proof fn lemma_entries_wf(es: Seq<(Seq<char>, DocV)>, i: int)
    requires
        entries_wf(es),
        0 <= i < es.len(),
    ensures
        doc_wf(es[i].1),
    decreases es.len(),
{
    if i < es.len() - 1 {
        let init = es.subrange(0, es.len() - 1);
        lemma_entries_wf(init, i);
        assert(init[i] == es[i]);
    }
}

/// No key occurs twice among `es`.
pub open spec fn keys_distinct(es: Seq<(Seq<char>, DocV)>) -> bool {
    forall|i: int, j: int| 0 <= i < j < es.len() ==> es[i].0 != es[j].0
}

/// What `key_index` returns: the first match, or -1 exactly when none exists.
pub proof fn lemma_key_index(es: Seq<(Seq<char>, DocV)>, k: Seq<char>)
    ensures
        -1 <= key_index(es, k) < es.len(),
        key_index(es, k) >= 0 ==> es[key_index(es, k)].0 == k && forall|m: int|
            0 <= m < key_index(es, k) ==> es[m].0 != k,
        key_index(es, k) == -1 ==> forall|m: int| 0 <= m < es.len() ==> es[m].0 != k,
{
    reveal(key_index);
    if exists|i: int| 0 <= i < es.len() && es[i].0 == k {
        let i = choose|i: int| 0 <= i < es.len() && es[i].0 == k;
        lemma_first_match_exists(es, k, i + 1);
    }
}

/// Where some entry below `n` has key `k`, a first such entry exists.
proof fn lemma_first_match_exists(es: Seq<(Seq<char>, DocV)>, k: Seq<char>, n: int)
    requires
        0 <= n <= es.len(),
        exists|i: int| 0 <= i < n && es[i].0 == k,
    ensures
        exists|p: int|
            0 <= p < es.len() && es[p].0 == k && forall|m: int| 0 <= m < p ==> es[m].0 != k,
    decreases n,
{
    if exists|i: int| 0 <= i < n - 1 && es[i].0 == k {
        lemma_first_match_exists(es, k, n - 1);
    } else {
        assert(es[n - 1].0 == k);
        assert(forall|m: int| 0 <= m < n - 1 ==> es[m].0 != k);
    }
}

/// The first match is the only index with the properties of one.
proof fn lemma_key_index_is(es: Seq<(Seq<char>, DocV)>, k: Seq<char>, p: int)
    requires
        0 <= p < es.len(),
        es[p].0 == k,
        forall|m: int| 0 <= m < p ==> es[m].0 != k,
    ensures
        key_index(es, k) == p,
{
    lemma_key_index(es, k);
    let c = key_index(es, k);
    if c >= 0 && c < p {
        assert(es[c].0 != k);
    }
    if c > p {
        assert(es[p].0 != k);
    }
}

/// `val` is the result of merging `v` into something.
pub open spec fn is_merge_of(val: DocV, v: DocV) -> bool {
    exists|y: DocV| merged(y, v) == val
}

/// `x` holds key `e.0`, with a value that merging `e.1` into something gave.
pub open spec fn holds_merge_of(x: Seq<(Seq<char>, DocV)>, e: (Seq<char>, DocV)) -> bool {
    let p = key_index(x, e.0);
    0 <= p < x.len() && is_merge_of(x[p].1, e.1)
}

/// After the first `n` entries of `fs` are merged, each of their keys leads to
/// a value that some document merged with that entry's value gave.
proof fn lemma_merge_entries_keys(ds: Seq<(Seq<char>, DocV)>, fs: Seq<(Seq<char>, DocV)>, n: int)
    requires
        keys_distinct(fs),
        0 <= n <= fs.len(),
    ensures
        forall|i: int| 0 <= i < n ==> #[trigger] holds_merge_of(merge_entries(ds, fs.subrange(0, n)), fs[i]),
    decreases n,
{
    if n > 0 {
        lemma_merge_entries_keys(ds, fs, n - 1);
        lemma_merge_entries_prefix(ds, fs, n - 1);
        let prev = merge_entries(ds, fs.subrange(0, n - 1));
        let x = merge_entries(ds, fs.subrange(0, n));
        let k = fs[n - 1].0;
        let v = fs[n - 1].1;
        lemma_key_index(prev, k);
        let q = key_index(prev, k);
        assert forall|i: int| 0 <= i < n implies #[trigger] holds_merge_of(x, fs[i]) by {
            let ki = fs[i].0;
            lemma_key_index(x, ki);
            if i == n - 1 {
                if 0 <= q {
                    lemma_key_index_is(x, k, q);
                    assert(merged(prev[q].1, v) == x[q].1);
                } else {
                    assert(forall|m: int| 0 <= m < prev.len() ==> x[m].0 != k);
                    lemma_key_index_is(x, k, prev.len() as int);
                    assert(merged(DocV::Null, v) == x[prev.len() as int].1);
                }
            } else {
                assert(fs[i].0 != k);
                assert(fs.subrange(0, n - 1)[i] == fs[i]);
                lemma_key_index(prev, ki);
                assert(holds_merge_of(prev, fs.subrange(0, n - 1)[i]));
                let p = key_index(prev, ki);
                assert(0 <= p < prev.len() && is_merge_of(prev[p].1, fs[i].1));
                assert(forall|m: int| 0 <= m < p ==> prev[m].0 == x[m].0);
                lemma_key_index_is(x, ki, p);
                assert(x[p] == prev[p]);
            }
        }
    }
}

/// Merging the entries of `fs` again into a result that holds them changes
/// nothing.
proof fn lemma_merge_entries_again(x: Seq<(Seq<char>, DocV)>, fs: Seq<(Seq<char>, DocV)>, n: int, f: DocV)
    requires
        f == DocV::Object(fs),
        doc_wf(f),
        0 <= n <= fs.len(),
        forall|i: int| 0 <= i < fs.len() ==> #[trigger] holds_merge_of(x, fs[i]),
    ensures
        merge_entries(x, fs.subrange(0, n)) == x,
    decreases f, 0int, n,
{
    if n > 0 {
        lemma_merge_entries_again(x, fs, n - 1, f);
        lemma_merge_entries_prefix(x, fs, n - 1);
        let k = fs[n - 1].0;
        let v = fs[n - 1].1;
        let p = key_index(x, k);
        assert(holds_merge_of(x, fs[n - 1]));
        lemma_key_index(x, k);
        let y = choose|y: DocV| merged(y, v) == x[p].1;
        lemma_entries_wf(fs, n - 1);
        assert(decreases_to!(f => fs[n - 1].1)) by {
            assert(decreases_to!(fs => fs[n - 1]));
        }
        lemma_merge_idempotent(y, v);
        assert(x.update(p, (k, merged(x[p].1, v))) =~= x);
    }
}

/// With distinct keys, merging entries into nothing gives them back.
proof fn lemma_merge_entries_into_empty(fs: Seq<(Seq<char>, DocV)>, n: int)
    requires
        keys_distinct(fs),
        0 <= n <= fs.len(),
    ensures
        merge_entries(Seq::empty(), fs.subrange(0, n)) == fs.subrange(0, n),
    decreases n,
{
    if n > 0 {
        lemma_merge_entries_into_empty(fs, n - 1);
        lemma_merge_entries_prefix(Seq::empty(), fs, n - 1);
        let prev = fs.subrange(0, n - 1);
        lemma_key_index(prev, fs[n - 1].0);
        if key_index(prev, fs[n - 1].0) >= 0 {
            assert(prev[key_index(prev, fs[n - 1].0)] == fs[key_index(prev, fs[n - 1].0)]);
        }
        assert(prev.push(fs[n - 1]) =~= fs.subrange(0, n));
    }
}

/// Merging the same fragment twice gives what merging it once gives.
pub proof fn lemma_merge_idempotent(d: DocV, f: DocV)
    requires
        doc_wf(f),
    ensures
        merged(merged(d, f), f) == merged(d, f),
    decreases f, 1int, 0int,
{
    if let DocV::Object(fs) = f {
        let ds = match d {
            DocV::Object(ds) => ds,
            _ => Seq::empty(),
        };
        if !(d is Object) {
            lemma_merge_entries_into_empty(fs, fs.len() as int);
            assert(fs.subrange(0, fs.len() as int) =~= fs);
        }
        let x = merge_entries(ds, fs);
        assert(fs.subrange(0, fs.len() as int) =~= fs);
        lemma_merge_entries_keys(ds, fs, fs.len() as int);
        lemma_merge_entries_again(x, fs, fs.len() as int, f);
    }
}

/// Merging entries leaves an entry whose key none of them has where it was,
/// as it was.
proof fn lemma_merge_entries_untouched(ds: Seq<(Seq<char>, DocV)>, fs: Seq<(Seq<char>, DocV)>, k: Seq<char>, n: int)
    requires
        0 <= n <= fs.len(),
        0 <= key_index(ds, k),
        forall|i: int| 0 <= i < fs.len() ==> fs[i].0 != k,
    ensures
        key_index(merge_entries(ds, fs.subrange(0, n)), k) == key_index(ds, k),
        merge_entries(ds, fs.subrange(0, n))[key_index(ds, k)] == ds[key_index(ds, k)],
    decreases n,
{
    lemma_key_index(ds, k);
    if n > 0 {
        lemma_merge_entries_untouched(ds, fs, k, n - 1);
        lemma_merge_entries_prefix(ds, fs, n - 1);
        let prev = merge_entries(ds, fs.subrange(0, n - 1));
        let x = merge_entries(ds, fs.subrange(0, n));
        let p = key_index(ds, k);
        lemma_key_index(prev, k);
        lemma_key_index(prev, fs[n - 1].0);
        assert(forall|m: int| 0 <= m < prev.len() ==> prev[m].0 == x[m].0);
        lemma_key_index_is(x, k, p);
    } else {
        assert(fs.subrange(0, 0) =~= Seq::<(Seq<char>, DocV)>::empty());
    }
}

/// Merging an object into an object keeps each key of the destination that
/// the fragment lacks, at its place and with its value.
pub proof fn lemma_merge_keeps_untouched_keys(ds: Seq<(Seq<char>, DocV)>, fs: Seq<(Seq<char>, DocV)>, k: Seq<char>)
    requires
        exists|i: int| 0 <= i < ds.len() && ds[i].0 == k,
        forall|i: int| 0 <= i < fs.len() ==> fs[i].0 != k,
    ensures
        merged(DocV::Object(ds), DocV::Object(fs)) matches DocV::Object(r) && key_index(r, k)
            == key_index(ds, k) && r[key_index(r, k)] == ds[key_index(ds, k)],
{
    lemma_key_index(ds, k);
    lemma_merge_entries_untouched(ds, fs, k, fs.len() as int);
    assert(fs.subrange(0, fs.len() as int) =~= fs);
}

proof fn lemma_entries_wf_from_all(es: Seq<(Seq<char>, DocV)>)
    requires
        forall|i: int| 0 <= i < es.len() ==> doc_wf(#[trigger] es[i].1),
    ensures
        entries_wf(es),
    decreases es.len(),
{
    if es.len() > 0 {
        let init = es.subrange(0, es.len() - 1);
        assert forall|i: int| 0 <= i < init.len() implies doc_wf(#[trigger] init[i].1) by {
            assert(init[i] == es[i]);
        }
        lemma_entries_wf_from_all(init);
        assert(doc_wf(es[es.len() - 1].1));
    }
}

proof fn lemma_merge_entries_wf(ds: Seq<(Seq<char>, DocV)>, fs: Seq<(Seq<char>, DocV)>, n: int, f: DocV)
    requires
        f == DocV::Object(fs),
        doc_wf(f),
        keys_distinct(ds),
        entries_wf(ds),
        0 <= n <= fs.len(),
    ensures
        keys_distinct(merge_entries(ds, fs.subrange(0, n))),
        entries_wf(merge_entries(ds, fs.subrange(0, n))),
    decreases f, 0int, n,
{
    if n == 0 {
        assert(fs.subrange(0, 0) =~= Seq::<(Seq<char>, DocV)>::empty());
    } else {
        lemma_merge_entries_wf(ds, fs, n - 1, f);
        lemma_merge_entries_prefix(ds, fs, n - 1);
        let prev = merge_entries(ds, fs.subrange(0, n - 1));
        let x = merge_entries(ds, fs.subrange(0, n));
        let k = fs[n - 1].0;
        let v = fs[n - 1].1;
        lemma_entries_wf(fs, n - 1);
        lemma_key_index(prev, k);
        let p = key_index(prev, k);
        assert forall|i: int| 0 <= i < prev.len() implies doc_wf(#[trigger] prev[i].1) by {
            lemma_entries_wf(prev, i);
        }
        if p >= 0 {
            assert(decreases_to!(f => v)) by {
                assert(decreases_to!(fs => fs[n - 1]));
            }
            lemma_merge_wf(prev[p].1, v);
            assert(forall|m: int| 0 <= m < x.len() ==> x[m].0 == prev[m].0);
        }
        assert forall|i: int| 0 <= i < x.len() implies doc_wf(#[trigger] x[i].1) by {
            if i < prev.len() && i != p {
                assert(x[i] == prev[i]);
            }
        }
        lemma_entries_wf_from_all(x);
    }
}

/// Merging well-formed documents gives a well-formed document: keys stay
/// distinct.
pub proof fn lemma_merge_wf(d: DocV, f: DocV)
    requires
        doc_wf(d),
        doc_wf(f),
    ensures
        doc_wf(merged(d, f)),
    decreases f, 1int, 0int,
{
    if let DocV::Object(fs) = f {
        if let DocV::Object(ds) = d {
            lemma_merge_entries_wf(ds, fs, fs.len() as int, f);
            assert(fs.subrange(0, fs.len() as int) =~= fs);
        }
    }
}

} // verus!
