//! Substitution of `{{NAME}}` placeholders from a snapshot of the environment.

use vstd::prelude::*;

verus! {

/// The text of each (name, value) pair of an environment snapshot.
pub open spec fn env_view(env: Seq<(String, String)>) -> Seq<(Seq<char>, Seq<char>)> {
    env.map_values(|e: (String, String)| (e.0@, e.1@))
}

/// The value of the first binding of `name`, if any.
pub open spec fn env_lookup(env: Seq<(Seq<char>, Seq<char>)>, name: Seq<char>) -> Option<Seq<char>>
    decreases env.len(),
{
    if env.len() == 0 {
        None
    } else if env[0].0 == name {
        Some(env[0].1)
    } else {
        env_lookup(env.drop_first(), name)
    }
}

/// The first index from `k` on that holds `}`, or the length of `s`.
pub open spec fn close_index(s: Seq<char>, k: int) -> int
    decreases s.len() - k,
{
    if k < 0 || k >= s.len() {
        s.len() as int
    } else if s[k] == '}' {
        k
    } else {
        close_index(s, k + 1)
    }
}

/// Where `s` holds a placeholder `{{NAME}}` at `i` (NAME holds no `}`), the
/// index of the first `}` that closes it.
pub open spec fn placeholder_end(s: Seq<char>, i: int) -> Option<int> {
    if 0 <= i && i + 1 < s.len() && s[i] == '{' && s[i + 1] == '{' {
        let j = close_index(s, i + 2);
        if j + 1 < s.len() && s[j + 1] == '}' {
            Some(j)
        } else {
            None
        }
    } else {
        None
    }
}

/// `s` from index `i` on, with each placeholder whose name `env` binds
/// replaced by its value, in one pass: replaced text is not scanned again.
pub open spec fn substituted_from(s: Seq<char>, i: int, env: Seq<(Seq<char>, Seq<char>)>) -> Seq<char>
    decreases s.len() - i,
    via substituted_from_decreases
{
    if i < 0 || i >= s.len() {
        Seq::empty()
    } else {
        match placeholder_end(s, i) {
            Some(j) => match env_lookup(env, s.subrange(i + 2, j)) {
                Some(v) => v + substituted_from(s, j + 2, env),
                None => seq![s[i]] + substituted_from(s, i + 1, env),
            },
            None => seq![s[i]] + substituted_from(s, i + 1, env),
        }
    }
}

/// `s` with each placeholder whose name `env` binds replaced by its value.
pub open spec fn substituted(s: Seq<char>, env: Seq<(Seq<char>, Seq<char>)>) -> Seq<char> {
    substituted_from(s, 0, env)
}

proof fn lemma_close_index(s: Seq<char>, k: int)
    requires
        0 <= k,
    ensures
        k <= close_index(s, k) <= s.len() || (k > s.len() && close_index(s, k) == s.len()),
        close_index(s, k) < s.len() ==> s[close_index(s, k)] == '}',
        forall|m: int| k <= m < close_index(s, k) ==> s[m] != '}',
    decreases s.len() - k,
{
    if k < s.len() && s[k] != '}' {
        lemma_close_index(s, k + 1);
    }
}

#[via_fn]
proof fn substituted_from_decreases(s: Seq<char>, i: int, env: Seq<(Seq<char>, Seq<char>)>) {
    if 0 <= i < s.len() {
        lemma_close_index(s, i + 2);
    }
}

/// Finds `close_index(content@, k)`.
fn find_close(content: &str, k: usize, n: usize) -> (r: usize)
    requires
        n == content@.len(),
        k <= n,
    ensures
        r == close_index(content@, k as int),
{
    let mut j = k;
    while j < n && content.get_char(j) != '}'
        invariant
            k <= j <= n,
            n == content@.len(),
            close_index(content@, k as int) == close_index(content@, j as int),
        decreases n - j,
    {
        j += 1;
    }
    j
}

/// Looks up the first binding of `name` in `env`.
fn lookup_env<'a>(env: &'a Vec<(String, String)>, name: &String) -> (r: Option<&'a String>)
    ensures
        match r {
            Some(v) => env_lookup(env_view(env@), name@) == Some(v@),
            None => env_lookup(env_view(env@), name@) is None,
        },
{
    let ghost ev = env_view(env@);
    assert(ev.subrange(0, ev.len() as int) =~= ev);
    let mut i: usize = 0;
    while i < env.len()
        invariant
            i <= env.len(),
            ev == env_view(env@),
            env_lookup(ev, name@) == env_lookup(ev.subrange(i as int, ev.len() as int), name@),
        decreases env.len() - i,
    {
        let ghost rest = ev.subrange(i as int, ev.len() as int);
        assert(rest.drop_first() =~= ev.subrange(i + 1, ev.len() as int));
        assert(rest[0] == (env@[i as int].0@, env@[i as int].1@));
        if env[i].0 == *name {
            return Some(&env[i].1);
        }
        i += 1;
    }
    None
}

/// Replaces each `{{NAME}}` in `content` whose NAME `env` binds with the
/// value of its first binding, in one pass. A placeholder whose name is not
/// bound stays as it is.
pub fn substitute_env(content: &str, env: &Vec<(String, String)>) -> (r: String)
    ensures
        r@ == substituted(content@, env_view(env@)),
{
    let ghost s = content@;
    let ghost ev = env_view(env@);
    let n = content.unicode_len();
    let mut out = String::new();
    let mut i: usize = 0;
    while i < n
        invariant
            i <= n,
            n == s.len(),
            s == content@,
            ev == env_view(env@),
            out@ + substituted_from(s, i as int, ev) == substituted(s, ev),
        decreases n - i,
    {
        let mut next = i + 1;
        if i + 1 < n && content.get_char(i) == '{' && content.get_char(i + 1) == '{' {
            let j = find_close(content, i + 2, n);
            proof {
                lemma_close_index(s, i + 2);
            }
            if j < n - 1 && content.get_char(j + 1) == '}' {
                let name = String::from_str(content.substring_char(i + 2, j));
                match lookup_env(env, &name) {
                    Some(v) => {
                        out.append(v.as_str());
                        next = j + 2;
                    },
                    None => {},
                }
            }
        }
        if next == i + 1 {
            let ghost before = out@;
            out.append(content.substring_char(i, i + 1));
            proof {
                assert(content@.subrange(i as int, i + 1) =~= seq![s[i as int]]);
                assert(before + (seq![s[i as int]] + substituted_from(s, i + 1, ev)) =~= out@
                    + substituted_from(s, i + 1, ev));
            }
        } else {
            assert(out@ + substituted_from(s, next as int, ev) =~= substituted(s, ev));
        }
        i = next;
    }
    assert(out@ =~= out@ + substituted_from(s, i as int, ev));
    out
}

/// No placeholder of `s` from index `i` on names a variable that `env` binds.
pub open spec fn no_bound_placeholder(s: Seq<char>, i: int, env: Seq<(Seq<char>, Seq<char>)>) -> bool {
    forall|p: int|
        i <= p < s.len() && #[trigger] placeholder_end(s, p) is Some ==> env_lookup(
            env,
            s.subrange(p + 2, placeholder_end(s, p)->0),
        ) is None
}

proof fn lemma_unbound_unchanged_from(s: Seq<char>, i: int, env: Seq<(Seq<char>, Seq<char>)>)
    requires
        0 <= i <= s.len(),
        no_bound_placeholder(s, i, env),
    ensures
        substituted_from(s, i, env) == s.subrange(i, s.len() as int),
    decreases s.len() - i,
{
    if i < s.len() {
        assert(placeholder_end(s, i) is Some ==> env_lookup(
            env,
            s.subrange(i + 2, placeholder_end(s, i)->0),
        ) is None);
        lemma_unbound_unchanged_from(s, i + 1, env);
        assert(seq![s[i]] + s.subrange(i + 1, s.len() as int) =~= s.subrange(i, s.len() as int));
    } else {
        assert(s.subrange(i, s.len() as int) =~= Seq::<char>::empty());
    }
}

/// Placeholders whose names are not bound are left verbatim: where `env`
/// binds no name that a placeholder of `s` uses, substitution returns `s`.
pub proof fn lemma_unbound_placeholders_unchanged(s: Seq<char>, env: Seq<(Seq<char>, Seq<char>)>)
    requires
        no_bound_placeholder(s, 0, env),
    ensures
        substituted(s, env) == s,
{
    lemma_unbound_unchanged_from(s, 0, env);
    assert(s.subrange(0, s.len() as int) =~= s);
}

} // verus!
