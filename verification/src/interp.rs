//! Environment-variable interpolation inside string values: each occurrence
//! of `$${NAME}` (name characters: letters, digits, underscore) is replaced
//! by the environment's value for `NAME` when it holds one; an unknown name
//! keeps the placeholder text unchanged.

use vstd::prelude::*;

verus! {

broadcast use vstd::seq::group_seq_axioms, vstd::std_specs::vec::group_vec_axioms;

/// Characters a placeholder name may hold.
pub open spec fn word_char(c: char) -> bool {
    ('A' <= c && c <= 'Z') || ('a' <= c && c <= 'z') || ('0' <= c && c <= '9') || (c == '_')
}

/// Characters a placeholder name may hold.
pub fn is_word_char(c: char) -> (r: bool)
    ensures
        r == word_char(c),
{
    ('A' <= c && c <= 'Z') || ('a' <= c && c <= 'z') || ('0' <= c && c <= '9') || (c == '_')
}

/// The end of the run of name characters beginning at `i`.
pub open spec fn run_end(s: Seq<char>, i: int) -> int
    decreases s.len() - i
        when i <= s.len()
{
    if i < 0 || i >= s.len() {
        i
    } else if word_char(s[i]) {
        run_end(s, i + 1)
    } else {
        i
    }
}

pub proof fn lemma_run_end(s: Seq<char>, a: int, j: int)
    requires
        0 <= a <= j <= s.len(),
        forall|t: int| a <= t < j ==> word_char(#[trigger] s[t]),
        j == s.len() || !word_char(s[j]),
    ensures
        run_end(s, a) == j,
    decreases j - a,
{
    if a < j {
        assert(word_char(s[a]));
        lemma_run_end(s, a + 1, j);
    }
}

/// Whether a placeholder starts at position `i`: `$${`, one or more name
/// characters, then `}`.
pub open spec fn match_at(s: Seq<char>, i: int) -> bool {
    &&& 0 <= i
    &&& i + 3 <= s.len()
    &&& s[i] == '$'
    &&& s[i + 1] == '$'
    &&& s[i + 2] == '{'
    &&& run_end(s, i + 3) > i + 3
    &&& run_end(s, i + 3) < s.len()
    &&& s[run_end(s, i + 3)] == '}'
}

/// The model of an environment snapshot.
pub open spec fn env_view(e: Seq<(String, String)>) -> Seq<(Seq<char>, Seq<char>)> {
    Seq::new(e.len(), |i: int| (e[i].0@, e[i].1@))
}

/// The value of the first environment entry with the given name, if any.
pub open spec fn env_lookup(env: Seq<(Seq<char>, Seq<char>)>, name: Seq<char>) -> Option<
    Seq<char>,
>
    decreases env,
{
    if env.len() == 0 {
        Option::None
    } else if env.first().0 == name {
        Option::Some(env.first().1)
    } else {
        env_lookup(env.drop_first(), name)
    }
}

pub proof fn lemma_env_lookup_first(
    env: Seq<(Seq<char>, Seq<char>)>,
    name: Seq<char>,
    i: int,
)
    requires
        0 <= i < env.len(),
        env[i].0 == name,
        forall|j: int| 0 <= j < i ==> (#[trigger] env[j]).0 != name,
    ensures
        env_lookup(env, name) == Option::Some(env[i].1),
    decreases i,
{
    if env.first().0 != name {
        assert(env[0].0 != name);
        let tail = env.drop_first();
        assert(tail[i - 1].0 == name);
        assert forall|j: int| 0 <= j < i - 1 implies (#[trigger] tail[j]).0 != name by {
            assert(env[j + 1].0 != name);
        }
        lemma_env_lookup_first(tail, name, i - 1);
    }
}

pub proof fn lemma_env_lookup_absent(env: Seq<(Seq<char>, Seq<char>)>, name: Seq<char>)
    requires
        forall|j: int| 0 <= j < env.len() ==> (#[trigger] env[j]).0 != name,
    ensures
        env_lookup(env, name) is None,
    decreases env.len(),
{
    if env.len() > 0 {
        let tail = env.drop_first();
        assert forall|j: int| 0 <= j < tail.len() implies (#[trigger] tail[j]).0 != name by {
            assert(env[j + 1].0 != name);
        }
        lemma_env_lookup_absent(tail, name);
    }
}

/// Looks a name up in the environment snapshot: the first entry that
/// carries it.
#[verifier::loop_isolation(false)]
pub fn env_get<'a>(env: &'a Vec<(String, String)>, name: &str) -> (r: Option<&'a String>)
    ensures
        match r {
            Option::Some(v) => env_lookup(env_view(env@), name@) == Option::Some(v@),
            Option::None => env_lookup(env_view(env@), name@) is None,
        },
{
    let ghost m = env_view(env@);
    let mut i: usize = 0;
    while i < env.len()
        invariant
            i <= env.len(),
            forall|j: int| 0 <= j < i ==> (#[trigger] m[j]).0 != name@,
        decreases env.len() - i,
    {
        if crate::value::str_eq(env[i].0.as_str(), name) {
            proof {
                assert(m[i as int].0 == name@);
                lemma_env_lookup_first(m, name@, i as int);
            }
            return Option::Some(&env[i].1);
        }
        proof {
            assert(m[i as int].0 == env@[i as int].0@);
        }
        i += 1;
    }
    proof {
        lemma_env_lookup_absent(m, name@);
    }
    Option::None
}

/// One string interpolated: scanning left to right, each placeholder whose
/// name the environment holds becomes its value; an unknown name keeps the
/// placeholder text; the scan resumes after the placeholder either way.
pub open spec fn interp_str(s: Seq<char>, env: Seq<(Seq<char>, Seq<char>)>) -> Seq<char>
    decreases s.len(),
{
    if s.len() == 0 {
        Seq::empty()
    } else if match_at(s, 0) {
        let e = run_end(s, 3);
        let name = s.subrange(3, e);
        let rep = match env_lookup(env, name) {
            Option::Some(v) => v,
            Option::None => s.subrange(0, e + 1),
        };
        rep + interp_str(s.subrange(e + 1, s.len() as int), env)
    } else {
        seq![s[0]] + interp_str(s.drop_first(), env)
    }
}

/// Whether every placeholder in the string names a variable the
/// environment does not set.
pub open spec fn placeholders_unset(s: Seq<char>, env: Seq<(Seq<char>, Seq<char>)>) -> bool
    decreases s.len(),
{
    if s.len() == 0 {
        true
    } else if match_at(s, 0) {
        let e = run_end(s, 3);
        env_lookup(env, s.subrange(3, e)) is None && placeholders_unset(
            s.subrange(e + 1, s.len() as int),
            env,
        )
    } else {
        placeholders_unset(s.drop_first(), env)
    }
}

/// Interpolation keeps a string whose placeholders all name unset
/// variables: an unknown name keeps its placeholder text.
pub proof fn lemma_interp_str_unset(s: Seq<char>, env: Seq<(Seq<char>, Seq<char>)>)
    requires
        placeholders_unset(s, env),
    ensures
        interp_str(s, env) == s,
    decreases s.len(),
{
    if s.len() == 0 {
        assert(interp_str(s, env) =~= s);
    } else if match_at(s, 0) {
        let e = run_end(s, 3);
        lemma_interp_str_unset(s.subrange(e + 1, s.len() as int), env);
        assert(s.subrange(0, e + 1) + s.subrange(e + 1, s.len() as int) =~= s);
    } else {
        lemma_interp_str_unset(s.drop_first(), env);
        assert(seq![s[0]] + s.drop_first() =~= s);
    }
}

/// No placeholder can be named against an empty environment.
pub proof fn lemma_placeholders_unset_empty(s: Seq<char>)
    ensures
        placeholders_unset(s, Seq::empty()),
    decreases s.len(),
{
    let env = Seq::<(Seq<char>, Seq<char>)>::empty();
    if s.len() == 0 {
    } else if match_at(s, 0) {
        let e = run_end(s, 3);
        assert(env_lookup(env, s.subrange(3, e)) is None);
        lemma_placeholders_unset_empty(s.subrange(e + 1, s.len() as int));
    } else {
        lemma_placeholders_unset_empty(s.drop_first());
    }
}

/// Interpolates every placeholder of one string against the environment
/// snapshot.
#[verifier::loop_isolation(false)]
pub fn interp_string(s: &str, env: &Vec<(String, String)>) -> (r: String)
    ensures
        r@ == interp_str(s@, env_view(env@)),
{
    let ghost env_m = env_view(env@);
    let n = s.unicode_len();
    let mut out = String::new();
    let mut i: usize = 0;
    proof {
        assert(s@.subrange(0, n as int) =~= s@);
        assert(Seq::<char>::empty() + interp_str(s@, env_m) =~= interp_str(s@, env_m));
    }
    while i < n
        invariant
            i <= n,
            n == s@.len(),
            out@ + interp_str(s@.subrange(i as int, n as int), env_m) == interp_str(s@, env_m),
        decreases n - i,
    {
        let ghost sub = s@.subrange(i as int, n as int);
        let ghost pre = out@;
        let has_prefix = n - i > 2 && s.get_char(i) == '$' && s.get_char(i + 1) == '$'
            && s.get_char(i + 2) == '{';
        if has_prefix {
            let mut j: usize = i + 3;
            while j < n && is_word_char(s.get_char(j))
                invariant
                    i + 3 <= j <= n,
                    forall|t: int| i + 3 <= t < j ==> word_char(#[trigger] s@[t]),
                decreases n - j,
            {
                j += 1;
            }
            proof {
                assert(sub.len() == n - i);
                assert forall|t: int| 3 <= t < j - i implies word_char(#[trigger] sub[t]) by {
                    assert(sub[t] == s@[i + t]);
                }
                if j < n {
                    assert(sub[j - i] == s@[j as int]);
                    assert(!word_char(s@[j as int]));
                }
                lemma_run_end(sub, 3, j - i);
            }
            if j > i + 3 && j < n && s.get_char(j) == '}' {
                proof {
                    assert(sub[0] == s@[i as int]);
                    assert(sub[1] == s@[i + 1]);
                    assert(sub[2] == s@[i + 2]);
                    assert(sub[j - i] == s@[j as int]);
                    assert(match_at(sub, 0));
                    assert(sub.subrange(3, j - i) =~= s@.subrange(i + 3, j as int));
                    assert(sub.subrange(j - i + 1, sub.len() as int) =~= s@.subrange(
                        j + 1,
                        n as int,
                    ));
                    assert(sub.subrange(0, j - i + 1) =~= s@.subrange(i as int, j + 1));
                }
                let name = s.substring_char(i + 3, j);
                match env_get(env, name) {
                    Option::Some(v) => {
                        out.append(v.as_str());
                        proof {
                            assert(env_lookup(env_m, sub.subrange(3, j - i)) == Option::Some(v@));
                            assert(interp_str(sub, env_m) == v@ + interp_str(
                                s@.subrange(j + 1, n as int),
                                env_m,
                            ));
                            assert((pre + v@) + interp_str(s@.subrange(j + 1, n as int), env_m)
                                =~= pre + (v@ + interp_str(s@.subrange(j + 1, n as int), env_m)));
                        }
                    },
                    Option::None => {
                        let kept = s.substring_char(i, j + 1);
                        out.append(kept);
                        proof {
                            assert(env_lookup(env_m, sub.subrange(3, j - i)) is None);
                            assert(interp_str(sub, env_m) == kept@ + interp_str(
                                s@.subrange(j + 1, n as int),
                                env_m,
                            ));
                            assert((pre + kept@) + interp_str(s@.subrange(j + 1, n as int), env_m)
                                =~= pre + (kept@ + interp_str(
                                s@.subrange(j + 1, n as int),
                                env_m,
                            )));
                        }
                    },
                }
                i = j + 1;
            } else {
                proof {
                    assert(!match_at(sub, 0));
                    assert(sub.drop_first() =~= s@.subrange(i + 1, n as int));
                }
                let c = s.substring_char(i, i + 1);
                out.append(c);
                proof {
                    assert(c@ =~= seq![sub[0]]);
                    assert((pre + c@) + interp_str(s@.subrange(i + 1, n as int), env_m) =~= pre + (
                    c@ + interp_str(s@.subrange(i + 1, n as int), env_m)));
                }
                i += 1;
            }
        } else {
            proof {
                if sub.len() >= 3 {
                    assert(sub[0] == s@[i as int]);
                    assert(sub[1] == s@[i + 1]);
                    assert(sub[2] == s@[i + 2]);
                }
                assert(!match_at(sub, 0));
                assert(sub.drop_first() =~= s@.subrange(i + 1, n as int));
            }
            let c = s.substring_char(i, i + 1);
            out.append(c);
            proof {
                assert(c@ =~= seq![sub[0]]);
                assert((pre + c@) + interp_str(s@.subrange(i + 1, n as int), env_m) =~= pre + (c@
                    + interp_str(s@.subrange(i + 1, n as int), env_m)));
            }
            i += 1;
        }
    }
    proof {
        assert(s@.subrange(n as int, n as int) =~= Seq::<char>::empty());
        assert(out@ + Seq::<char>::empty() =~= out@);
    }
    out
}

} // verus!
