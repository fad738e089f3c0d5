//! Extra convenience for Qt users: finds, among the fixed variable names a
//! Qt workspace relies on, those the template mentions while the
//! environment does not set them.  Printing the advice stays with the
//! caller.

use vstd::prelude::*;

use crate::interp::{env_get, env_lookup, env_view};
use crate::value::str_eq;

verus! {

broadcast use vstd::seq::group_seq_axioms, vstd::std_specs::vec::group_vec_axioms;

/// Whether `needle` occurs in `hay` starting at position `i`.
pub open spec fn contains_at(hay: Seq<char>, needle: Seq<char>, i: int) -> bool {
    0 <= i && i + needle.len() <= hay.len() && hay.subrange(i, i + needle.len()) == needle
}

/// Whether `needle` occurs anywhere in `hay`.
pub open spec fn str_contains(hay: Seq<char>, needle: Seq<char>) -> bool {
    exists|i: int| contains_at(hay, needle, i)
}

/// Substring search by scanning every position.
#[verifier::loop_isolation(false)]
pub fn contains_str(hay: &str, needle: &str) -> (r: bool)
    ensures
        r == str_contains(hay@, needle@),
{
    let n = hay.unicode_len();
    let m = needle.unicode_len();
    if m == 0 {
        proof {
            assert(hay@.subrange(0, 0) =~= needle@);
            assert(contains_at(hay@, needle@, 0));
        }
        return true;
    }
    if m > n {
        proof {
            assert forall|t: int| !contains_at(hay@, needle@, t) by {}
        }
        return false;
    }
    let mut i: usize = 0;
    while i <= n - m
        invariant
            m <= n,
            n == hay@.len(),
            m == needle@.len(),
            i <= n - m + 1,
            forall|t: int| 0 <= t < i ==> !contains_at(hay@, needle@, t),
        decreases n - m + 1 - i,
    {
        if str_eq(hay.substring_char(i, i + m), needle) {
            proof {
                assert(contains_at(hay@, needle@, i as int));
            }
            return true;
        }
        i += 1;
    }
    proof {
        assert forall|t: int| !contains_at(hay@, needle@, t) by {
            if 0 <= t && t + needle@.len() <= hay@.len() {
                assert(t < i);
            }
        }
    }
    false
}

/// The model of a list of name/message pairs.
pub open spec fn suggestions_view(v: Seq<(String, String)>) -> Seq<(Seq<char>, Seq<char>)> {
    Seq::new(v.len(), |i: int| (v[i].0@, v[i].1@))
}

/// The advice owed for a template: each of the two Qt variable names that
/// the template mentions while the environment leaves it unset, with its
/// message, in a fixed order.
pub open spec fn qt_suggestions(t: Seq<char>, env: Seq<(Seq<char>, Seq<char>)>) -> Seq<
    (Seq<char>, Seq<char>),
> {
    let sdk = if str_contains(t, "QT_SDK_INSTALL"@) && env_lookup(env, "QT_SDK_INSTALL"@)
        is None {
        seq![("QT_SDK_INSTALL"@, "the root of the Qt SDK, for example /home/user/Qt/"@)]
    } else {
        Seq::<(Seq<char>, Seq<char>)>::empty()
    };
    let install = if str_contains(t, "QT_INSTALL"@) && env_lookup(env, "QT_INSTALL"@) is None {
        seq![
            (
                "QT_INSTALL"@,
                "the specific Qt installed version, for example /opt/Qt/6.2.0/gcc_64"@,
            ),
        ]
    } else {
        Seq::<(Seq<char>, Seq<char>)>::empty()
    };
    sdk + install
}

/// Finds the Qt environment variables the template mentions but the given
/// environment snapshot does not set, each with the message describing what
/// it should hold.
pub fn suggest_needed_env_vars(template_contents: &str, env: &Vec<(String, String)>) -> (r: Vec<
    (String, String),
>)
    ensures
        suggestions_view(r@) == qt_suggestions(template_contents@, env_view(env@)),
{
    let mut out: Vec<(String, String)> = Vec::new();
    if contains_str(template_contents, "QT_SDK_INSTALL") && env_get(
        env,
        "QT_SDK_INSTALL",
    ).is_none() {
        out.push(
            (
                String::from_str("QT_SDK_INSTALL"),
                String::from_str("the root of the Qt SDK, for example /home/user/Qt/"),
            ),
        );
    }
    if contains_str(template_contents, "QT_INSTALL") && env_get(env, "QT_INSTALL").is_none() {
        out.push(
            (
                String::from_str("QT_INSTALL"),
                String::from_str(
                    "the specific Qt installed version, for example /opt/Qt/6.2.0/gcc_64",
                ),
            ),
        );
    }
    proof {
        assert(suggestions_view(out@) =~= qt_suggestions(template_contents@, env_view(env@)));
    }
    out
}

} // verus!
