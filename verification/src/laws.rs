//! Crate-level laws of the expansion engine, proved once and for all: the
//! identity behaviour on directive-free templates, the fixed point reached
//! after one expansion, and the exactness of side-document extraction.

use vstd::prelude::*;

use crate::interp::{
    lemma_interp_str_unset, lemma_placeholders_unset_empty, placeholders_unset,
};
use crate::render::render;
use crate::value::{keys_contain, lemma_lookup_index, lookup, remove_key, Jv};
use crate::workspace::{
    allowed_in_os, globals_key, interp_elems, interp_entries, interp_tree, os_key, presets_key,
    prune, prune_elems, prune_entries, spec_generate, spec_processed, strip_globals, subst,
};

verus! {

broadcast use vstd::seq::group_seq_axioms, vstd::std_specs::vec::group_vec_axioms;

/// No object of the tree carries the platform key.
pub open spec fn os_free(v: Jv) -> bool
    decreases v,
{
    match v {
        Jv::Obj(es) => !keys_contain(es, os_key()) && (forall|i: int|
            0 <= i < es.len() ==> os_free(#[trigger] es[i].1)),
        Jv::Arr(elems) => forall|i: int| 0 <= i < elems.len() ==> os_free(#[trigger] elems[i]),
        _ => true,
    }
}

/// A tree without the platform key anywhere survives on every platform.
pub proof fn lemma_allowed_when_os_free(v: Jv, os: Seq<char>)
    requires
        os_free(v),
    ensures
        allowed_in_os(v, os),
{
    match v {
        Jv::Obj(es) => {
            lemma_lookup_index(es, os_key());
        },
        _ => {},
    }
}

proof fn lemma_prune_entries_id(es: Seq<(Seq<char>, Jv)>, os: Seq<char>)
    requires
        !keys_contain(es, os_key()),
        forall|i: int| 0 <= i < es.len() ==> os_free(#[trigger] es[i].1),
    ensures
        prune_entries(es, os) == es,
    decreases es,
{
    if es.len() > 0 {
        let front = es.drop_last();
        assert(!keys_contain(front, os_key())) by {
            if keys_contain(front, os_key()) {
                let w = choose|w: int| 0 <= w < front.len() && front[w].0 == os_key();
                assert(es[w].0 == os_key());
            }
        }
        assert forall|i: int| 0 <= i < front.len() implies os_free(#[trigger] front[i].1) by {
            assert(front[i] == es[i]);
        }
        lemma_prune_entries_id(front, os);
        let last = es.last();
        assert(os_free(last.1));
        lemma_allowed_when_os_free(last.1, os);
        assert(last.0 != os_key()) by {
            if last.0 == os_key() {
                assert(es[es.len() - 1].0 == os_key());
            }
        }
        lemma_prune_id(last.1, os);
        assert(prune_entries(es, os) =~= es);
    } else {
        assert(prune_entries(es, os) =~= es);
    }
}

proof fn lemma_prune_elems_id(elems: Seq<Jv>, os: Seq<char>)
    requires
        forall|i: int| 0 <= i < elems.len() ==> os_free(#[trigger] elems[i]),
    ensures
        prune_elems(elems, os) == elems,
    decreases elems,
{
    if elems.len() > 0 {
        let front = elems.drop_last();
        assert forall|i: int| 0 <= i < front.len() implies os_free(#[trigger] front[i]) by {
            assert(front[i] == elems[i]);
        }
        lemma_prune_elems_id(front, os);
        assert(os_free(elems.last()));
        lemma_allowed_when_os_free(elems.last(), os);
        lemma_prune_id(elems.last(), os);
        assert(prune_elems(elems, os) =~= elems);
    } else {
        assert(prune_elems(elems, os) =~= elems);
    }
}

/// The platform filter is the identity on trees without the platform key.
pub proof fn lemma_prune_id(v: Jv, os: Seq<char>)
    requires
        os_free(v),
    ensures
        prune(v, os) == v,
    decreases v,
{
    match v {
        Jv::Obj(es) => {
            lemma_prune_entries_id(es, os);
        },
        Jv::Arr(elems) => {
            lemma_prune_elems_id(elems, os);
        },
        _ => {},
    }
}

/// No string of the tree holds a placeholder naming a variable the
/// environment sets.
pub open spec fn env_untouched(v: Jv, env: Seq<(Seq<char>, Seq<char>)>) -> bool
    decreases v,
{
    match v {
        Jv::Str(s) => placeholders_unset(s, env),
        Jv::Obj(es) => forall|i: int| 0 <= i < es.len() ==> env_untouched(#[trigger] es[i].1, env),
        Jv::Arr(elems) => forall|i: int|
            0 <= i < elems.len() ==> env_untouched(#[trigger] elems[i], env),
        _ => true,
    }
}

proof fn lemma_interp_entries_untouched(es: Seq<(Seq<char>, Jv)>, env: Seq<(Seq<char>, Seq<char>)>)
    requires
        forall|i: int| 0 <= i < es.len() ==> env_untouched(#[trigger] es[i].1, env),
    ensures
        interp_entries(es, env) == es,
    decreases es,
{
    if es.len() > 0 {
        let front = es.drop_last();
        assert forall|i: int| 0 <= i < front.len() implies env_untouched(
            #[trigger] front[i].1,
            env,
        ) by {
            assert(front[i] == es[i]);
        }
        lemma_interp_entries_untouched(front, env);
        assert(env_untouched(es.last().1, env));
        lemma_interp_tree_untouched(es.last().1, env);
        assert(interp_entries(es, env) =~= es);
    } else {
        assert(interp_entries(es, env) =~= es);
    }
}

proof fn lemma_interp_elems_untouched(elems: Seq<Jv>, env: Seq<(Seq<char>, Seq<char>)>)
    requires
        forall|i: int| 0 <= i < elems.len() ==> env_untouched(#[trigger] elems[i], env),
    ensures
        interp_elems(elems, env) == elems,
    decreases elems,
{
    if elems.len() > 0 {
        let front = elems.drop_last();
        assert forall|i: int| 0 <= i < front.len() implies env_untouched(
            #[trigger] front[i],
            env,
        ) by {
            assert(front[i] == elems[i]);
        }
        lemma_interp_elems_untouched(front, env);
        assert(env_untouched(elems.last(), env));
        lemma_interp_tree_untouched(elems.last(), env);
        assert(interp_elems(elems, env) =~= elems);
    } else {
        assert(interp_elems(elems, env) =~= elems);
    }
}

/// The interpolation pass is the identity on a tree none of whose
/// placeholders names a set variable.
pub proof fn lemma_interp_tree_untouched(v: Jv, env: Seq<(Seq<char>, Seq<char>)>)
    requires
        env_untouched(v, env),
    ensures
        interp_tree(v, env) == v,
    decreases v,
{
    match v {
        Jv::Str(s) => {
            lemma_interp_str_unset(s, env);
        },
        Jv::Obj(es) => {
            lemma_interp_entries_untouched(es, env);
        },
        Jv::Arr(elems) => {
            lemma_interp_elems_untouched(elems, env);
        },
        _ => {},
    }
}

/// Every tree is untouched by the empty environment snapshot.
pub proof fn lemma_env_untouched_empty(v: Jv)
    ensures
        env_untouched(v, Seq::empty()),
    decreases v,
{
    match v {
        Jv::Str(s) => {
            lemma_placeholders_unset_empty(s);
        },
        Jv::Obj(es) => {
            assert forall|i: int| 0 <= i < es.len() implies env_untouched(
                #[trigger] es[i].1,
                Seq::empty(),
            ) by {
                lemma_env_untouched_empty(es[i].1);
            }
        },
        Jv::Arr(elems) => {
            assert forall|i: int| 0 <= i < elems.len() implies env_untouched(
                #[trigger] elems[i],
                Seq::empty(),
            ) by {
                lemma_env_untouched_empty(elems[i]);
            }
        },
        _ => {},
    }
}

/// Removing an absent key changes nothing.
pub proof fn lemma_remove_key_id(es: Seq<(Seq<char>, Jv)>, k: Seq<char>)
    requires
        !keys_contain(es, k),
    ensures
        remove_key(es, k) == es,
    decreases es,
{
    if es.len() > 0 {
        let front = es.drop_last();
        assert(!keys_contain(front, k)) by {
            if keys_contain(front, k) {
                let w = choose|w: int| 0 <= w < front.len() && front[w].0 == k;
                assert(es[w].0 == k);
            }
        }
        lemma_remove_key_id(front, k);
        assert(es.last().0 != k) by {
            if es.last().0 == k {
                assert(es[es.len() - 1].0 == k);
            }
        }
        assert(remove_key(es, k) =~= es);
    } else {
        assert(remove_key(es, k) =~= es);
    }
}

/// After removal, the key is gone.
pub proof fn lemma_remove_key_absent(es: Seq<(Seq<char>, Jv)>, k: Seq<char>)
    ensures
        !keys_contain(remove_key(es, k), k),
        forall|j: int|
            0 <= j < remove_key(es, k).len() ==> (#[trigger] remove_key(es, k)[j]).0 != k,
    decreases es,
{
    if es.len() > 0 {
        let front = es.drop_last();
        lemma_remove_key_absent(front, k);
        if es.last().0 != k {
            assert forall|j: int|
                0 <= j < remove_key(es, k).len() implies (#[trigger] remove_key(es, k)[j]).0
                != k by {
                if j < remove_key(front, k).len() {
                    assert(remove_key(es, k)[j] == remove_key(front, k)[j]);
                }
            }
        }
    }
}

/// A template with no globals dictionary, no side-document key at the
/// root, no platform key anywhere, and no placeholder naming a variable
/// the environment sets expands to itself, with no side document: the
/// identity transform.  The empty snapshot satisfies the last condition
/// for every tree ([`lemma_env_untouched_empty`]).
pub proof fn lemma_expand_identity(root: Jv, os: Seq<char>, env: Seq<(Seq<char>, Seq<char>)>)
    requires
        root is Obj,
        !keys_contain(root->Obj_0, globals_key()),
        !keys_contain(root->Obj_0, presets_key()),
        os_free(root),
        env_untouched(root, env),
    ensures
        spec_generate(root, os, env) == Option::Some((root, Option::None::<Jv>)),
{
    let es0 = root->Obj_0;
    assert(strip_globals(es0) == es0);
    lemma_lookup_index(es0, globals_key());
    assert(lookup(es0, globals_key()) is None);
    assert(spec_processed(es0, os, env) == interp_tree(prune(Jv::Obj(es0), os), env));
    lemma_prune_id(root, os);
    lemma_interp_tree_untouched(root, env);
    assert(spec_processed(es0, os, env) == root);
    lemma_lookup_index(es0, presets_key());
    assert(lookup(es0, presets_key()) is None);
    lemma_remove_key_id(es0, presets_key());
}

/// Round-trip idempotence: once an expansion's primary output carries no
/// globals dictionary, no side-document key, no platform key, and no
/// placeholder naming a set variable, running the expansion again returns
/// it unchanged, with no side document: a stable fixed point.
pub proof fn lemma_expand_fixed_point(
    root: Jv,
    os: Seq<char>,
    env: Seq<(Seq<char>, Seq<char>)>,
    primary: Jv,
    side: Option<Jv>,
)
    requires
        spec_generate(root, os, env) == Option::Some((primary, side)),
        primary is Obj,
        !keys_contain(primary->Obj_0, globals_key()),
        !keys_contain(primary->Obj_0, presets_key()),
        os_free(primary),
        env_untouched(primary, env),
    ensures
        spec_generate(primary, os, env) == Option::Some((primary, Option::None::<Jv>)),
{
    lemma_expand_identity(primary, os, env);
}

/// The processed tree of an object root is itself an object.
pub proof fn lemma_processed_is_obj(
    es0: Seq<(Seq<char>, Jv)>,
    os: Seq<char>,
    env: Seq<(Seq<char>, Seq<char>)>,
)
    ensures
        spec_processed(es0, os, env) is Obj,
{
    let es1 = strip_globals(es0);
    let after_subst = match lookup(es1, globals_key()) {
        Option::Some(Jv::Obj(g)) => subst(Jv::Obj(remove_key(es1, globals_key())), g, os),
        _ => Jv::Obj(es1),
    };
    assert(after_subst is Obj);
    assert(prune(after_subst, os) is Obj);
    assert(interp_tree(prune(after_subst, os), env) is Obj);
}

/// A root-level side-document directive's value never reaches the primary
/// output, and reaches the secondary output as exactly the value the
/// directive carried after the three passes.
pub proof fn lemma_side_document(root: Jv, os: Seq<char>, env: Seq<(Seq<char>, Seq<char>)>)
    requires
        root is Obj,
    ensures
        ({
            let done = spec_processed(root->Obj_0, os, env);
            let r = spec_generate(root, os, env);
            &&& r is Some
            &&& r.unwrap().0 is Obj
            &&& !keys_contain(r.unwrap().0->Obj_0, presets_key())
            &&& r.unwrap().1 == lookup(done->Obj_0, presets_key())
        }),
{
    let es0 = root->Obj_0;
    lemma_processed_is_obj(es0, os, env);
    let done = spec_processed(es0, os, env);
    lemma_remove_key_absent(done->Obj_0, presets_key());
}

/// The side document is byte-reproducible: rendered with any indentation
/// unit, it reads exactly as the rendering of the value the processed tree
/// carried under the side-document key.
pub proof fn lemma_side_document_bytes(
    root: Jv,
    os: Seq<char>,
    env: Seq<(Seq<char>, Seq<char>)>,
    ind: Seq<char>,
)
    requires
        root is Obj,
        spec_generate(root, os, env).unwrap().1 is Some,
    ensures
        ({
            let done = spec_processed(root->Obj_0, os, env);
            render(spec_generate(root, os, env).unwrap().1.unwrap(), ind, Seq::empty()) == render(
                lookup(done->Obj_0, presets_key()).unwrap(),
                ind,
                Seq::empty(),
            )
        }),
{
    lemma_side_document(root, os, env);
}

} // verus!
