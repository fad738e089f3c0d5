//! The expansion engine: token classification, directive stripping,
//! substitution, platform filtering, environment interpolation, and
//! side-document extraction.

use vstd::prelude::*;

use crate::interp::{env_view, interp_str, interp_string};
use crate::project::{find_last_slash, last_slash, lemma_last_slash, strings_view};
use crate::value::{
    clone_entries, elems_view, entries_view, key_index, keys_contain, lemma_elems_view,
    lemma_elems_view_push, lemma_entries_view, lemma_entries_view_push, lemma_lookup_index,
    lookup, obj_contains_key, obj_get, obj_remove_key, obj_upsert, remove_key, str_eq, upsert,
    Jv, Value,
};

verus! {

broadcast use vstd::seq::group_seq_axioms, vstd::std_specs::vec::group_vec_axioms;

/// The key of the substitution dictionary at the root.
pub open spec fn globals_key() -> Seq<char> {
    "gen.globals"@
}

/// The documentation-only key stripped from the globals tree.
pub open spec fn description_key() -> Seq<char> {
    "gen.description"@
}

/// The platform-allow-list key honoured on any object.
pub open spec fn os_key() -> Seq<char> {
    "gen.os"@
}

/// The root key whose value becomes the side document.
pub open spec fn presets_key() -> Seq<char> {
    "gen.cmakepresets"@
}

/// Classification of a whole string as a macro token.
/// The argument of each token is the key between the braces.
#[derive(Debug, PartialEq)]
pub enum TokenKind {
    /// The exact form `@{key}`: the string is replaced by the global wholesale.
    Nested(String),
    /// The exact form `@@{key}`: the global is spliced or merged into the
    /// surrounding container.
    Inplace(String),
    /// Anything else.
    NoToken,
}

/// The model of a [`TokenKind`].
pub enum Tok {
    Nested(Seq<char>),
    Inplace(Seq<char>),
    NoToken,
}

impl View for TokenKind {
    type V = Tok;

    open spec fn view(&self) -> Tok {
        match self {
            TokenKind::Nested(k) => Tok::Nested(k@),
            TokenKind::Inplace(k) => Tok::Inplace(k@),
            TokenKind::NoToken => Tok::NoToken,
        }
    }
}

/// What [`token_kind_from_str`] returns: the whole string must match
/// `@{key}` or `@@{key}` with a non-empty key; the empty-key forms and
/// everything else are no token.
pub open spec fn classify(s: Seq<char>) -> Tok {
    if s == "@{}"@ || s == "@@{}"@ {
        Tok::NoToken
    } else if s.len() >= 3 && s.subrange(0, 2) == "@{"@ && s.last() == '}' {
        Tok::Nested(s.subrange(2, s.len() - 1))
    } else if s.len() >= 4 && s.subrange(0, 3) == "@@{"@ && s.last() == '}' {
        Tok::Inplace(s.subrange(3, s.len() - 1))
    } else {
        Tok::NoToken
    }
}

/// Classifies a whole string as a macro token.
pub fn token_kind_from_str(s: &str) -> (r: TokenKind)
    ensures
        r@ == classify(s@),
{
    proof {
        reveal_strlit("@{}");
        reveal_strlit("@@{}");
        reveal_strlit("@{");
        reveal_strlit("@@{");
    }
    let n = s.unicode_len();
    if n >= 4 && s.get_char(0) == '@' && s.get_char(1) == '{' && s.get_char(n - 1) == '}' {
        proof {
            assert(s@.subrange(0, 2) =~= "@{"@);
            assert(s@ != "@{}"@);
            assert(s@ != "@@{}"@);
        }
        let key = s.substring_char(2, n - 1).to_owned();
        TokenKind::Nested(key)
    } else if n >= 5 && s.get_char(0) == '@' && s.get_char(1) == '@' && s.get_char(2) == '{'
        && s.get_char(n - 1) == '}' {
        proof {
            assert(s@.subrange(0, 3) =~= "@@{"@);
            assert(s@ != "@{}"@);
            assert(s@ != "@@{}"@);
            assert(s@.subrange(0, 2)[1] == '@');
            assert(s@.subrange(0, 2) != "@{"@);
        }
        let key = s.substring_char(3, n - 1).to_owned();
        TokenKind::Inplace(key)
    } else {
        proof {
            if !(s@ == "@{}"@ || s@ == "@@{}"@) {
                if s@.len() >= 3 && s@.subrange(0, 2) == "@{"@ && s@.last() == '}' {
                    assert(s@.subrange(0, 2)[0] == s@[0]);
                    assert(s@.subrange(0, 2)[1] == s@[1]);
                    assert(s@[0] == '@' && s@[1] == '{');
                    assert(s@.len() == 3);
                    assert(s@ =~= "@{}"@);
                }
                if s@.len() >= 4 && s@.subrange(0, 3) == "@@{"@ && s@.last() == '}' {
                    assert(s@.subrange(0, 3)[0] == s@[0]);
                    assert(s@.subrange(0, 3)[1] == s@[1]);
                    assert(s@.subrange(0, 3)[2] == s@[2]);
                    assert(s@[0] == '@' && s@[1] == '@' && s@[2] == '{');
                    assert(s@.len() == 4);
                    assert(s@ =~= "@@{}"@);
                }
            }
        }
        TokenKind::NoToken
    }
}

/// Classifies a value: only strings can be tokens.
pub open spec fn classify_value(v: Jv) -> Tok {
    match v {
        Jv::Str(s) => classify(s),
        _ => Tok::NoToken,
    }
}

/// Classifies a value: only strings can be tokens.
pub fn token_kind(value: &Value) -> (r: TokenKind)
    ensures
        r@ == classify_value(value@),
{
    match value {
        Value::Str(s) => token_kind_from_str(s.as_str()),
        _ => TokenKind::NoToken,
    }
}

/// Whether a value survives on the given platform: an object bearing the
/// platform key survives only if the key's value is the platform's name or a
/// list containing it; everything else always survives.
pub open spec fn allowed_in_os(v: Jv, os: Seq<char>) -> bool {
    match v {
        Jv::Obj(es) => match lookup(es, os_key()) {
            Option::Some(Jv::Arr(elems)) => exists|i: int|
                0 <= i < elems.len() && elems[i] == Jv::Str(os),
            Option::Some(Jv::Str(s)) => s == os,
            Option::Some(_) => false,
            Option::None => true,
        },
        _ => true,
    }
}

/// If an object carries the platform key, it is kept only when the current
/// platform equals the key's string value or is listed in its array value.
#[verifier::loop_isolation(false)]
pub fn is_allowed_in_os(value: &Value, current_os: &str) -> (r: bool)
    ensures
        r == allowed_in_os(value@, current_os@),
{
    match value {
        Value::Obj(es) => {
            match obj_get(es, "gen.os") {
                Option::Some(os_val) => match os_val {
                    Value::Arr(elems) => {
                        proof {
                            lemma_elems_view(elems@);
                        }
                        let mut i: usize = 0;
                        while i < elems.len()
                            invariant
                                i <= elems.len(),
                                forall|j: int|
                                    0 <= j < i ==> #[trigger] elems_view(elems@)[j] != Jv::Str(
                                        current_os@,
                                    ),
                            decreases elems.len() - i,
                        {
                            match &elems[i] {
                                Value::Str(s) => {
                                    proof {
                                        assert(elems@[i as int]@ == Jv::Str(s@));
                                        assert(elems_view(elems@)[i as int] == Jv::Str(s@));
                                    }
                                    if str_eq(s.as_str(), current_os) {
                                        return true;
                                    }
                                },
                                _ => {
                                    proof {
                                        assert(!(elems@[i as int]@ is Str));
                                        assert(!(elems_view(elems@)[i as int] is Str));
                                    }
                                },
                            }
                            i += 1;
                        }
                        false
                    },
                    Value::Str(s) => str_eq(s.as_str(), current_os),
                    _ => false,
                },
                Option::None => true,
            }
        },
        _ => true,
    }
}

/// The globals tree with every documentation entry removed.
pub open spec fn discard(v: Jv) -> Jv
    decreases v,
{
    match v {
        Jv::Obj(es) => Jv::Obj(discard_entries(es)),
        Jv::Arr(elems) => Jv::Arr(discard_elems(elems)),
        _ => v,
    }
}

pub open spec fn discard_entries(es: Seq<(Seq<char>, Jv)>) -> Seq<(Seq<char>, Jv)>
    decreases es,
{
    if es.len() == 0 {
        Seq::empty()
    } else {
        let front = discard_entries(es.drop_last());
        if es.last().0 == description_key() {
            front
        } else {
            front + seq![(es.last().0, discard(es.last().1))]
        }
    }
}

pub open spec fn discard_elems(elems: Seq<Jv>) -> Seq<Jv>
    decreases elems,
{
    if elems.len() == 0 {
        Seq::empty()
    } else {
        discard_elems(elems.drop_last()) + seq![discard(elems.last())]
    }
}

/// Removes the documentation key from every object of the tree, recursing
/// through arrays and object values.
#[verifier::loop_isolation(false)]
pub fn discard_descriptions(value: &Value) -> (r: Value)
    ensures
        r@ == discard(value@),
    decreases value,
{
    match value {
        Value::Null => Value::Null,
        Value::Bool(b) => Value::Bool(*b),
        Value::Num(n) => Value::Num(n.clone()),
        Value::Str(s) => Value::Str(s.clone()),
        Value::Arr(vs) => {
            let ghost m = elems_view(vs@);
            proof {
                lemma_elems_view(vs@);
            }
            let mut out: Vec<Value> = Vec::new();
            let mut i: usize = 0;
            while i < vs.len()
                invariant
                    i <= vs.len(),
                    elems_view(out@) == discard_elems(m.take(i as int)),
                decreases vs.len() - i,
            {
                let w = discard_descriptions(&vs[i]);
                proof {
                    assert(m.take(i + 1).drop_last() =~= m.take(i as int));
                    assert(m.take(i + 1).last() == vs@[i as int]@);
                    lemma_elems_view_push(out@, w);
                }
                out.push(w);
                i += 1;
            }
            proof {
                assert(m.take(vs@.len() as int) =~= m);
            }
            Value::Arr(out)
        },
        Value::Obj(es) => {
            let ghost m = entries_view(es@);
            proof {
                lemma_entries_view(es@);
            }
            let mut out: Vec<(String, Value)> = Vec::new();
            let mut i: usize = 0;
            while i < es.len()
                invariant
                    i <= es.len(),
                    entries_view(out@) == discard_entries(m.take(i as int)),
                decreases es.len() - i,
            {
                proof {
                    assert(m.take(i + 1).drop_last() =~= m.take(i as int));
                    assert(m.take(i + 1).last() == (es@[i as int].0@, es@[i as int].1@));
                }
                if !str_eq(es[i].0.as_str(), "gen.description") {
                    let k = es[i].0.clone();
                    let w = discard_descriptions(&es[i].1);
                    proof {
                        lemma_entries_view_push(out@, k, w);
                    }
                    out.push((k, w));
                }
                i += 1;
            }
            proof {
                assert(m.take(es@.len() as int) =~= m);
            }
            Value::Obj(out)
        },
    }
}

/// One substituted value: a string of form `@{key}` becomes the global named
/// `key` wholesale; everything else recurses; in-place tokens are handled by
/// the surrounding container, afterwards.
pub open spec fn subst(v: Jv, g: Seq<(Seq<char>, Jv)>, os: Seq<char>) -> Jv
    decreases v,
{
    match v {
        Jv::Str(s) => match classify(s) {
            Tok::Nested(k) => match lookup(g, k) {
                Option::Some(w) => w,
                Option::None => Jv::Str(s),
            },
            _ => Jv::Str(s),
        },
        Jv::Arr(elems) => Jv::Arr(splice(subst_elems(elems, g, os), g)),
        Jv::Obj(es) => {
            let sub = subst_entries(es, g, os);
            Jv::Obj(rebuild(sub, sub, g, os))
        },
        _ => v,
    }
}

/// Every array element substituted, before splicing.
pub open spec fn subst_elems(elems: Seq<Jv>, g: Seq<(Seq<char>, Jv)>, os: Seq<char>) -> Seq<Jv>
    decreases elems,
{
    if elems.len() == 0 {
        Seq::empty()
    } else {
        subst_elems(elems.drop_last(), g, os) + seq![subst(elems.last(), g, os)]
    }
}

/// Every object value substituted, keys untouched, before merging.
pub open spec fn subst_entries(
    es: Seq<(Seq<char>, Jv)>,
    g: Seq<(Seq<char>, Jv)>,
    os: Seq<char>,
) -> Seq<(Seq<char>, Jv)>
    decreases es,
{
    if es.len() == 0 {
        Seq::empty()
    } else {
        subst_entries(es.drop_last(), g, os) + seq![
            (es.last().0, subst(es.last().1, g, os)),
        ]
    }
}

/// What one already-substituted array element contributes: an in-place token
/// whose global is an array is spliced flat; one whose global is any other
/// value inserts that value; a missing global keeps the token text.
pub open spec fn splice_one(e: Jv, g: Seq<(Seq<char>, Jv)>) -> Seq<Jv> {
    match classify_value(e) {
        Tok::Inplace(k) => match lookup(g, k) {
            Option::Some(Jv::Arr(ws)) => ws,
            Option::Some(w) => seq![w],
            Option::None => seq![e],
        },
        _ => seq![e],
    }
}

/// An array rebuilt after substitution: each element contributes
/// [`splice_one`] of itself, in order.
pub open spec fn splice(elems: Seq<Jv>, g: Seq<(Seq<char>, Jv)>) -> Seq<Jv>
    decreases elems,
{
    if elems.len() == 0 {
        Seq::empty()
    } else {
        splice(elems.drop_last(), g) + splice_one(elems.last(), g)
    }
}

/// The merged entries of one global object: entries whose key the object
/// under rebuild already has are dropped, the rest are inserted in order.
pub open spec fn merge_globals(
    acc: Seq<(Seq<char>, Jv)>,
    ges: Seq<(Seq<char>, Jv)>,
    all: Seq<(Seq<char>, Jv)>,
) -> Seq<(Seq<char>, Jv)>
    decreases ges,
{
    if ges.len() == 0 {
        acc
    } else {
        let front = merge_globals(acc, ges.drop_last(), all);
        if keys_contain(all, ges.last().0) {
            front
        } else {
            upsert(front, ges.last().0, ges.last().1)
        }
    }
}

/// What one already-substituted object entry adds to the object under
/// rebuild: an in-place key whose global is a platform-incompatible value
/// adds nothing; one whose global is an object merges it; any other case
/// keeps the entry itself.
pub open spec fn merge_entry(
    acc: Seq<(Seq<char>, Jv)>,
    k: Seq<char>,
    v: Jv,
    all: Seq<(Seq<char>, Jv)>,
    g: Seq<(Seq<char>, Jv)>,
    os: Seq<char>,
) -> Seq<(Seq<char>, Jv)> {
    match classify(k) {
        Tok::Inplace(key) => match lookup(g, key) {
            Option::Some(w) => if !allowed_in_os(w, os) {
                acc
            } else {
                match w {
                    Jv::Obj(ges) => merge_globals(acc, ges, all),
                    _ => upsert(acc, k, v),
                }
            },
            Option::None => upsert(acc, k, v),
        },
        _ => upsert(acc, k, v),
    }
}

/// An object rebuilt after substitution: entries contribute left to right
/// through [`merge_entry`]; `all` holds the object's own entries, whose keys
/// always win over merged-in keys.
pub open spec fn rebuild(
    entries: Seq<(Seq<char>, Jv)>,
    all: Seq<(Seq<char>, Jv)>,
    g: Seq<(Seq<char>, Jv)>,
    os: Seq<char>,
) -> Seq<(Seq<char>, Jv)>
    decreases entries,
{
    if entries.len() == 0 {
        Seq::empty()
    } else {
        merge_entry(
            rebuild(entries.drop_last(), all, g, os),
            entries.last().0,
            entries.last().1,
            all,
            g,
            os,
        )
    }
}

/// The substitution pass: children are processed before their container, so
/// inner tokens resolve before outer in-place splices and merges; a missing
/// global is never fatal and leaves the literal token text in place.
#[verifier::loop_isolation(false)]
pub fn replace_nesteds(value: &Value, globals: &Vec<(String, Value)>, current_os: &str) -> (r:
    Value)
    ensures
        r@ == subst(value@, entries_view(globals@), current_os@),
    decreases value,
{
    let ghost g = entries_view(globals@);
    let ghost os = current_os@;
    match value {
        Value::Null => Value::Null,
        Value::Bool(b) => Value::Bool(*b),
        Value::Num(n) => Value::Num(n.clone()),
        Value::Str(s) => match token_kind_from_str(s.as_str()) {
            TokenKind::Nested(key) => match obj_get(globals, key.as_str()) {
                Option::Some(w) => w.clone(),
                Option::None => Value::Str(s.clone()),
            },
            _ => Value::Str(s.clone()),
        },
        Value::Arr(vs) => {
            let ghost m = elems_view(vs@);
            proof {
                lemma_elems_view(vs@);
            }
            let mut sub: Vec<Value> = Vec::new();
            let mut i: usize = 0;
            while i < vs.len()
                invariant
                    i <= vs.len(),
                    elems_view(sub@) == subst_elems(m.take(i as int), g, os),
                decreases vs.len() - i,
            {
                let w = replace_nesteds(&vs[i], globals, current_os);
                proof {
                    assert(m.take(i + 1).drop_last() =~= m.take(i as int));
                    assert(m.take(i + 1).last() == vs@[i as int]@);
                    lemma_elems_view_push(sub@, w);
                }
                sub.push(w);
                i += 1;
            }
            proof {
                assert(m.take(vs@.len() as int) =~= m);
            }
            let ghost sm = elems_view(sub@);
            proof {
                lemma_elems_view(sub@);
            }
            let mut out: Vec<Value> = Vec::new();
            let mut p: usize = 0;
            while p < sub.len()
                invariant
                    p <= sub.len(),
                    elems_view(out@) == splice(sm.take(p as int), g),
                decreases sub.len() - p,
            {
                proof {
                    assert(sm.take(p + 1).drop_last() =~= sm.take(p as int));
                    assert(sm.take(p + 1).last() == sub@[p as int]@);
                }
                match token_kind(&sub[p]) {
                    TokenKind::Inplace(key) => match obj_get(globals, key.as_str()) {
                        Option::Some(w) => match w {
                            Value::Arr(ws) => {
                                let ghost wm = elems_view(ws@);
                                let ghost base = elems_view(out@);
                                proof {
                                    lemma_elems_view(ws@);
                                    assert(splice_one(sm[p as int], g) == wm);
                                }
                                let mut j: usize = 0;
                                while j < ws.len()
                                    invariant
                                        j <= ws.len(),
                                        elems_view(out@) == base + wm.take(j as int),
                                    decreases ws.len() - j,
                                {
                                    let e = ws[j].clone();
                                    proof {
                                        lemma_elems_view_push(out@, e);
                                        assert(base + wm.take(j + 1) =~= (base + wm.take(j as int))
                                            + seq![ws@[j as int]@]);
                                    }
                                    out.push(e);
                                    j += 1;
                                }
                                proof {
                                    assert(wm.take(ws@.len() as int) =~= wm);
                                }
                            },
                            _ => {
                                let e = w.clone();
                                proof {
                                    assert(splice_one(sm[p as int], g) == seq![w@]);
                                    lemma_elems_view_push(out@, e);
                                }
                                out.push(e);
                            },
                        },
                        Option::None => {
                            let e = sub[p].clone();
                            proof {
                                assert(splice_one(sm[p as int], g) == seq![sm[p as int]]);
                                lemma_elems_view_push(out@, e);
                            }
                            out.push(e);
                        },
                    },
                    _ => {
                        let e = sub[p].clone();
                        proof {
                            assert(splice_one(sm[p as int], g) == seq![sm[p as int]]);
                            lemma_elems_view_push(out@, e);
                        }
                        out.push(e);
                    },
                }
                p += 1;
            }
            proof {
                assert(sm.take(sub@.len() as int) =~= sm);
            }
            Value::Arr(out)
        },
        Value::Obj(es) => {
            let ghost m = entries_view(es@);
            proof {
                lemma_entries_view(es@);
            }
            let mut sub: Vec<(String, Value)> = Vec::new();
            let mut i: usize = 0;
            while i < es.len()
                invariant
                    i <= es.len(),
                    entries_view(sub@) == subst_entries(m.take(i as int), g, os),
                decreases es.len() - i,
            {
                let k = es[i].0.clone();
                let w = replace_nesteds(&es[i].1, globals, current_os);
                proof {
                    assert(m.take(i + 1).drop_last() =~= m.take(i as int));
                    assert(m.take(i + 1).last() == (es@[i as int].0@, es@[i as int].1@));
                    lemma_entries_view_push(sub@, k, w);
                }
                sub.push((k, w));
                i += 1;
            }
            proof {
                assert(m.take(es@.len() as int) =~= m);
            }
            let ghost sm = entries_view(sub@);
            proof {
                lemma_entries_view(sub@);
            }
            let mut out: Vec<(String, Value)> = Vec::new();
            let mut p: usize = 0;
            while p < sub.len()
                invariant
                    p <= sub.len(),
                    entries_view(out@) == rebuild(sm.take(p as int), sm, g, os),
                decreases sub.len() - p,
            {
                proof {
                    assert(sm.take(p + 1).drop_last() =~= sm.take(p as int));
                    assert(sm.take(p + 1).last() == (sub@[p as int].0@, sub@[p as int].1@));
                }
                let ghost acc = entries_view(out@);
                match token_kind_from_str(sub[p].0.as_str()) {
                    TokenKind::Inplace(key) => match obj_get(globals, key.as_str()) {
                        Option::Some(w) => {
                            if is_allowed_in_os(w, current_os) {
                                match w {
                                    Value::Obj(ges) => {
                                        let ghost gm = entries_view(ges@);
                                        proof {
                                            lemma_entries_view(ges@);
                                            assert(merge_entry(
                                                acc,
                                                sm[p as int].0,
                                                sm[p as int].1,
                                                sm,
                                                g,
                                                os,
                                            ) == merge_globals(acc, gm, sm));
                                        }
                                        let mut j: usize = 0;
                                        while j < ges.len()
                                            invariant
                                                j <= ges.len(),
                                                entries_view(out@) == merge_globals(
                                                    acc,
                                                    gm.take(j as int),
                                                    sm,
                                                ),
                                            decreases ges.len() - j,
                                        {
                                            proof {
                                                assert(gm.take(j + 1).drop_last() =~= gm.take(
                                                    j as int,
                                                ));
                                                assert(gm.take(j + 1).last() == (
                                                    ges@[j as int].0@,
                                                    ges@[j as int].1@,
                                                ));
                                            }
                                            if !obj_contains_key(
                                                &sub,
                                                ges[j].0.as_str(),
                                            ) {
                                                let mk = ges[j].0.clone();
                                                let mv = ges[j].1.clone();
                                                obj_upsert(&mut out, mk, mv);
                                            }
                                            j += 1;
                                        }
                                        proof {
                                            assert(gm.take(ges@.len() as int) =~= gm);
                                        }
                                    },
                                    _ => {
                                        let k2 = sub[p].0.clone();
                                        let v2 = sub[p].1.clone();
                                        obj_upsert(&mut out, k2, v2);
                                    },
                                }
                            }
                        },
                        Option::None => {
                            let k2 = sub[p].0.clone();
                            let v2 = sub[p].1.clone();
                            obj_upsert(&mut out, k2, v2);
                        },
                    },
                    _ => {
                        let k2 = sub[p].0.clone();
                        let v2 = sub[p].1.clone();
                        obj_upsert(&mut out, k2, v2);
                    },
                }
                p += 1;
            }
            proof {
                assert(sm.take(sub@.len() as int) =~= sm);
            }
            Value::Obj(out)
        },
    }
}

/// The platform-filter pass on a tree: object entries and array elements
/// whose value fails [`allowed_in_os`] are dropped, the platform key itself
/// is removed from every object, and the pass recurses into the survivors.
pub open spec fn prune(v: Jv, os: Seq<char>) -> Jv
    decreases v,
{
    match v {
        Jv::Obj(es) => Jv::Obj(prune_entries(es, os)),
        Jv::Arr(elems) => Jv::Arr(prune_elems(elems, os)),
        _ => v,
    }
}

pub open spec fn prune_entries(es: Seq<(Seq<char>, Jv)>, os: Seq<char>) -> Seq<(Seq<char>, Jv)>
    decreases es,
{
    if es.len() == 0 {
        Seq::empty()
    } else {
        let front = prune_entries(es.drop_last(), os);
        if allowed_in_os(es.last().1, os) && es.last().0 != os_key() {
            front + seq![(es.last().0, prune(es.last().1, os))]
        } else {
            front
        }
    }
}

pub open spec fn prune_elems(elems: Seq<Jv>, os: Seq<char>) -> Seq<Jv>
    decreases elems,
{
    if elems.len() == 0 {
        Seq::empty()
    } else {
        let front = prune_elems(elems.drop_last(), os);
        if allowed_in_os(elems.last(), os) {
            front + seq![prune(elems.last(), os)]
        } else {
            front
        }
    }
}

/// Honours the platform key over the whole tree, after substitution: filters
/// each container's children by [`is_allowed_in_os`], removes the platform
/// key itself, and recurses into what remains.
#[verifier::loop_isolation(false)]
pub fn remove_incompatible_os(value: &Value, current_os: &str) -> (r: Value)
    ensures
        r@ == prune(value@, current_os@),
    decreases value,
{
    let ghost os = current_os@;
    match value {
        Value::Null => Value::Null,
        Value::Bool(b) => Value::Bool(*b),
        Value::Num(n) => Value::Num(n.clone()),
        Value::Str(s) => Value::Str(s.clone()),
        Value::Arr(vs) => {
            let ghost m = elems_view(vs@);
            proof {
                lemma_elems_view(vs@);
            }
            let mut out: Vec<Value> = Vec::new();
            let mut i: usize = 0;
            while i < vs.len()
                invariant
                    i <= vs.len(),
                    elems_view(out@) == prune_elems(m.take(i as int), os),
                decreases vs.len() - i,
            {
                proof {
                    assert(m.take(i + 1).drop_last() =~= m.take(i as int));
                    assert(m.take(i + 1).last() == vs@[i as int]@);
                }
                if is_allowed_in_os(&vs[i], current_os) {
                    let w = remove_incompatible_os(&vs[i], current_os);
                    proof {
                        lemma_elems_view_push(out@, w);
                    }
                    out.push(w);
                }
                i += 1;
            }
            proof {
                assert(m.take(vs@.len() as int) =~= m);
            }
            Value::Arr(out)
        },
        Value::Obj(es) => {
            let ghost m = entries_view(es@);
            proof {
                lemma_entries_view(es@);
            }
            let mut out: Vec<(String, Value)> = Vec::new();
            let mut i: usize = 0;
            while i < es.len()
                invariant
                    i <= es.len(),
                    entries_view(out@) == prune_entries(m.take(i as int), os),
                decreases es.len() - i,
            {
                proof {
                    assert(m.take(i + 1).drop_last() =~= m.take(i as int));
                    assert(m.take(i + 1).last() == (es@[i as int].0@, es@[i as int].1@));
                }
                if is_allowed_in_os(&es[i].1, current_os) && !str_eq(es[i].0.as_str(), "gen.os") {
                    let k = es[i].0.clone();
                    let w = remove_incompatible_os(&es[i].1, current_os);
                    proof {
                        lemma_entries_view_push(out@, k, w);
                    }
                    out.push((k, w));
                }
                i += 1;
            }
            proof {
                assert(m.take(es@.len() as int) =~= m);
            }
            Value::Obj(out)
        },
    }
}

/// The environment-interpolation pass on a tree: every string leaf is
/// interpolated; keys and non-string leaves stay as they are.
pub open spec fn interp_tree(v: Jv, env: Seq<(Seq<char>, Seq<char>)>) -> Jv
    decreases v,
{
    match v {
        Jv::Str(s) => Jv::Str(interp_str(s, env)),
        Jv::Arr(elems) => Jv::Arr(interp_elems(elems, env)),
        Jv::Obj(es) => Jv::Obj(interp_entries(es, env)),
        _ => v,
    }
}

pub open spec fn interp_elems(elems: Seq<Jv>, env: Seq<(Seq<char>, Seq<char>)>) -> Seq<Jv>
    decreases elems,
{
    if elems.len() == 0 {
        Seq::empty()
    } else {
        interp_elems(elems.drop_last(), env) + seq![interp_tree(elems.last(), env)]
    }
}

pub open spec fn interp_entries(
    es: Seq<(Seq<char>, Jv)>,
    env: Seq<(Seq<char>, Seq<char>)>,
) -> Seq<(Seq<char>, Jv)>
    decreases es,
{
    if es.len() == 0 {
        Seq::empty()
    } else {
        interp_entries(es.drop_last(), env) + seq![
            (es.last().0, interp_tree(es.last().1, env)),
        ]
    }
}

/// Replaces `$${NAME}` placeholders in every string leaf of the tree with
/// the named entry of the environment snapshot, where it holds one.
#[verifier::loop_isolation(false)]
pub fn replace_env_vars(value: &Value, env: &Vec<(String, String)>) -> (r: Value)
    ensures
        r@ == interp_tree(value@, env_view(env@)),
    decreases value,
{
    let ghost em = env_view(env@);
    match value {
        Value::Null => Value::Null,
        Value::Bool(b) => Value::Bool(*b),
        Value::Num(n) => Value::Num(n.clone()),
        Value::Str(s) => Value::Str(interp_string(s.as_str(), env)),
        Value::Arr(vs) => {
            let ghost m = elems_view(vs@);
            proof {
                lemma_elems_view(vs@);
            }
            let mut out: Vec<Value> = Vec::new();
            let mut i: usize = 0;
            while i < vs.len()
                invariant
                    i <= vs.len(),
                    elems_view(out@) == interp_elems(m.take(i as int), em),
                decreases vs.len() - i,
            {
                let w = replace_env_vars(&vs[i], env);
                proof {
                    assert(m.take(i + 1).drop_last() =~= m.take(i as int));
                    assert(m.take(i + 1).last() == vs@[i as int]@);
                    lemma_elems_view_push(out@, w);
                }
                out.push(w);
                i += 1;
            }
            proof {
                assert(m.take(vs@.len() as int) =~= m);
            }
            Value::Arr(out)
        },
        Value::Obj(es) => {
            let ghost m = entries_view(es@);
            proof {
                lemma_entries_view(es@);
            }
            let mut out: Vec<(String, Value)> = Vec::new();
            let mut i: usize = 0;
            while i < es.len()
                invariant
                    i <= es.len(),
                    entries_view(out@) == interp_entries(m.take(i as int), em),
                decreases es.len() - i,
            {
                let k = es[i].0.clone();
                let w = replace_env_vars(&es[i].1, env);
                proof {
                    assert(m.take(i + 1).drop_last() =~= m.take(i as int));
                    assert(m.take(i + 1).last() == (es@[i as int].0@, es@[i as int].1@));
                    lemma_entries_view_push(out@, k, w);
                }
                out.push((k, w));
                i += 1;
            }
            proof {
                assert(m.take(es@.len() as int) =~= m);
            }
            Value::Obj(out)
        },
    }
}

/// The root's entries with the documentation keys stripped from the globals
/// subtree: the first entry keyed `gen.globals`, if any, has its value
/// cleaned by [`discard`]; nothing else changes.
pub open spec fn strip_globals(es: Seq<(Seq<char>, Jv)>) -> Seq<(Seq<char>, Jv)> {
    if keys_contain(es, globals_key()) {
        let i = key_index(es, globals_key());
        es.update(i, (es[i].0, discard(es[i].1)))
    } else {
        es
    }
}

/// The fully processed tree, before side-document extraction: descriptions
/// stripped from the globals subtree, the globals dictionary (when its value
/// is an object) detached and substituted through the rest, the platform
/// filter applied, and environment placeholders interpolated.
pub open spec fn spec_processed(
    es0: Seq<(Seq<char>, Jv)>,
    os: Seq<char>,
    env: Seq<(Seq<char>, Seq<char>)>,
) -> Jv {
    let es1 = strip_globals(es0);
    let after_subst = match lookup(es1, globals_key()) {
        Option::Some(Jv::Obj(g)) => subst(Jv::Obj(remove_key(es1, globals_key())), g, os),
        _ => Jv::Obj(es1),
    };
    interp_tree(prune(after_subst, os), env)
}

/// The whole expansion: `None` when the root is no object; otherwise the
/// primary output and the extracted side document, if any.
pub open spec fn spec_generate(root: Jv, os: Seq<char>, env: Seq<(Seq<char>, Seq<char>)>) -> Option<
    (Jv, Option<Jv>),
> {
    match root {
        Jv::Obj(es0) => {
            let done = spec_processed(es0, os, env);
            match done {
                Jv::Obj(fes) => Option::Some(
                    (Jv::Obj(remove_key(fes, presets_key())), lookup(fes, presets_key())),
                ),
                _ => Option::Some((done, Option::None)),
            }
        },
        _ => Option::None,
    }
}

/// The model of an optional value.
pub open spec fn opt_view(o: Option<Value>) -> Option<Jv> {
    match o {
        Option::Some(v) => Option::Some(v@),
        Option::None => Option::None,
    }
}

/// What can go wrong during an expansion on an already parsed tree.
#[derive(Debug, PartialEq, Eq, Structural)]
pub enum Error {
    /// The template's root is not a JSON object.
    ExpectedRootObject,
}

/// The outcome of an expansion: the primary document and, when the root
/// carried the side-document key, the extracted side document.
#[derive(Debug)]
pub struct Generated {
    /// The primary output tree.
    pub json: Value,
    /// The extracted side document, to be written separately.
    pub cmake_presets: Option<Value>,
}

/// Expands a parsed template tree: strips descriptions from the globals
/// subtree, detaches the globals dictionary and substitutes its entries
/// through the tree, prunes platform-incompatible nodes, interpolates
/// environment placeholders from the given snapshot, and extracts the side
/// document.  Fails exactly when the root is no object.
#[verifier::loop_isolation(false)]
pub fn generate_from_value(root: &Value, current_os: &str, env: &Vec<(String, String)>) -> (r:
    Result<Generated, Error>)
    ensures
        match r {
            Result::Ok(g) => root@ is Obj && spec_generate(root@, current_os@, env_view(env@))
                == Option::Some((g.json@, opt_view(g.cmake_presets))),
            Result::Err(e) => !(root@ is Obj) && e == Error::ExpectedRootObject,
        },
{
    let es0 = match root {
        Value::Obj(es) => es,
        _ => {
            return Result::Err(Error::ExpectedRootObject);
        },
    };
    let ghost m = entries_view(es0@);
    proof {
        lemma_entries_view(es0@);
        lemma_lookup_index(m, globals_key());
    }
    let ghost target = strip_globals(m);

    // Strip documentation keys inside the globals subtree.
    let mut stripped: Vec<(String, Value)> = Vec::new();
    let mut i: usize = 0;
    let mut replaced = false;
    while i < es0.len()
        invariant
            i <= es0.len(),
            target.len() == m.len(),
            stripped@.len() == i as int,
            replaced == keys_contain(m.take(i as int), globals_key()),
            forall|j: int| 0 <= j < i ==> entries_view(stripped@)[j] == target[j],
        decreases es0.len() - i,
    {
        proof {
            lemma_entries_view(stripped@);
        }
        let hit = !replaced && str_eq(es0[i].0.as_str(), "gen.globals");
        let k = es0[i].0.clone();
        let v = if hit {
            discard_descriptions(&es0[i].1)
        } else {
            es0[i].1.clone()
        };
        proof {
            lemma_entries_view_push(stripped@, k, v);
            assert(m.take(i + 1) =~= m.take(i as int).push(m[i as int]));
            if hit {
                assert(m[i as int].0 == globals_key());
                assert forall|j: int| 0 <= j < i implies m[j].0 != globals_key() by {
                    assert(m.take(i as int)[j] == m[j]);
                }
                assert(keys_contain(m, globals_key()));
                assert(key_index(m, globals_key()) == i as int);
                assert(target[i as int] == (m[i as int].0, discard(m[i as int].1)));
            } else {
                if replaced {
                    let w = choose|w: int|
                        0 <= w < i && (#[trigger] m.take(i as int)[w]).0 == globals_key();
                    assert(m[w].0 == globals_key());
                    assert(keys_contain(m, globals_key()));
                    assert(key_index(m, globals_key()) <= w);
                    assert(key_index(m, globals_key()) != i);
                } else {
                    assert(m[i as int].0 != globals_key());
                    if keys_contain(m, globals_key()) {
                        assert(key_index(m, globals_key()) != i);
                    }
                }
                assert(target[i as int] == m[i as int]);
            }
            if m[i as int].0 == globals_key() {
                assert(m.take(i + 1)[i as int].0 == globals_key());
                assert(keys_contain(m.take(i + 1), globals_key()));
            }
            if keys_contain(m.take(i + 1), globals_key()) && m[i as int].0 != globals_key()
                && !replaced {
                let w = choose|w: int|
                    0 <= w < i + 1 && (#[trigger] m.take(i + 1)[w]).0 == globals_key();
                assert(m.take(i as int)[w] == m[w]);
            }
        }
        stripped.push((k, v));
        replaced = replaced || hit;
        i += 1;
    }
    proof {
        lemma_entries_view(stripped@);
        assert(m.take(es0@.len() as int) =~= m);
        assert(entries_view(stripped@) =~= target);
    }

    // Detach the globals dictionary, when its value is an object, and run
    // the substitution pass with it.
    proof {
        lemma_lookup_index(target, globals_key());
    }
    let substituted = match obj_get(&stripped, "gen.globals") {
        Option::Some(gv) => match gv {
            Value::Obj(ges) => {
                let globals = clone_entries(ges);
                let detached = obj_remove_key(&stripped, "gen.globals");
                let root_detached = Value::Obj(detached);
                replace_nesteds(&root_detached, &globals, current_os)
            },
            _ => Value::Obj(stripped),
        },
        Option::None => Value::Obj(stripped),
    };

    // Platform filter, then environment interpolation.
    let pruned = remove_incompatible_os(&substituted, current_os);
    let done = replace_env_vars(&pruned, env);

    // Extract the side document.
    let fes = match done {
        Value::Obj(fes) => fes,
        _ => {
            proof {
                assert(spec_processed(m, current_os@, env_view(env@)) is Obj);
            }
            return Result::Err(Error::ExpectedRootObject);
        },
    };
    proof {
        lemma_lookup_index(entries_view(fes@), presets_key());
    }
    let side = match obj_get(&fes, "gen.cmakepresets") {
        Option::Some(w) => Option::Some(w.clone()),
        Option::None => Option::None,
    };
    let primary = obj_remove_key(&fes, "gen.cmakepresets");
    Result::Ok(Generated { json: Value::Obj(primary), cmake_presets: side })
}

/// One diagnostic of the substitution pass.
#[derive(Debug, PartialEq)]
pub enum Diagnostic {
    /// A macro token named a key the globals dictionary lacks; the literal
    /// token text stays in the output.
    MissingKey(String),
    /// An in-place object key named a global that is no object; the literal
    /// entry stays in the output.
    NotAnObject,
}

/// The model of a [`Diagnostic`].
pub enum DiagV {
    MissingKey(Seq<char>),
    NotAnObject,
}

impl View for Diagnostic {
    type V = DiagV;

    open spec fn view(&self) -> DiagV {
        match self {
            Diagnostic::MissingKey(k) => DiagV::MissingKey(k@),
            Diagnostic::NotAnObject => DiagV::NotAnObject,
        }
    }
}

/// The model of a list of diagnostics.
pub open spec fn diags_view(ds: Seq<Diagnostic>) -> Seq<DiagV> {
    Seq::new(ds.len(), |i: int| ds[i]@)
}

/// What one already-substituted array element reports during splicing: an
/// in-place token whose key the globals lack.
pub open spec fn splice_diag_one(e: Jv, g: Seq<(Seq<char>, Jv)>) -> Seq<DiagV> {
    match classify_value(e) {
        Tok::Inplace(k) => if lookup(g, k) is None {
            seq![DiagV::MissingKey(k)]
        } else {
            Seq::empty()
        },
        _ => Seq::empty(),
    }
}

pub open spec fn splice_diags(subbed: Seq<Jv>, g: Seq<(Seq<char>, Jv)>) -> Seq<DiagV>
    decreases subbed,
{
    if subbed.len() == 0 {
        Seq::empty()
    } else {
        splice_diags(subbed.drop_last(), g) + splice_diag_one(subbed.last(), g)
    }
}

/// What one object key reports during merging: an in-place key whose global
/// is missing, or one whose platform-compatible global is no object.
pub open spec fn merge_diag_one(k: Seq<char>, g: Seq<(Seq<char>, Jv)>, os: Seq<char>) -> Seq<
    DiagV,
> {
    match classify(k) {
        Tok::Inplace(kk) => match lookup(g, kk) {
            Option::None => seq![DiagV::MissingKey(kk)],
            Option::Some(w) => if !allowed_in_os(w, os) {
                Seq::empty()
            } else if w is Obj {
                Seq::empty()
            } else {
                seq![DiagV::NotAnObject]
            },
        },
        _ => Seq::empty(),
    }
}

pub open spec fn merge_diags(
    es: Seq<(Seq<char>, Jv)>,
    g: Seq<(Seq<char>, Jv)>,
    os: Seq<char>,
) -> Seq<DiagV>
    decreases es,
{
    if es.len() == 0 {
        Seq::empty()
    } else {
        merge_diags(es.drop_last(), g, os) + merge_diag_one(es.last().0, g, os)
    }
}

/// The diagnostics [`replace_nesteds`] gives rise to, in the order the pass
/// meets them: a string leaf reports a missing nested global; an array
/// first reports its elements' diagnostics, then its splice phase reports
/// in-place tokens among the substituted elements; an object first reports
/// its values' diagnostics, then its merge phase reports each key.
pub open spec fn subst_diags(v: Jv, g: Seq<(Seq<char>, Jv)>, os: Seq<char>) -> Seq<DiagV>
    decreases v,
{
    match v {
        Jv::Str(s) => match classify(s) {
            Tok::Nested(k) => if lookup(g, k) is None {
                seq![DiagV::MissingKey(k)]
            } else {
                Seq::empty()
            },
            _ => Seq::empty(),
        },
        Jv::Arr(elems) => subst_diags_elems(elems, g, os) + splice_diags(
            subst_elems(elems, g, os),
            g,
        ),
        Jv::Obj(es) => subst_diags_entries(es, g, os) + merge_diags(es, g, os),
        _ => Seq::empty(),
    }
}

pub open spec fn subst_diags_elems(
    elems: Seq<Jv>,
    g: Seq<(Seq<char>, Jv)>,
    os: Seq<char>,
) -> Seq<DiagV>
    decreases elems,
{
    if elems.len() == 0 {
        Seq::empty()
    } else {
        subst_diags_elems(elems.drop_last(), g, os) + subst_diags(elems.last(), g, os)
    }
}

pub open spec fn subst_diags_entries(
    es: Seq<(Seq<char>, Jv)>,
    g: Seq<(Seq<char>, Jv)>,
    os: Seq<char>,
) -> Seq<DiagV>
    decreases es,
{
    if es.len() == 0 {
        Seq::empty()
    } else {
        subst_diags_entries(es.drop_last(), g, os) + subst_diags(es.last().1, g, os)
    }
}

pub proof fn lemma_subst_elems(elems: Seq<Jv>, g: Seq<(Seq<char>, Jv)>, os: Seq<char>)
    ensures
        subst_elems(elems, g, os).len() == elems.len(),
        forall|i: int|
            0 <= i < elems.len() ==> subst_elems(elems, g, os)[i] == subst(
                #[trigger] elems[i],
                g,
                os,
            ),
    decreases elems.len(),
{
    if elems.len() > 0 {
        lemma_subst_elems(elems.drop_last(), g, os);
        assert(subst_elems(elems, g, os) == subst_elems(elems.drop_last(), g, os) + seq![
            subst(elems.last(), g, os),
        ]);
        assert forall|i: int|
            0 <= i < elems.len() implies subst_elems(elems, g, os)[i] == subst(
            #[trigger] elems[i],
            g,
            os,
        ) by {
            if i < elems.len() - 1 {
                assert(elems.drop_last()[i] == elems[i]);
            }
        }
    }
}

/// The diagnostics of the substitution pass on this tree, as
/// [`subst_diags`] lists them.  Resolution failure is never fatal; callers
/// may report these.
#[verifier::loop_isolation(false)]
pub fn substitution_diagnostics(
    value: &Value,
    globals: &Vec<(String, Value)>,
    current_os: &str,
) -> (r: Vec<Diagnostic>)
    ensures
        diags_view(r@) == subst_diags(value@, entries_view(globals@), current_os@),
    decreases value,
{
    let ghost g = entries_view(globals@);
    let ghost os = current_os@;
    let mut out: Vec<Diagnostic> = Vec::new();
    match value {
        Value::Null => {},
        Value::Bool(_) => {},
        Value::Num(_) => {},
        Value::Str(s) => {
            match token_kind_from_str(s.as_str()) {
                TokenKind::Nested(key) => {
                    if obj_get(globals, key.as_str()).is_none() {
                        out.push(Diagnostic::MissingKey(key));
                    }
                },
                _ => {},
            }
            proof {
                assert(diags_view(out@) =~= subst_diags(value@, g, os));
            }
        },
        Value::Arr(vs) => {
            let ghost m = elems_view(vs@);
            proof {
                lemma_elems_view(vs@);
                lemma_subst_elems(m, g, os);
            }
            let mut i: usize = 0;
            while i < vs.len()
                invariant
                    i <= vs.len(),
                    diags_view(out@) == subst_diags_elems(m.take(i as int), g, os),
                decreases vs.len() - i,
            {
                proof {
                    assert(m.take(i + 1).drop_last() =~= m.take(i as int));
                    assert(m.take(i + 1).last() == vs@[i as int]@);
                }
                let ghost base = diags_view(out@);
                let found = substitution_diagnostics(&vs[i], globals, current_os);
                let mut j: usize = 0;
                while j < found.len()
                    invariant
                        j <= found.len(),
                        diags_view(found@) == subst_diags(vs@[i as int]@, g, os),
                        diags_view(out@) == base + diags_view(found@).take(j as int),
                    decreases found.len() - j,
                {
                    let ghost pre = out@;
                    let d = match &found[j] {
                        Diagnostic::MissingKey(k) => Diagnostic::MissingKey(k.clone()),
                        Diagnostic::NotAnObject => Diagnostic::NotAnObject,
                    };
                    out.push(d);
                    proof {
                        assert(diags_view(out@) =~= diags_view(pre) + seq![found@[j as int]@]);
                        assert(diags_view(found@).take(j + 1) =~= diags_view(found@).take(
                            j as int,
                        ) + seq![found@[j as int]@]);
                        assert(diags_view(out@) =~= base + diags_view(found@).take(j + 1));
                    }
                    j += 1;
                }
                proof {
                    assert(diags_view(found@).take(found@.len() as int) =~= subst_diags(
                        vs@[i as int]@,
                        g,
                        os,
                    ));
                }
                i += 1;
            }
            proof {
                assert(m.take(vs@.len() as int) =~= m);
            }
            let ghost sm = subst_elems(m, g, os);
            let ghost phase1 = diags_view(out@);
            let mut p: usize = 0;
            while p < vs.len()
                invariant
                    p <= vs.len(),
                    diags_view(out@) == phase1 + splice_diags(sm.take(p as int), g),
                decreases vs.len() - p,
            {
                proof {
                    assert(sm.take(p + 1).drop_last() =~= sm.take(p as int));
                    assert(sm.take(p + 1).last() == sm[p as int]);
                    assert(sm[p as int] == subst(vs@[p as int]@, g, os));
                }
                let sub_el = replace_nesteds(&vs[p], globals, current_os);
                match token_kind(&sub_el) {
                    TokenKind::Inplace(key) => {
                        if obj_get(globals, key.as_str()).is_none() {
                            let ghost pre = out@;
                            let ghost gk = key@;
                            out.push(Diagnostic::MissingKey(key));
                            proof {
                                assert(diags_view(out@) =~= diags_view(pre) + seq![
                                    DiagV::MissingKey(gk),
                                ]);
                                assert(splice_diag_one(sm[p as int], g) == seq![
                                    DiagV::MissingKey(gk),
                                ]);
                            }
                        } else {
                            proof {
                                assert(splice_diag_one(sm[p as int], g) =~= Seq::<DiagV>::empty());
                                assert(diags_view(out@) =~= diags_view(out@) + splice_diag_one(
                                    sm[p as int],
                                    g,
                                ));
                            }
                        }
                    },
                    _ => {
                        proof {
                            assert(splice_diag_one(sm[p as int], g) =~= Seq::<DiagV>::empty());
                            assert(diags_view(out@) =~= diags_view(out@) + splice_diag_one(
                                sm[p as int],
                                g,
                            ));
                        }
                    },
                }
                p += 1;
            }
            proof {
                assert(sm.take(vs@.len() as int) =~= sm);
            }
        },
        Value::Obj(es) => {
            let ghost m = entries_view(es@);
            proof {
                lemma_entries_view(es@);
            }
            let mut i: usize = 0;
            while i < es.len()
                invariant
                    i <= es.len(),
                    diags_view(out@) == subst_diags_entries(m.take(i as int), g, os),
                decreases es.len() - i,
            {
                proof {
                    assert(m.take(i + 1).drop_last() =~= m.take(i as int));
                    assert(m.take(i + 1).last() == (es@[i as int].0@, es@[i as int].1@));
                }
                let ghost base = diags_view(out@);
                let found = substitution_diagnostics(&es[i].1, globals, current_os);
                let mut j: usize = 0;
                while j < found.len()
                    invariant
                        j <= found.len(),
                        diags_view(found@) == subst_diags(es@[i as int].1@, g, os),
                        diags_view(out@) == base + diags_view(found@).take(j as int),
                    decreases found.len() - j,
                {
                    let ghost pre = out@;
                    let d = match &found[j] {
                        Diagnostic::MissingKey(k) => Diagnostic::MissingKey(k.clone()),
                        Diagnostic::NotAnObject => Diagnostic::NotAnObject,
                    };
                    out.push(d);
                    proof {
                        assert(diags_view(out@) =~= diags_view(pre) + seq![found@[j as int]@]);
                        assert(diags_view(found@).take(j + 1) =~= diags_view(found@).take(
                            j as int,
                        ) + seq![found@[j as int]@]);
                        assert(diags_view(out@) =~= base + diags_view(found@).take(j + 1));
                    }
                    j += 1;
                }
                proof {
                    assert(diags_view(found@).take(found@.len() as int) =~= subst_diags(
                        es@[i as int].1@,
                        g,
                        os,
                    ));
                }
                i += 1;
            }
            proof {
                assert(m.take(es@.len() as int) =~= m);
            }
            let ghost phase1 = diags_view(out@);
            let mut p: usize = 0;
            while p < es.len()
                invariant
                    p <= es.len(),
                    diags_view(out@) == phase1 + merge_diags(m.take(p as int), g, os),
                decreases es.len() - p,
            {
                proof {
                    assert(m.take(p + 1).drop_last() =~= m.take(p as int));
                    assert(m.take(p + 1).last() == (es@[p as int].0@, es@[p as int].1@));
                }
                match token_kind_from_str(es[p].0.as_str()) {
                    TokenKind::Inplace(key) => {
                        match obj_get(globals, key.as_str()) {
                            Option::None => {
                                let ghost pre = out@;
                                let ghost gk = key@;
                                out.push(Diagnostic::MissingKey(key));
                                proof {
                                    assert(diags_view(out@) =~= diags_view(pre) + seq![
                                        DiagV::MissingKey(gk),
                                    ]);
                                    assert(merge_diag_one(es@[p as int].0@, g, os) == seq![
                                        DiagV::MissingKey(gk),
                                    ]);
                                }
                            },
                            Option::Some(w) => {
                                let bad = is_allowed_in_os(w, current_os) && !(match w {
                                    Value::Obj(_) => true,
                                    _ => false,
                                });
                                if bad {
                                    let ghost pre = out@;
                                    out.push(Diagnostic::NotAnObject);
                                    proof {
                                        assert(diags_view(out@) =~= diags_view(pre) + seq![
                                            DiagV::NotAnObject,
                                        ]);
                                        assert(merge_diag_one(es@[p as int].0@, g, os) == seq![
                                            DiagV::NotAnObject,
                                        ]);
                                    }
                                } else {
                                    proof {
                                        assert(merge_diag_one(es@[p as int].0@, g, os)
                                            =~= Seq::<DiagV>::empty());
                                        assert(diags_view(out@) =~= diags_view(out@)
                                            + merge_diag_one(es@[p as int].0@, g, os));
                                    }
                                }
                            },
                        }
                    },
                    _ => {
                        proof {
                            assert(merge_diag_one(es@[p as int].0@, g, os) =~= Seq::<
                                DiagV,
                            >::empty());
                            assert(diags_view(out@) =~= diags_view(out@) + merge_diag_one(
                                es@[p as int].0@,
                                g,
                                os,
                            ));
                        }
                    },
                }
                p += 1;
            }
            proof {
                assert(m.take(es@.len() as int) =~= m);
            }
        },
    }
    out
}

/// The string with every occurrence of the pattern removed, scanning left
/// to right without overlap.
pub open spec fn strip_pattern(s: Seq<char>, pat: Seq<char>) -> Seq<char>
    decreases s.len()
        when pat.len() > 0
{
    if s.len() == 0 {
        Seq::empty()
    } else if s.len() >= pat.len() && s.subrange(0, pat.len() as int) == pat {
        strip_pattern(s.subrange(pat.len() as int, s.len() as int), pat)
    } else {
        seq![s[0]] + strip_pattern(s.drop_first(), pat)
    }
}

/// The component after the last `/`.
pub open spec fn file_name_of(p: Seq<char>) -> Seq<char> {
    p.subrange(last_slash(p) + 1, p.len() as int)
}

/// Suggests an output name for a template file: its file name with every
/// `.template` part removed.
#[verifier::loop_isolation(false)]
pub fn suggest_output_filename(template_filename: &str) -> (r: String)
    requires
        template_filename@.len() > 0,
        template_filename@.last() != '/',
    ensures
        r@ == strip_pattern(file_name_of(template_filename@), ".template"@),
{
    proof {
        reveal_strlit(".template");
        lemma_last_slash(template_filename@);
    }
    let n = template_filename.unicode_len();
    let mut ls: usize = 0;
    let mut found = false;
    let mut i: usize = 0;
    while i < n
        invariant
            i <= n,
            n == template_filename@.len(),
            found ==> ls < i && template_filename@[ls as int] == '/',
            forall|t: int| 0 <= t < i && template_filename@[t] == '/' ==> found && t <= ls,
        decreases n - i,
    {
        if template_filename.get_char(i) == '/' {
            ls = i;
            found = true;
        }
        i += 1;
    }
    proof {
        if found {
            assert(last_slash(template_filename@) == ls as int);
        } else {
            assert(last_slash(template_filename@) == -1) by {
                if last_slash(template_filename@) >= 0 {
                    assert(template_filename@[last_slash(template_filename@)]
                        == '/');
                }
            }
        }
    }
    let start = if found {
        ls + 1
    } else {
        0
    };
    let name = template_filename.substring_char(start, n);
    let ghost nm = name@;
    proof {
        assert(nm =~= file_name_of(template_filename@));
    }
    let m = name.unicode_len();
    let mut out = String::new();
    let mut j: usize = 0;
    proof {
        assert(nm.subrange(0, m as int) =~= nm);
        assert(Seq::<char>::empty() + strip_pattern(nm, ".template"@) =~= strip_pattern(
            nm,
            ".template"@,
        ));
    }
    while j < m
        invariant
            j <= m,
            m == nm.len(),
            out@ + strip_pattern(nm.subrange(j as int, m as int), ".template"@) == strip_pattern(
                nm,
                ".template"@,
            ),
        decreases m - j,
    {
        let ghost sub = nm.subrange(j as int, m as int);
        let ghost pre = out@;
        let hit = m - j >= 9 && str_eq(name.substring_char(j, j + 9), ".template");
        if hit {
            proof {
                assert(sub.subrange(0, 9) =~= nm.subrange(j as int, j + 9));
                assert(sub.subrange(9, sub.len() as int) =~= nm.subrange(j + 9, m as int));
            }
            j += 9;
        } else {
            proof {
                if sub.len() >= 9 {
                    assert(nm.subrange(j as int, j + 9) =~= sub.subrange(0, 9));
                }
                assert(sub.drop_first() =~= nm.subrange(j + 1, m as int));
            }
            let c = name.substring_char(j, j + 1);
            out.append(c);
            proof {
                assert(c@ =~= seq![sub[0]]);
                assert((pre + c@) + strip_pattern(nm.subrange(j + 1, m as int), ".template"@)
                    =~= pre + (c@ + strip_pattern(nm.subrange(j + 1, m as int), ".template"@)));
            }
            j += 1;
        }
    }
    proof {
        assert(nm.subrange(m as int, m as int) =~= Seq::<char>::empty());
        assert(out@ + Seq::<char>::empty() =~= out@);
    }
    out
}

} // verus!
