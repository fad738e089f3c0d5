//! The JSON value model: a tagged tree whose objects keep their keys in
//! insertion order.

use vstd::prelude::*;

verus! {

broadcast use vstd::seq::group_seq_axioms, vstd::std_specs::vec::group_vec_axioms;

/// A JSON document: null, boolean, integer, string, array, or object.
/// An object is a list of key/value entries in insertion order; well-formed
/// objects have pairwise distinct keys.
#[derive(Debug, PartialEq)]
pub enum Value {
    Null,
    Bool(bool),
    /// A JSON number, kept as its decimal text: the engine never computes
    /// with numbers, it only carries them through.
    Num(String),
    Str(String),
    Arr(Vec<Value>),
    Obj(Vec<(String, Value)>),
}

/// The mathematical model of a [`Value`]: the same tree over `Seq` and `int`.
pub enum Jv {
    Null,
    Bool(bool),
    Num(Seq<char>),
    Str(Seq<char>),
    Arr(Seq<Jv>),
    Obj(Seq<(Seq<char>, Jv)>),
}

impl View for Value {
    type V = Jv;

    open spec fn view(&self) -> Jv
        decreases self,
    {
        match self {
            Value::Null => Jv::Null,
            Value::Bool(b) => Jv::Bool(*b),
            Value::Num(n) => Jv::Num(n@),
            Value::Str(s) => Jv::Str(s@),
            Value::Arr(vs) => Jv::Arr(elems_view(vs@)),
            Value::Obj(es) => Jv::Obj(entries_view(es@)),
        }
    }
}

/// The model of an array's elements.
pub open spec fn elems_view(vs: Seq<Value>) -> Seq<Jv>
    decreases vs,
{
    if vs.len() == 0 {
        Seq::empty()
    } else {
        elems_view(vs.drop_last()) + seq![vs.last()@]
    }
}

/// The model of an object's entries.
pub open spec fn entries_view(es: Seq<(String, Value)>) -> Seq<(Seq<char>, Jv)>
    decreases es,
{
    if es.len() == 0 {
        Seq::empty()
    } else {
        entries_view(es.drop_last()) + seq![(es.last().0@, es.last().1@)]
    }
}

pub broadcast proof fn lemma_elems_view(vs: Seq<Value>)
    ensures
        (#[trigger] elems_view(vs)).len() == vs.len(),
        forall|i: int| 0 <= i < vs.len() ==> elems_view(vs)[i] == #[trigger] vs[i]@,
    decreases vs.len(),
{
    if vs.len() > 0 {
        lemma_elems_view(vs.drop_last());
        assert(elems_view(vs) == elems_view(vs.drop_last()) + seq![vs.last()@]);
        assert(elems_view(vs).len() == vs.len());
        assert forall|i: int| 0 <= i < vs.len() implies elems_view(vs)[i] == #[trigger] vs[i]@ by {
            if i < vs.len() - 1 {
                assert(vs.drop_last()[i] == vs[i]);
            }
        }
    }
}

pub broadcast proof fn lemma_entries_view(es: Seq<(String, Value)>)
    ensures
        (#[trigger] entries_view(es)).len() == es.len(),
        forall|i: int|
            0 <= i < es.len() ==> entries_view(es)[i] == (#[trigger] es[i].0@, es[i].1@),
    decreases es.len(),
{
    if es.len() > 0 {
        lemma_entries_view(es.drop_last());
        assert(entries_view(es) == entries_view(es.drop_last()) + seq![
            (es.last().0@, es.last().1@),
        ]);
        assert forall|i: int|
            0 <= i < es.len() implies entries_view(es)[i] == (#[trigger] es[i].0@, es[i].1@) by {
            if i < es.len() - 1 {
                assert(es.drop_last()[i] == es[i]);
            }
        }
    }
}

pub proof fn lemma_elems_view_push(vs: Seq<Value>, v: Value)
    ensures
        elems_view(vs.push(v)) == elems_view(vs) + seq![v@],
{
    assert(vs.push(v).drop_last() =~= vs);
    assert(vs.push(v).last() == v);
}

pub proof fn lemma_entries_view_push(es: Seq<(String, Value)>, k: String, v: Value)
    ensures
        entries_view(es.push((k, v))) == entries_view(es) + seq![(k@, v@)],
{
    assert(es.push((k, v)).drop_last() =~= es);
    assert(es.push((k, v)).last() == (k, v));
}

/// Whether some entry of an object carries the key `k`.
pub open spec fn keys_contain(es: Seq<(Seq<char>, Jv)>, k: Seq<char>) -> bool {
    exists|i: int| 0 <= i < es.len() && es[i].0 == k
}

/// The value of the first entry carrying the key `k`, if any.
pub open spec fn lookup(es: Seq<(Seq<char>, Jv)>, k: Seq<char>) -> Option<Jv>
    decreases es,
{
    if es.len() == 0 {
        Option::None
    } else if es.first().0 == k {
        Option::Some(es.first().1)
    } else {
        lookup(es.drop_first(), k)
    }
}

/// The entries with every entry keyed `k` removed, order otherwise kept.
pub open spec fn remove_key(es: Seq<(Seq<char>, Jv)>, k: Seq<char>) -> Seq<(Seq<char>, Jv)>
    decreases es,
{
    if es.len() == 0 {
        Seq::empty()
    } else if es.last().0 == k {
        remove_key(es.drop_last(), k)
    } else {
        remove_key(es.drop_last(), k) + seq![es.last()]
    }
}

/// Insertion in map style: an existing entry keyed `k` keeps its position and
/// takes the new value; otherwise the entry is appended.
pub open spec fn upsert(es: Seq<(Seq<char>, Jv)>, k: Seq<char>, v: Jv) -> Seq<(Seq<char>, Jv)>
    decreases es,
{
    if es.len() == 0 {
        seq![(k, v)]
    } else if es.first().0 == k {
        seq![(k, v)] + es.drop_first()
    } else {
        seq![es.first()] + upsert(es.drop_first(), k, v)
    }
}

/// The first position whose entry carries the key `k`.
pub open spec fn key_index(es: Seq<(Seq<char>, Jv)>, k: Seq<char>) -> int
    decreases es,
{
    if es.len() == 0 {
        0
    } else if es.first().0 == k {
        0
    } else {
        1 + key_index(es.drop_first(), k)
    }
}

pub proof fn lemma_lookup_index(es: Seq<(Seq<char>, Jv)>, k: Seq<char>)
    ensures
        keys_contain(es, k) ==> {
            let i = key_index(es, k);
            &&& 0 <= i < es.len()
            &&& es[i].0 == k
            &&& forall|j: int| 0 <= j < i ==> es[j].0 != k
            &&& lookup(es, k) == Option::Some(es[i].1)
        },
        !keys_contain(es, k) ==> lookup(es, k) is None,
    decreases es.len(),
{
    if es.len() == 0 {
    } else if es.first().0 == k {
        assert(es[0].0 == k);
    } else {
        let tail = es.drop_first();
        lemma_lookup_index(tail, k);
        if keys_contain(es, k) {
            let w = choose|w: int| 0 <= w < es.len() && es[w].0 == k;
            assert(tail[w - 1].0 == k);
            assert(keys_contain(tail, k));
            let i = key_index(tail, k);
            assert(es[i + 1] == tail[i]);
            assert(key_index(es, k) == i + 1);
            assert forall|j: int| 0 <= j < i + 1 implies es[j].0 != k by {
                if j > 0 {
                    assert(tail[j - 1] == es[j]);
                }
            }
        } else {
            if keys_contain(tail, k) {
                let w = choose|w: int| 0 <= w < tail.len() && tail[w].0 == k;
                assert(es[w + 1].0 == k);
            }
        }
    }
}

impl Clone for Value {
    /// A deep copy with the same model.
    #[verifier::loop_isolation(false)]
    fn clone(&self) -> (r: Self)
        ensures
            r@ == self@,
        decreases self,
    {
        match self {
            Value::Null => Value::Null,
            Value::Bool(b) => Value::Bool(*b),
            Value::Num(n) => Value::Num(n.clone()),
            Value::Str(s) => Value::Str(s.clone()),
            Value::Arr(vs) => {
                let mut out: Vec<Value> = Vec::new();
                let mut i: usize = 0;
                while i < vs.len()
                    invariant
                        i <= vs.len(),
                        out@.len() == i as int,
                        forall|j: int| 0 <= j < i ==> out@[j]@ == #[trigger] vs@[j]@,
                    decreases vs.len() - i,
                {
                    out.push(vs[i].clone());
                    i += 1;
                }
                proof {
                    lemma_elems_view(out@);
                    lemma_elems_view(vs@);
                    assert forall|j: int|
                        0 <= j < vs@.len() implies elems_view(out@)[j] == elems_view(vs@)[j] by {
                        assert(out@[j]@ == vs@[j]@);
                    }
                    assert(elems_view(out@) =~= elems_view(vs@));
                }
                Value::Arr(out)
            },
            Value::Obj(es) => {
                let mut out: Vec<(String, Value)> = Vec::new();
                let mut i: usize = 0;
                while i < es.len()
                    invariant
                        i <= es.len(),
                        out@.len() == i as int,
                        forall|j: int|
                            0 <= j < i ==> (#[trigger] out@[j]).0@ == es@[j].0@ && out@[j].1@
                                == es@[j].1@,
                    decreases es.len() - i,
                {
                    let k = es[i].0.clone();
                    let v = es[i].1.clone();
                    out.push((k, v));
                    i += 1;
                }
                proof {
                    lemma_entries_view(out@);
                    lemma_entries_view(es@);
                    assert forall|j: int|
                        0 <= j < es@.len() implies entries_view(out@)[j] == entries_view(es@)[j] by {
                        assert(out@[j].0@ == es@[j].0@ && out@[j].1@ == es@[j].1@);
                    }
                    assert(entries_view(out@) =~= entries_view(es@));
                }
                Value::Obj(out)
            },
        }
    }
}

pub proof fn lemma_upsert_found(es: Seq<(Seq<char>, Jv)>, k: Seq<char>, v: Jv, i: int)
    requires
        0 <= i < es.len(),
        es[i].0 == k,
        forall|j: int| 0 <= j < i ==> es[j].0 != k,
    ensures
        upsert(es, k, v) == es.update(i, (k, v)),
    decreases es.len(),
{
    if es.first().0 == k {
        assert(i == 0);
        assert(upsert(es, k, v) =~= es.update(0, (k, v)));
    } else {
        let tail = es.drop_first();
        assert(es[0].0 != k);
        assert(i > 0);
        assert(tail[i - 1].0 == k);
        assert forall|j: int| 0 <= j < i - 1 implies tail[j].0 != k by {
            assert(es[j + 1].0 != k);
        }
        lemma_upsert_found(tail, k, v, i - 1);
        assert(upsert(es, k, v) =~= es.update(i, (k, v)));
    }
}

pub proof fn lemma_upsert_absent(es: Seq<(Seq<char>, Jv)>, k: Seq<char>, v: Jv)
    requires
        forall|j: int| 0 <= j < es.len() ==> (#[trigger] es[j]).0 != k,
    ensures
        upsert(es, k, v) == es.push((k, v)),
    decreases es.len(),
{
    if es.len() == 0 {
        assert(upsert(es, k, v) =~= es.push((k, v)));
    } else {
        let tail = es.drop_first();
        assert forall|j: int| 0 <= j < tail.len() implies (#[trigger] tail[j]).0 != k by {
            assert(es[j + 1].0 != k);
        }
        lemma_upsert_absent(tail, k, v);
        assert(upsert(es, k, v) =~= es.push((k, v)));
    }
}

/// Map-style insertion among an object's entries: an existing entry with the
/// key keeps its place and takes the new value, a new key is appended.
#[verifier::loop_isolation(false)]
pub fn obj_upsert(out: &mut Vec<(String, Value)>, k: String, v: Value)
    ensures
        entries_view(final(out)@) == upsert(entries_view(old(out)@), k@, v@),
{
    proof {
        lemma_entries_view(out@);
    }
    let mut i: usize = 0;
    while i < out.len()
        invariant
            i <= out.len(),
            *out == *old(out),
            forall|j: int| 0 <= j < i ==> (#[trigger] out@[j]).0@ != k@,
        decreases out.len() - i,
    {
        if str_eq(out[i].0.as_str(), k.as_str()) {
            let ghost m = entries_view(out@);
            let ghost gk = k@;
            let ghost gv = v@;
            proof {
                assert(m[i as int].0 == gk);
                assert forall|j: int| 0 <= j < i implies m[j].0 != gk by {
                    assert(out@[j].0@ != gk);
                }
                lemma_upsert_found(m, gk, gv, i as int);
            }
            out[i] = (k, v);
            proof {
                lemma_entries_view(out@);
                assert forall|j: int|
                    0 <= j < out@.len() implies entries_view(out@)[j] == m.update(
                    i as int,
                    (gk, gv),
                )[j] by {
                    assert(entries_view(out@)[j] == (out@[j].0@, out@[j].1@));
                }
                assert(entries_view(out@) =~= m.update(i as int, (gk, gv)));
            }
            return ;
        }
        i += 1;
    }
    let ghost m = entries_view(out@);
    proof {
        assert forall|j: int| 0 <= j < m.len() implies (#[trigger] m[j]).0 != k@ by {
            assert(out@[j].0@ != k@);
        }
        lemma_upsert_absent(m, k@, v@);
        lemma_entries_view_push(out@, k, v);
    }
    out.push((k, v));
}

/// Looks a key up among an object's entries: the first entry with that key.
#[verifier::loop_isolation(false)]
pub fn obj_get<'a>(es: &'a Vec<(String, Value)>, k: &str) -> (r: Option<&'a Value>)
    ensures
        match r {
            Option::Some(v) => lookup(entries_view(es@), k@) == Option::Some(v@),
            Option::None => lookup(entries_view(es@), k@) is None,
        },
{
    proof {
        lemma_entries_view(es@);
        lemma_lookup_index(entries_view(es@), k@);
    }
    let mut i: usize = 0;
    while i < es.len()
        invariant
            i <= es.len(),
            forall|j: int| 0 <= j < i ==> (#[trigger] es@[j]).0@ != k@,
        decreases es.len() - i,
    {
        if str_eq(es[i].0.as_str(), k) {
            proof {
                let m = entries_view(es@);
                assert(m[i as int].0 == k@);
                assert(keys_contain(m, k@));
                assert forall|j: int| 0 <= j < i implies m[j].0 != k@ by {
                    assert(es@[j].0@ != k@);
                }
                assert(key_index(m, k@) == i as int);
                assert(m[i as int].1 == es@[i as int].1@);
            }
            return Option::Some(&es[i].1);
        }
        i += 1;
    }
    proof {
        let m = entries_view(es@);
        assert forall|j: int| 0 <= j < m.len() implies m[j].0 != k@ by {
            assert(es@[j].0@ != k@);
        }
        assert(!keys_contain(m, k@));
    }
    Option::None
}

/// A deep copy of an object's entries.
#[verifier::loop_isolation(false)]
pub fn clone_entries(es: &Vec<(String, Value)>) -> (r: Vec<(String, Value)>)
    ensures
        entries_view(r@) == entries_view(es@),
        r@.len() == es@.len(),
{
    let mut out: Vec<(String, Value)> = Vec::new();
    let mut i: usize = 0;
    proof {
        lemma_entries_view(es@);
    }
    while i < es.len()
        invariant
            i <= es.len(),
            out@.len() == i as int,
            forall|j: int|
                0 <= j < i ==> (#[trigger] out@[j]).0@ == es@[j].0@ && out@[j].1@ == es@[j].1@,
        decreases es.len() - i,
    {
        let k = es[i].0.clone();
        let v = es[i].1.clone();
        out.push((k, v));
        i += 1;
    }
    proof {
        lemma_entries_view(out@);
        assert forall|j: int|
            0 <= j < es@.len() implies entries_view(out@)[j] == entries_view(es@)[j] by {
            assert(out@[j].0@ == es@[j].0@ && out@[j].1@ == es@[j].1@);
        }
        assert(entries_view(out@) =~= entries_view(es@));
    }
    out
}

/// The entries with every entry of the given key removed, order kept.
#[verifier::loop_isolation(false)]
pub fn obj_remove_key(es: &Vec<(String, Value)>, k: &str) -> (r: Vec<(String, Value)>)
    ensures
        entries_view(r@) == remove_key(entries_view(es@), k@),
{
    let ghost m = entries_view(es@);
    proof {
        lemma_entries_view(es@);
    }
    let mut out: Vec<(String, Value)> = Vec::new();
    let mut i: usize = 0;
    while i < es.len()
        invariant
            i <= es.len(),
            entries_view(out@) == remove_key(m.take(i as int), k@),
        decreases es.len() - i,
    {
        proof {
            assert(m.take(i + 1).drop_last() =~= m.take(i as int));
            assert(m.take(i + 1).last() == (es@[i as int].0@, es@[i as int].1@));
        }
        if !str_eq(es[i].0.as_str(), k) {
            let ck = es[i].0.clone();
            let cv = es[i].1.clone();
            proof {
                lemma_entries_view_push(out@, ck, cv);
            }
            out.push((ck, cv));
        }
        i += 1;
    }
    proof {
        assert(m.take(es@.len() as int) =~= m);
    }
    out
}

/// Whether an object's entries carry the key.
pub fn obj_contains_key(es: &Vec<(String, Value)>, k: &str) -> (r: bool)
    ensures
        r == keys_contain(entries_view(es@), k@),
{
    proof {
        lemma_lookup_index(entries_view(es@), k@);
    }
    obj_get(es, k).is_some()
}

/// Character-by-character string comparison.
pub fn str_eq(a: &str, b: &str) -> (r: bool)
    ensures
        r == (a@ == b@),
{
    let an = a.unicode_len();
    let bn = b.unicode_len();
    if an != bn {
        return false;
    }
    let mut i: usize = 0;
    while i < an
        invariant
            an == a@.len(),
            bn == b@.len(),
            an == bn,
            i <= an,
            forall|j: int| 0 <= j < i ==> a@[j] == b@[j],
        decreases an - i,
    {
        if a.get_char(i) != b.get_char(i) {
            return false;
        }
        i += 1;
    }
    proof {
        assert(a@ =~= b@);
    }
    true
}

} // verus!
