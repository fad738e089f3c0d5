//! The serializer: renders a value tree as pretty-printed JSON text, each
//! container entry on its own line, one indentation unit deeper than its
//! container, object key order kept exactly.

use vstd::prelude::*;

use crate::value::{
    elems_view, entries_view, lemma_elems_view, lemma_entries_view, Jv, Value,
};

verus! {

broadcast use vstd::seq::group_seq_axioms, vstd::std_specs::vec::group_vec_axioms;

/// One lowercase hexadecimal digit.
pub open spec fn hex_digit(n: int) -> char {
    if n == 0 {
        '0'
    } else if n == 1 {
        '1'
    } else if n == 2 {
        '2'
    } else if n == 3 {
        '3'
    } else if n == 4 {
        '4'
    } else if n == 5 {
        '5'
    } else if n == 6 {
        '6'
    } else if n == 7 {
        '7'
    } else if n == 8 {
        '8'
    } else if n == 9 {
        '9'
    } else if n == 10 {
        'a'
    } else if n == 11 {
        'b'
    } else if n == 12 {
        'c'
    } else if n == 13 {
        'd'
    } else if n == 14 {
        'e'
    } else {
        'f'
    }
}

/// The escape of one string character: quote and backslash are escaped,
/// control characters get their short form or a `\u00..` escape, everything
/// else stands for itself.
pub open spec fn esc_char(c: char) -> Seq<char> {
    if c == '"' {
        seq!['\\', '"']
    } else if c == '\\' {
        seq!['\\', '\\']
    } else if c == '\u{8}' {
        seq!['\\', 'b']
    } else if c == '\t' {
        seq!['\\', 't']
    } else if c == '\n' {
        seq!['\\', 'n']
    } else if c == '\u{c}' {
        seq!['\\', 'f']
    } else if c == '\r' {
        seq!['\\', 'r']
    } else if (c as u32) < 0x20 {
        seq!['\\', 'u', '0', '0', hex_digit((c as u32) as int / 16), hex_digit((c as u32) as int % 16)]
    } else {
        seq![c]
    }
}

pub open spec fn esc_str(s: Seq<char>) -> Seq<char>
    decreases s.len(),
{
    if s.len() == 0 {
        Seq::empty()
    } else {
        esc_str(s.drop_last()) + esc_char(s.last())
    }
}

/// A string rendered with its quotes and escapes.
pub open spec fn quoted(s: Seq<char>) -> Seq<char> {
    seq!['"'] + esc_str(s) + seq!['"']
}

/// The rendering of a value, `ind` the indentation unit and `pad` the
/// current line prefix; children are prefixed by `pad + ind`, a container's
/// closing bracket by `pad`; empty containers close on the same line.
pub open spec fn render(v: Jv, ind: Seq<char>, pad: Seq<char>) -> Seq<char>
    decreases v,
{
    match v {
        Jv::Null => "null"@,
        Jv::Bool(b) => if b {
            "true"@
        } else {
            "false"@
        },
        Jv::Num(n) => n,
        Jv::Str(s) => quoted(s),
        Jv::Arr(elems) => if elems.len() == 0 {
            "[]"@
        } else {
            seq!['['] + render_elems(elems, ind, pad) + seq!['\n'] + pad + seq![']']
        },
        Jv::Obj(es) => if es.len() == 0 {
            "{}"@
        } else {
            seq!['{'] + render_entries(es, ind, pad) + seq!['\n'] + pad + seq!['}']
        },
    }
}

pub open spec fn render_elems(elems: Seq<Jv>, ind: Seq<char>, pad: Seq<char>) -> Seq<char>
    decreases elems,
{
    if elems.len() == 0 {
        Seq::empty()
    } else {
        render_elems(elems.drop_last(), ind, pad) + (if elems.len() == 1 {
            seq!['\n']
        } else {
            seq![',', '\n']
        }) + pad + ind + render(elems.last(), ind, pad + ind)
    }
}

pub open spec fn render_entries(es: Seq<(Seq<char>, Jv)>, ind: Seq<char>, pad: Seq<char>) -> Seq<
    char,
>
    decreases es,
{
    if es.len() == 0 {
        Seq::empty()
    } else {
        render_entries(es.drop_last(), ind, pad) + (if es.len() == 1 {
            seq!['\n']
        } else {
            seq![',', '\n']
        }) + pad + ind + quoted(es.last().0) + seq![':', ' '] + render(
            es.last().1,
            ind,
            pad + ind,
        )
    }
}

/// A run of spaces.
pub open spec fn spaces(n: nat) -> Seq<char>
    decreases n,
{
    if n == 0 {
        Seq::empty()
    } else {
        spaces((n - 1) as nat) + seq![' ']
    }
}

/// The one-character string of a hexadecimal digit.
fn hex_str(n: u32) -> (r: &'static str)
    requires
        n < 16,
    ensures
        r@ == seq![hex_digit(n as int)],
{
    proof {
        reveal_strlit("0");
        reveal_strlit("1");
        reveal_strlit("2");
        reveal_strlit("3");
        reveal_strlit("4");
        reveal_strlit("5");
        reveal_strlit("6");
        reveal_strlit("7");
        reveal_strlit("8");
        reveal_strlit("9");
        reveal_strlit("a");
        reveal_strlit("b");
        reveal_strlit("c");
        reveal_strlit("d");
        reveal_strlit("e");
        reveal_strlit("f");
    }
    if n == 0 {
        "0"
    } else if n == 1 {
        "1"
    } else if n == 2 {
        "2"
    } else if n == 3 {
        "3"
    } else if n == 4 {
        "4"
    } else if n == 5 {
        "5"
    } else if n == 6 {
        "6"
    } else if n == 7 {
        "7"
    } else if n == 8 {
        "8"
    } else if n == 9 {
        "9"
    } else if n == 10 {
        "a"
    } else if n == 11 {
        "b"
    } else if n == 12 {
        "c"
    } else if n == 13 {
        "d"
    } else if n == 14 {
        "e"
    } else {
        "f"
    }
}

/// Appends a string with its quotes and escapes.
#[verifier::loop_isolation(false)]
fn write_quoted(out: &mut String, s: &str)
    ensures
        final(out)@ == old(out)@ + quoted(s@),
{
    proof {
        reveal_strlit("\"");
        reveal_strlit("\\\"");
        reveal_strlit("\\\\");
        reveal_strlit("\\b");
        reveal_strlit("\\t");
        reveal_strlit("\\n");
        reveal_strlit("\\f");
        reveal_strlit("\\r");
        reveal_strlit("\\u00");
    }
    let ghost pre = out@;
    out.append("\"");
    let n = s.unicode_len();
    let mut i: usize = 0;
    while i < n
        invariant
            i <= n,
            n == s@.len(),
            out@ == pre + seq!['"'] + esc_str(s@.take(i as int)),
        decreases n - i,
    {
        proof {
            assert(s@.take(i + 1).drop_last() =~= s@.take(i as int));
            assert(s@.take(i + 1).last() == s@[i as int]);
        }
        let ghost mid = out@;
        let c = s.get_char(i);
        if c == '"' {
            out.append("\\\"");
            proof {
                assert(out@ =~= mid + esc_char(c));
            }
        } else if c == '\\' {
            out.append("\\\\");
            proof {
                assert(out@ =~= mid + esc_char(c));
            }
        } else if c == '\u{8}' {
            out.append("\\b");
            proof {
                assert(out@ =~= mid + esc_char(c));
            }
        } else if c == '\t' {
            out.append("\\t");
            proof {
                assert(out@ =~= mid + esc_char(c));
            }
        } else if c == '\n' {
            out.append("\\n");
            proof {
                assert(out@ =~= mid + esc_char(c));
            }
        } else if c == '\u{c}' {
            out.append("\\f");
            proof {
                assert(out@ =~= mid + esc_char(c));
            }
        } else if c == '\r' {
            out.append("\\r");
            proof {
                assert(out@ =~= mid + esc_char(c));
            }
        } else if (c as u32) < 0x20 {
            out.append("\\u00");
            out.append(hex_str((c as u32) / 16));
            out.append(hex_str((c as u32) % 16));
            proof {
                assert(out@ =~= mid + esc_char(c));
            }
        } else {
            let one = s.substring_char(i, i + 1);
            out.append(one);
            proof {
                assert(one@ =~= seq![c]);
                assert(out@ =~= mid + esc_char(c));
            }
        }
        proof {
            assert(out@ =~= pre + seq!['"'] + esc_str(s@.take(i + 1)));
        }
        i += 1;
    }
    proof {
        assert(s@.take(n as int) =~= s@);
    }
    out.append("\"");
    proof {
        assert(out@ =~= pre + quoted(s@));
    }
}

/// Appends the rendering of a value, `ind` the indentation unit and `pad`
/// the current line prefix.
#[verifier::loop_isolation(false)]
#[verifier::rlimit(60)]
fn render_into(out: &mut String, value: &Value, ind: &str, pad: &str)
    ensures
        final(out)@ == old(out)@ + render(value@, ind@, pad@),
    decreases value,
{
    proof {
        reveal_strlit("[");
        reveal_strlit("]");
        reveal_strlit("{");
        reveal_strlit("}");
        reveal_strlit("\n");
        reveal_strlit(",\n");
        reveal_strlit(": ");
    }
    let ghost pre = out@;
    match value {
        Value::Null => {
            out.append("null");
        },
        Value::Bool(b) => {
            if *b {
                out.append("true");
            } else {
                out.append("false");
            }
        },
        Value::Num(num) => {
            out.append(num.as_str());
        },
        Value::Str(s) => {
            write_quoted(out, s.as_str());
        },
        Value::Arr(vs) => {
            if vs.len() == 0 {
                out.append("[]");
            } else {
                let ghost m = elems_view(vs@);
                proof {
                    lemma_elems_view(vs@);
                }
                out.append("[");
                let mut child_pad = pad.to_owned();
                child_pad.append(ind);
                let mut i: usize = 0;
                while i < vs.len()
                    invariant
                        i <= vs.len(),
                        child_pad@ == pad@ + ind@,
                        out@ == pre + seq!['['] + render_elems(m.take(i as int), ind@, pad@),
                    decreases vs.len() - i,
                {
                    proof {
                        assert(m.take(i + 1).drop_last() =~= m.take(i as int));
                        assert(m.take(i + 1).last() == vs@[i as int]@);
                    }
                    if i == 0 {
                        out.append("\n");
                    } else {
                        out.append(",\n");
                    }
                    out.append(pad);
                    out.append(ind);
                    render_into(out, &vs[i], ind, child_pad.as_str());
                    proof {
                        assert(out@ =~= pre + seq!['['] + render_elems(m.take(i + 1), ind@, pad@));
                    }
                    i += 1;
                }
                proof {
                    assert(m.take(vs@.len() as int) =~= m);
                }
                out.append("\n");
                out.append(pad);
                out.append("]");
                proof {
                    assert(out@ =~= pre + render(value@, ind@, pad@));
                }
            }
        },
        Value::Obj(es) => {
            if es.len() == 0 {
                out.append("{}");
            } else {
                let ghost m = entries_view(es@);
                proof {
                    lemma_entries_view(es@);
                }
                out.append("{");
                let mut child_pad = pad.to_owned();
                child_pad.append(ind);
                let mut i: usize = 0;
                while i < es.len()
                    invariant
                        i <= es.len(),
                        child_pad@ == pad@ + ind@,
                        out@ == pre + seq!['{'] + render_entries(m.take(i as int), ind@, pad@),
                    decreases es.len() - i,
                {
                    proof {
                        assert(m.take(i + 1).drop_last() =~= m.take(i as int));
                        assert(m.take(i + 1).last() == (es@[i as int].0@, es@[i as int].1@));
                    }
                    if i == 0 {
                        out.append("\n");
                    } else {
                        out.append(",\n");
                    }
                    out.append(pad);
                    out.append(ind);
                    write_quoted(out, es[i].0.as_str());
                    out.append(": ");
                    render_into(out, &es[i].1, ind, child_pad.as_str());
                    proof {
                        assert(out@ =~= pre + seq!['{'] + render_entries(
                            m.take(i + 1),
                            ind@,
                            pad@,
                        ));
                    }
                    i += 1;
                }
                proof {
                    assert(m.take(es@.len() as int) =~= m);
                }
                out.append("\n");
                out.append(pad);
                out.append("}");
                proof {
                    assert(out@ =~= pre + render(value@, ind@, pad@));
                }
            }
        },
    }
}

/// Renders the tree as pretty-printed JSON text, with the given number of
/// spaces per indentation level and object key order kept exactly.
#[verifier::loop_isolation(false)]
pub fn to_pretty_string(value: &Value, indent: u32) -> (r: String)
    ensures
        r@ == render(value@, spaces(indent as nat), Seq::empty()),
{
    proof {
        reveal_strlit(" ");
    }
    let mut unit = String::new();
    let mut k: u32 = 0;
    while k < indent
        invariant
            k <= indent,
            unit@ == spaces(k as nat),
        decreases indent - k,
    {
        append_space(&mut unit);
        k += 1;
    }
    let mut out = String::new();
    render_into(&mut out, value, unit.as_str(), "");
    proof {
        reveal_strlit("");
        assert(""@ =~= Seq::<char>::empty());
    }
    out
}

/// Appends one space.
fn append_space(unit: &mut String)
    ensures
        final(unit)@ == old(unit)@ + seq![' '],
{
    proof {
        reveal_strlit(" ");
    }
    unit.append(" ");
    proof {
        assert(" "@ =~= seq![' ']);
    }
}

} // verus!
