//! The gron encoder: a pre-order walk over a JSON document that emits one
//! assignment line per node. Object entries are visited in lexicographic
//! key order; array elements in index order. With color enabled, ANSI SGR
//! markup wraps keys, literals and structural characters.

use crate::escape::escape_c1;
use crate::escape::escape_c1_control_codes;
use crate::num::dec_rep;
use crate::num::int_rep;
use crate::num::write_u64;

use crate::value::clone_bytes;
use crate::value::entry_models_of;
use crate::value::insert_entry;
use crate::value::lemma_entry_models_of_index;
use crate::value::lemma_insert_entry_at;
use crate::value::lemma_models_of_index;
use crate::value::lemma_normalize_arr_index;
use crate::value::lemma_normalize_obj_index;
use crate::value::lex_lt;
use crate::value::lex_lt_bytes;
use crate::value::models_of;
use crate::value::normalize_arr;
use crate::value::normalize_obj;
use crate::value::normalize_spec;
use crate::value::sort_entries;
use crate::value::JsonSpec;
use crate::value::JsonValue;
use vstd::prelude::*;

verus! {

pub open spec fn ansi_key() -> Seq<u8> {
    seq![0x1b, 0x5b, 0x33, 0x34, 0x6d]
}

pub open spec fn ansi_num() -> Seq<u8> {
    seq![0x1b, 0x5b, 0x33, 0x31, 0x6d]
}

pub open spec fn ansi_str() -> Seq<u8> {
    seq![0x1b, 0x5b, 0x33, 0x32, 0x6d]
}

pub open spec fn ansi_brace() -> Seq<u8> {
    seq![0x1b, 0x5b, 0x33, 0x35, 0x6d]
}

pub open spec fn ansi_reset() -> Seq<u8> {
    seq![0x1b, 0x5b, 0x30, 0x6d]
}

/// `body`, wrapped in a color introducer and a reset when color is on.
pub open spec fn wrap(color: bool, pre: Seq<u8>, body: Seq<u8>) -> Seq<u8> {
    if color {
        pre + body + ansi_reset()
    } else {
        body
    }
}

/// The text after ` = ` on the line for a node: its literal, colored when
/// requested. Strings keep their quotes outside the color markup.
pub open spec fn payload(v: JsonSpec, color: bool) -> Seq<u8> {
    match v {
        JsonSpec::Null => wrap(color, ansi_num(), seq![0x6e, 0x75, 0x6c, 0x6c]),
        JsonSpec::Bool(b) => wrap(
            color,
            ansi_num(),
            if b {
                seq![0x74, 0x72, 0x75, 0x65]
            } else {
                seq![0x66, 0x61, 0x6c, 0x73, 0x65]
            },
        ),
        JsonSpec::UInt(n) => wrap(color, ansi_num(), dec_rep(n as nat)),
        JsonSpec::Int(n) => wrap(color, ansi_num(), int_rep(n as int)),
        JsonSpec::Float(t) => wrap(color, ansi_num(), t),
        JsonSpec::Str(s) => seq![0x22u8] + wrap(color, ansi_str(), escape_c1(s)) + seq![0x22u8],
        JsonSpec::Array(_) => wrap(color, ansi_brace(), seq![0x5b, 0x5d]),
        JsonSpec::Object(_) => wrap(color, ansi_brace(), seq![0x7b, 0x7d]),
    }
}

/// One whole line: `<path> = <payload>;` and a newline.
pub open spec fn line_of(path: Seq<u8>, payload: Seq<u8>) -> Seq<u8> {
    path + seq![0x20u8, 0x3d, 0x20] + payload + seq![0x3bu8, 0x0a]
}

/// The root path segment, the literal `json`.
pub open spec fn root_path(color: bool) -> Seq<u8> {
    if color {
        ansi_key() + seq![0x6au8, 0x73, 0x6f, 0x6e] + ansi_reset()
    } else {
        seq![0x6au8, 0x73, 0x6f, 0x6e]
    }
}

/// A `.key` path segment; the key is escaped, and the dot stays outside
/// the color markup.
pub open spec fn key_seg(key: Seq<u8>, color: bool) -> Seq<u8> {
    seq![0x2eu8] + wrap(color, ansi_key(), escape_c1(key))
}

/// A `[i]` path segment. With color, the brackets are re-introduced around
/// the colored index and a single reset closes the segment.
pub open spec fn idx_seg(i: nat, color: bool) -> Seq<u8> {
    if color {
        ansi_brace() + seq![0x5bu8] + ansi_num() + dec_rep(i) + ansi_brace() + seq![0x5du8]
            + ansi_reset()
    } else {
        seq![0x5bu8] + dec_rep(i) + seq![0x5du8]
    }
}

/// All lines for the node `v` at path `path`: its own line, then the lines
/// of its children in stored order. Containers emit their `[]`/`{}` header
/// line first.
pub open spec fn gron_lines(v: JsonSpec, path: Seq<u8>, color: bool) -> Seq<u8>
    decreases v, 0int,
{
    match v {
        JsonSpec::Array(items) => line_of(path, payload(v, color)) + gron_arr(
            items,
            path,
            0,
            color,
        ),
        JsonSpec::Object(es) => line_of(path, payload(v, color)) + gron_obj(es, path, color),
        _ => line_of(path, payload(v, color)),
    }
}

/// Lines of array elements, the element at position `i` first.
pub open spec fn gron_arr(items: Seq<JsonSpec>, path: Seq<u8>, i: nat, color: bool) -> Seq<u8>
    decreases items, 1int,
{
    if items.len() == 0 {
        Seq::empty()
    } else {
        gron_lines(items[0], path + idx_seg(i, color), color) + gron_arr(
            items.subrange(1, items.len() as int),
            path,
            i + 1,
            color,
        )
    }
}

/// Lines of object entries, first entry first.
pub open spec fn gron_obj(es: Seq<(Seq<u8>, JsonSpec)>, path: Seq<u8>, color: bool) -> Seq<u8>
    decreases es, 1int,
{
    if es.len() == 0 {
        Seq::empty()
    } else {
        gron_lines(es[0].1, path + key_seg(es[0].0, color), color) + gron_obj(
            es.subrange(1, es.len() as int),
            path,
            color,
        )
    }
}

/// The full encoder output for a document: the lines of its canonical
/// (key-sorted) form, starting from the root path.
pub open spec fn gron_output(v: JsonSpec, color: bool) -> Seq<u8> {
    gron_lines(normalize_spec(v), root_path(color), color)
}

/// Append each byte of `s` to `out`.
pub fn push_bytes(out: &mut Vec<u8>, s: &[u8])
    ensures
        final(out)@ == old(out)@ + s@,
{
    let mut i: usize = 0;
    while i < s.len()
        invariant
            i <= s@.len(),
            out@ == old(out)@ + s@.subrange(0, i as int),
        decreases s@.len() - i,
    {
        out.push(s[i]);
        proof {
            assert(old(out)@ + s@.subrange(0, i + 1) =~= out@);
        }
        i = i + 1;
    }
    proof {
        assert(old(out)@ + s@.subrange(0, i as int) =~= old(out)@ + s@);
    }
}

/// Append the two-parameter SGR sequence `ESC [ a b m`.
fn push_sgr(out: &mut Vec<u8>, a: u8, b: u8)
    ensures
        final(out)@ == old(out)@ + seq![0x1bu8, 0x5b, a, b, 0x6d],
{
    out.push(0x1b);
    out.push(0x5b);
    out.push(a);
    out.push(b);
    out.push(0x6d);
    proof {
        assert(out@ =~= old(out)@ + seq![0x1bu8, 0x5b, a, b, 0x6d]);
    }
}

/// Append the SGR reset sequence `ESC [ 0 m`.
fn push_reset(out: &mut Vec<u8>)
    ensures
        final(out)@ == old(out)@ + ansi_reset(),
{
    out.push(0x1b);
    out.push(0x5b);
    out.push(0x30);
    out.push(0x6d);
    proof {
        assert(out@ =~= old(out)@ + ansi_reset());
    }
}

/// Rebuild `v` in canonical form: the same document with every object's
/// entries sorted by key.
#[verifier::loop_isolation(false)]
pub fn normalize(v: &JsonValue) -> (r: JsonValue)
    ensures
        r@ == normalize_spec(v@),
    decreases v,
{
    match v {
        JsonValue::Null => JsonValue::Null,
        JsonValue::Bool(b) => JsonValue::Bool(*b),
        JsonValue::UInt(n) => JsonValue::UInt(*n),
        JsonValue::Int(n) => JsonValue::Int(*n),
        JsonValue::Float(t) => JsonValue::Float(clone_bytes(t)),
        JsonValue::Str(s) => JsonValue::Str(clone_bytes(s)),
        JsonValue::Array(items) => {
            let ghost ms = models_of(items@);
            let mut out: Vec<JsonValue> = Vec::new();
            let mut i: usize = 0;
            while i < items.len()
                invariant
                    i <= items@.len(),
                    ms == models_of(items@),
                    models_of(out@) == normalize_arr(ms.subrange(0, i as int)),
                decreases items@.len() - i,
            {
                proof {
                    lemma_models_of_index(items@);
                }
                let c = normalize(&items[i]);
                let ghost prev_out = out@;
                out.push(c);
                proof {
                    lemma_models_of_index(out@);
                    lemma_models_of_index(prev_out);
                    lemma_normalize_arr_index(ms.subrange(0, i as int));
                    lemma_normalize_arr_index(ms.subrange(0, i + 1));
                    assert(ms.subrange(0, i + 1).subrange(0, i as int) =~= ms.subrange(
                        0,
                        i as int,
                    ));
                    assert(out@.subrange(0, out@.len() - 1) =~= prev_out);
                    lemma_models_of_index(out@.subrange(0, out@.len() - 1));
                    assert(models_of(out@) =~= normalize_arr(ms.subrange(0, i + 1)));
                }
                i = i + 1;
            }
            proof {
                lemma_models_of_index(items@);
                assert(ms.subrange(0, i as int) =~= ms);
            }
            JsonValue::Array(out)
        },
        JsonValue::Object(entries) => {
            let ghost es = entry_models_of(entries@);
            let mut out: Vec<(Vec<u8>, JsonValue)> = Vec::new();
            let mut i: usize = 0;
            while i < entries.len()
                invariant
                    i <= entries@.len(),
                    es == entry_models_of(entries@),
                    entry_models_of(out@) == sort_entries(normalize_obj(es.subrange(0, i as int))),
                decreases entries@.len() - i,
            {
                proof {
                    lemma_entry_models_of_index(entries@);
                }
                let key = clone_bytes(&entries[i].0);
                let val = normalize(&entries[i].1);
                let ghost ne = (key@, val@);
                // find the insertion point: past every entry with a
                // strictly smaller key
                let mut k: usize = 0;
                while k < out.len() && lex_lt_bytes(&out[k].0, &key)
                    invariant
                        k <= out@.len(),
                        es == entry_models_of(entries@),
                        ne == (key@, val@),
                        entry_models_of(out@) == sort_entries(
                            normalize_obj(es.subrange(0, i as int)),
                        ),
                        forall|j: int|
                            0 <= j < k ==> lex_lt(
                                #[trigger] (entry_models_of(out@)[j]).0,
                                ne.0,
                            ),
                    decreases out@.len() - k,
                {
                    proof {
                        lemma_entry_models_of_index(out@);
                    }
                    k = k + 1;
                }
                proof {
                    lemma_entry_models_of_index(out@);
                }
                let ghost old_out = out@;
                out.insert(k, (key, val));
                proof {
                    lemma_entry_models_of_index(old_out);
                    lemma_entry_models_of_index(out@);
                    lemma_insert_entry_at(ne, entry_models_of(old_out), k as int);
                    assert(entry_models_of(out@) =~= insert_entry(ne, entry_models_of(old_out)))
                        by {
                        assert(out@ =~= old_out.insert(k as int, (key, val)));
                    }
                    let prev = normalize_obj(es.subrange(0, i as int));
                    let cur = normalize_obj(es.subrange(0, i + 1));
                    lemma_normalize_obj_index(es.subrange(0, i as int));
                    lemma_normalize_obj_index(es.subrange(0, i + 1));
                    assert(cur.subrange(0, cur.len() - 1) =~= prev) by {
                        assert(es.subrange(0, i + 1).subrange(0, i as int) =~= es.subrange(
                            0,
                            i as int,
                        ));
                    }
                    assert(cur[cur.len() - 1] == ne);
                    assert(sort_entries(cur) == insert_entry(ne, sort_entries(prev)));
                }
                i = i + 1;
            }
            proof {
                lemma_entry_models_of_index(entries@);
                assert(es.subrange(0, i as int) =~= es);
            }
            JsonValue::Object(out)
        },
    }
}

/// Append `<path> = ` to `out`.
fn begin_line(out: &mut Vec<u8>, path: &[u8])
    ensures
        final(out)@ == old(out)@ + path@ + seq![0x20u8, 0x3d, 0x20],
{
    push_bytes(out, path);
    out.push(0x20);
    out.push(0x3d);
    out.push(0x20);
    proof {
        assert(out@ =~= old(out)@ + path@ + seq![0x20u8, 0x3d, 0x20]);
    }
}

/// Append `;` and a newline to `out`.
fn end_line(out: &mut Vec<u8>)
    ensures
        final(out)@ == old(out)@ + seq![0x3bu8, 0x0a],
{
    out.push(0x3b);
    out.push(0x0a);
    proof {
        assert(out@ =~= old(out)@ + seq![0x3bu8, 0x0a]);
    }
}

/// Emit every gron line of `v`, whose path is the current content of
/// `path`. The path buffer is grown for each child and truncated back, and
/// is returned as it was.
#[verifier::loop_isolation(false)]
#[verifier::rlimit(50)]
fn emit(v: &JsonValue, path: &mut Vec<u8>, out: &mut Vec<u8>, color: bool)
    ensures
        final(path)@ == old(path)@,
        final(out)@ == old(out)@ + gron_lines(v@, old(path)@, color),
    decreases v,
{
    match v {
        JsonValue::Null => {
            begin_line(out, path.as_slice());
            if color {
                push_sgr(out, 0x33, 0x31);
            }
            out.push(0x6e);
            out.push(0x75);
            out.push(0x6c);
            out.push(0x6c);
            if color {
                push_reset(out);
            }
            end_line(out);
            proof {
                assert(out@ =~= old(out)@ + gron_lines(v@, old(path)@, color));
            }
        },
        JsonValue::Bool(b) => {
            begin_line(out, path.as_slice());
            if color {
                push_sgr(out, 0x33, 0x31);
            }
            if *b {
                out.push(0x74);
                out.push(0x72);
                out.push(0x75);
                out.push(0x65);
            } else {
                out.push(0x66);
                out.push(0x61);
                out.push(0x6c);
                out.push(0x73);
                out.push(0x65);
            }
            if color {
                push_reset(out);
            }
            end_line(out);
            proof {
                assert(out@ =~= old(out)@ + gron_lines(v@, old(path)@, color));
            }
        },
        JsonValue::UInt(n) => {
            begin_line(out, path.as_slice());
            if color {
                push_sgr(out, 0x33, 0x31);
            }
            write_u64(*n, out);
            if color {
                push_reset(out);
            }
            end_line(out);
            proof {
                assert(out@ =~= old(out)@ + gron_lines(v@, old(path)@, color));
            }
        },
        JsonValue::Int(n) => {
            begin_line(out, path.as_slice());
            if color {
                push_sgr(out, 0x33, 0x31);
            }
            crate::num::write_i64(*n, out);
            if color {
                push_reset(out);
            }
            end_line(out);
            proof {
                assert(out@ =~= old(out)@ + gron_lines(v@, old(path)@, color));
            }
        },
        JsonValue::Float(t) => {
            begin_line(out, path.as_slice());
            if color {
                push_sgr(out, 0x33, 0x31);
            }
            push_bytes(out, t.as_slice());
            if color {
                push_reset(out);
            }
            end_line(out);
            proof {
                assert(out@ =~= old(out)@ + gron_lines(v@, old(path)@, color));
            }
        },
        JsonValue::Str(s) => {
            begin_line(out, path.as_slice());
            out.push(0x22);
            if color {
                push_sgr(out, 0x33, 0x32);
            }
            escape_c1_control_codes(s.as_slice(), out);
            if color {
                push_reset(out);
            }
            out.push(0x22);
            end_line(out);
            proof {
                assert(out@ =~= old(out)@ + gron_lines(v@, old(path)@, color));
            }
        },
        JsonValue::Array(items) => {
            begin_line(out, path.as_slice());
            if color {
                push_sgr(out, 0x33, 0x35);
            }
            out.push(0x5b);
            out.push(0x5d);
            if color {
                push_reset(out);
            }
            end_line(out);
            let ghost ms = models_of(items@);
            proof {
                assert(out@ =~= old(out)@ + line_of(old(path)@, payload(v@, color)));
                assert(ms.subrange(0, ms.len() as int) =~= ms);
            }
            let mut i: usize = 0;
            while i < items.len()
                invariant
                    i <= items@.len(),
                    path@ == old(path)@,
                    out@ + gron_arr(ms.subrange(i as int, ms.len() as int), old(path)@, i as nat, color)
                        == old(out)@ + gron_lines(v@, old(path)@, color),
                decreases items@.len() - i,
            {
                let save = path.len();
                if color {
                    push_sgr(path, 0x33, 0x35);
                    path.push(0x5b);
                    push_sgr(path, 0x33, 0x31);
                    write_u64(i as u64, path);
                    push_sgr(path, 0x33, 0x35);
                    path.push(0x5d);
                    push_reset(path);
                } else {
                    path.push(0x5b);
                    write_u64(i as u64, path);
                    path.push(0x5d);
                }
                proof {
                    assert(path@ =~= old(path)@ + idx_seg(i as nat, color));
                }
                let ghost before_child = out@;
                emit(&items[i], path, out, color);
                path.truncate(save);
                proof {
                    assert(path@ =~= old(path)@);
                    lemma_models_of_index(items@);
                    let rem = ms.subrange(i as int, ms.len() as int);
                    assert(rem[0] == ms[i as int]);
                    assert(rem.subrange(1, rem.len() as int) =~= ms.subrange(
                        i + 1,
                        ms.len() as int,
                    ));
                    assert(out@ + gron_arr(
                        ms.subrange(i + 1, ms.len() as int),
                        old(path)@,
                        (i + 1) as nat,
                        color,
                    ) =~= old(out)@ + gron_lines(v@, old(path)@, color));
                }
                i = i + 1;
            }
            proof {
                lemma_models_of_index(items@);
                assert(ms.subrange(i as int, ms.len() as int) =~= Seq::<JsonSpec>::empty());
                assert(out@ =~= old(out)@ + gron_lines(v@, old(path)@, color));
            }
        },
        JsonValue::Object(entries) => {
            begin_line(out, path.as_slice());
            if color {
                push_sgr(out, 0x33, 0x35);
            }
            out.push(0x7b);
            out.push(0x7d);
            if color {
                push_reset(out);
            }
            end_line(out);
            let ghost es = entry_models_of(entries@);
            proof {
                assert(out@ =~= old(out)@ + line_of(old(path)@, payload(v@, color)));
                assert(es.subrange(0, es.len() as int) =~= es);
            }
            let mut i: usize = 0;
            while i < entries.len()
                invariant
                    i <= entries@.len(),
                    path@ == old(path)@,
                    out@ + gron_obj(es.subrange(i as int, es.len() as int), old(path)@, color)
                        == old(out)@ + gron_lines(v@, old(path)@, color),
                decreases entries@.len() - i,
            {
                let save = path.len();
                path.push(0x2e);
                if color {
                    push_sgr(path, 0x33, 0x34);
                }
                escape_c1_control_codes(entries[i].0.as_slice(), path);
                if color {
                    push_reset(path);
                }
                proof {
                    lemma_entry_models_of_index(entries@);
                    assert(path@ =~= old(path)@ + key_seg(es[i as int].0, color));
                }
                emit(&entries[i].1, path, out, color);
                path.truncate(save);
                proof {
                    assert(path@ =~= old(path)@);
                    lemma_entry_models_of_index(entries@);
                    let rem = es.subrange(i as int, es.len() as int);
                    assert(rem[0] == es[i as int]);
                    assert(rem.subrange(1, rem.len() as int) =~= es.subrange(
                        i + 1,
                        es.len() as int,
                    ));
                    assert(out@ + gron_obj(es.subrange(i + 1, es.len() as int), old(path)@, color)
                        =~= old(out)@ + gron_lines(v@, old(path)@, color));
                }
                i = i + 1;
            }
            proof {
                lemma_entry_models_of_index(entries@);
                assert(es.subrange(i as int, es.len() as int) =~= Seq::<
                    (Seq<u8>, JsonSpec),
                >::empty());
                assert(out@ =~= old(out)@ + gron_lines(v@, old(path)@, color));
            }
        },
    }
}

/// Encode a document as gron lines: one line per node in a pre-order walk,
/// with object entries in lexicographic key order, optionally with ANSI
/// color markup.
pub fn gron(value: &JsonValue, have_color: bool) -> (out: crate::output::Output)
    ensures
        out@ == gron_output(value@, have_color),
{
    let canon = normalize(value);
    let mut path: Vec<u8> = Vec::new();
    if have_color {
        push_sgr(&mut path, 0x33, 0x34);
    }
    path.push(0x6a);
    path.push(0x73);
    path.push(0x6f);
    path.push(0x6e);
    if have_color {
        push_reset(&mut path);
    }
    proof {
        assert(path@ =~= root_path(have_color));
    }
    let mut bytes: Vec<u8> = Vec::new();
    emit(&canon, &mut path, &mut bytes, have_color);
    proof {
        assert(bytes@ =~= gron_output(value@, have_color));
    }
    crate::output::Output::from_bytes(bytes)
}

} // verus!
