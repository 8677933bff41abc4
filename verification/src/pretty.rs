//! Pretty-printing of a JSON document: two-space indentation, `": "` after
//! object keys, one element per line, and JSON string escaping with the
//! short escapes for the common control characters.

use crate::escape::hex_digit;
use crate::num::dec_rep;
use crate::num::int_rep;
use crate::num::write_i64;
use crate::num::write_u64;
use crate::value::entry_models_of;
use crate::value::lemma_entry_models_of_index;
use crate::value::lemma_models_of_index;
use crate::value::models_of;
use crate::value::JsonSpec;
use crate::value::JsonValue;
use vstd::prelude::*;

verus! {

/// JSON escaping of one string byte: quote and backslash are escaped, the
/// common control characters get their short escapes, the rest of the
/// control range is written as `\u00xy`, and everything else stands as is.
pub open spec fn jescape_byte(b: u8) -> Seq<u8> {
    if b == 0x22 {
        seq![0x5cu8, 0x22]
    } else if b == 0x5c {
        seq![0x5cu8, 0x5c]
    } else if b == 0x08 {
        seq![0x5cu8, 0x62]
    } else if b == 0x09 {
        seq![0x5cu8, 0x74]
    } else if b == 0x0a {
        seq![0x5cu8, 0x6e]
    } else if b == 0x0c {
        seq![0x5cu8, 0x66]
    } else if b == 0x0d {
        seq![0x5cu8, 0x72]
    } else if b < 0x20 {
        seq![0x5cu8, 0x75, 0x30, 0x30, hex_digit(b / 16), hex_digit(b % 16)]
    } else {
        seq![b]
    }
}

/// JSON escaping of a whole string.
pub open spec fn jescape(s: Seq<u8>) -> Seq<u8>
    decreases s.len(),
{
    if s.len() == 0 {
        Seq::empty()
    } else {
        jescape_byte(s[0]) + jescape(s.subrange(1, s.len() as int))
    }
}

/// `n` levels of two-space indentation.
pub open spec fn spaces(n: nat) -> Seq<u8>
    decreases n,
{
    if n == 0 {
        Seq::empty()
    } else {
        spaces((n - 1) as nat) + seq![0x20u8, 0x20]
    }
}

/// A quoted, escaped JSON string literal.
pub open spec fn quoted(s: Seq<u8>) -> Seq<u8> {
    seq![0x22u8] + jescape(s) + seq![0x22u8]
}

/// The pretty-printed text of `v` at indentation depth `ind`. Empty
/// containers print as `[]` and `{}`; non-empty ones put each child on its
/// own line, one level deeper.
pub open spec fn pretty(v: JsonSpec, ind: nat) -> Seq<u8>
    decreases v, 0int,
{
    match v {
        JsonSpec::Null => seq![0x6eu8, 0x75, 0x6c, 0x6c],
        JsonSpec::Bool(b) => if b {
            seq![0x74u8, 0x72, 0x75, 0x65]
        } else {
            seq![0x66u8, 0x61, 0x6c, 0x73, 0x65]
        },
        JsonSpec::UInt(n) => dec_rep(n as nat),
        JsonSpec::Int(n) => int_rep(n as int),
        JsonSpec::Float(t) => t,
        JsonSpec::Str(s) => quoted(s),
        JsonSpec::Array(items) => if items.len() == 0 {
            seq![0x5bu8, 0x5d]
        } else {
            seq![0x5bu8] + pretty_arr(items, (ind + 1) as nat, true) + seq![0x0au8] + spaces(ind)
                + seq![0x5du8]
        },
        JsonSpec::Object(es) => if es.len() == 0 {
            seq![0x7bu8, 0x7d]
        } else {
            seq![0x7bu8] + pretty_obj(es, (ind + 1) as nat, true) + seq![0x0au8] + spaces(ind)
                + seq![0x7du8]
        },
    }
}

/// Array elements, each on its own line; a comma before every element but
/// the first.
pub open spec fn pretty_arr(items: Seq<JsonSpec>, ind: nat, first: bool) -> Seq<u8>
    decreases items, 1int,
{
    if items.len() == 0 {
        Seq::empty()
    } else {
        (if first {
            Seq::empty()
        } else {
            seq![0x2cu8]
        }) + seq![0x0au8] + spaces(ind) + pretty(items[0], ind) + pretty_arr(
            items.subrange(1, items.len() as int),
            ind,
            false,
        )
    }
}

/// Object entries, `"key": value`, each on its own line; a comma before
/// every entry but the first.
pub open spec fn pretty_obj(es: Seq<(Seq<u8>, JsonSpec)>, ind: nat, first: bool) -> Seq<u8>
    decreases es, 1int,
{
    if es.len() == 0 {
        Seq::empty()
    } else {
        (if first {
            Seq::empty()
        } else {
            seq![0x2cu8]
        }) + seq![0x0au8] + spaces(ind) + quoted(es[0].0) + seq![0x3au8, 0x20] + pretty(
            es[0].1,
            ind,
        ) + pretty_obj(es.subrange(1, es.len() as int), ind, false)
    }
}

/// Append the JSON escape of `s` to `out`.
fn push_jescape(s: &[u8], out: &mut Vec<u8>)
    ensures
        final(out)@ == old(out)@ + jescape(s@),
{
    let ghost whole = old(out)@ + jescape(s@);
    proof {
        assert(s@.subrange(0, s@.len() as int) =~= s@);
    }
    let mut i: usize = 0;
    while i < s.len()
        invariant
            i <= s@.len(),
            out@ + jescape(s@.subrange(i as int, s@.len() as int)) == whole,
        decreases s@.len() - i,
    {
        let b = s[i];
        proof {
            let rest = s@.subrange(i as int, s@.len() as int);
            assert(rest[0] == b);
            assert(rest.subrange(1, rest.len() as int) =~= s@.subrange(
                i + 1,
                s@.len() as int,
            ));
        }
        if b == 0x22 {
            out.push(0x5c);
            out.push(0x22);
        } else if b == 0x5c {
            out.push(0x5c);
            out.push(0x5c);
        } else if b == 0x08 {
            out.push(0x5c);
            out.push(0x62);
        } else if b == 0x09 {
            out.push(0x5c);
            out.push(0x74);
        } else if b == 0x0a {
            out.push(0x5c);
            out.push(0x6e);
        } else if b == 0x0c {
            out.push(0x5c);
            out.push(0x66);
        } else if b == 0x0d {
            out.push(0x5c);
            out.push(0x72);
        } else if b < 0x20 {
            out.push(0x5c);
            out.push(0x75);
            out.push(0x30);
            out.push(0x30);
            out.push(if b / 16 < 10 {
                0x30 + b / 16
            } else {
                0x57 + b / 16
            });
            out.push(if b % 16 < 10 {
                0x30 + b % 16
            } else {
                0x57 + b % 16
            });
        } else {
            out.push(b);
        }
        proof {
            assert(out@ + jescape(s@.subrange(i + 1, s@.len() as int)) =~= whole);
        }
        i = i + 1;
    }
    proof {
        assert(s@.subrange(i as int, s@.len() as int) =~= Seq::<u8>::empty());
        assert(out@ =~= whole);
    }
}

/// Append the pretty-printed text of `v` to `out`. `indent` holds the
/// current indentation and is returned as it was.
#[verifier::loop_isolation(false)]
#[verifier::rlimit(100)]
fn pretty_print(v: &JsonValue, indent: &mut Vec<u8>, Ghost(ind): Ghost<nat>, out: &mut Vec<u8>)
    requires
        old(indent)@ == spaces(ind),
    ensures
        final(indent)@ == old(indent)@,
        final(out)@ == old(out)@ + pretty(v@, ind),
    decreases v,
{
    match v {
        JsonValue::Null => {
            out.push(0x6e);
            out.push(0x75);
            out.push(0x6c);
            out.push(0x6c);
            proof {
                assert(out@ =~= old(out)@ + pretty(v@, ind));
            }
        },
        JsonValue::Bool(b) => {
            if *b {
                out.push(0x74);
                out.push(0x72);
                out.push(0x75);
                out.push(0x65);
            } else {
                out.push(0x66);
                out.push(0x61);
                out.push(0x6c);
                out.push(0x73);
                out.push(0x65);
            }
            proof {
                assert(out@ =~= old(out)@ + pretty(v@, ind));
            }
        },
        JsonValue::UInt(n) => {
            write_u64(*n, out);
        },
        JsonValue::Int(n) => {
            write_i64(*n, out);
        },
        JsonValue::Float(t) => {
            crate::gron::push_bytes(out, t.as_slice());
        },
        JsonValue::Str(s) => {
            out.push(0x22);
            push_jescape(s.as_slice(), out);
            out.push(0x22);
            proof {
                assert(out@ =~= old(out)@ + pretty(v@, ind));
            }
        },
        JsonValue::Array(items) => {
            let ghost ms = models_of(items@);
            proof {
                lemma_models_of_index(items@);
            }
            if items.len() == 0 {
                out.push(0x5b);
                out.push(0x5d);
                proof {
                    assert(out@ =~= old(out)@ + pretty(v@, ind));
                }
            } else {
                out.push(0x5b);
                indent.push(0x20);
                indent.push(0x20);
                proof {
                    assert(indent@ =~= spaces(ind + 1));
                    assert(ms.subrange(0, ms.len() as int) =~= ms);
                }
                let mut i: usize = 0;
                while i < items.len()
                    invariant
                        i <= items@.len(),
                        indent@ == spaces(ind + 1),
                        out@ + pretty_arr(
                            ms.subrange(i as int, ms.len() as int),
                            (ind + 1) as nat,
                            i == 0,
                        ) == old(out)@ + seq![0x5bu8] + pretty_arr(ms, (ind + 1) as nat, true),
                    decreases items@.len() - i,
                {
                    if i > 0 {
                        out.push(0x2c);
                    }
                    out.push(0x0a);
                    crate::gron::push_bytes(out, indent.as_slice());
                    pretty_print(&items[i], indent, Ghost((ind + 1) as nat), out);
                    proof {
                        let rem = ms.subrange(i as int, ms.len() as int);
                        assert(rem[0] == ms[i as int]);
                        assert(rem.subrange(1, rem.len() as int) =~= ms.subrange(
                            i + 1,
                            ms.len() as int,
                        ));
                        assert(out@ + pretty_arr(
                            ms.subrange(i + 1, ms.len() as int),
                            (ind + 1) as nat,
                            false,
                        ) =~= old(out)@ + seq![0x5bu8] + pretty_arr(ms, (ind + 1) as nat, true));
                    }
                    i = i + 1;
                }
                proof {
                    assert(ms.subrange(i as int, ms.len() as int) =~= Seq::<JsonSpec>::empty());
                }
                indent.pop();
                indent.pop();
                proof {
                    assert(indent@ =~= spaces(ind));
                }
                out.push(0x0a);
                crate::gron::push_bytes(out, indent.as_slice());
                out.push(0x5d);
                proof {
                    assert(out@ =~= old(out)@ + pretty(v@, ind));
                }
            }
        },
        JsonValue::Object(entries) => {
            let ghost es = entry_models_of(entries@);
            proof {
                lemma_entry_models_of_index(entries@);
            }
            if entries.len() == 0 {
                out.push(0x7b);
                out.push(0x7d);
                proof {
                    assert(out@ =~= old(out)@ + pretty(v@, ind));
                }
            } else {
                out.push(0x7b);
                indent.push(0x20);
                indent.push(0x20);
                proof {
                    assert(indent@ =~= spaces(ind + 1));
                    assert(es.subrange(0, es.len() as int) =~= es);
                }
                let mut i: usize = 0;
                while i < entries.len()
                    invariant
                        i <= entries@.len(),
                        indent@ == spaces(ind + 1),
                        out@ + pretty_obj(
                            es.subrange(i as int, es.len() as int),
                            (ind + 1) as nat,
                            i == 0,
                        ) == old(out)@ + seq![0x7bu8] + pretty_obj(es, (ind + 1) as nat, true),
                    decreases entries@.len() - i,
                {
                    if i > 0 {
                        out.push(0x2c);
                    }
                    out.push(0x0a);
                    crate::gron::push_bytes(out, indent.as_slice());
                    out.push(0x22);
                    push_jescape(entries[i].0.as_slice(), out);
                    out.push(0x22);
                    out.push(0x3a);
                    out.push(0x20);
                    pretty_print(&entries[i].1, indent, Ghost((ind + 1) as nat), out);
                    proof {
                        let rem = es.subrange(i as int, es.len() as int);
                        assert(rem[0] == es[i as int]);
                        assert(rem.subrange(1, rem.len() as int) =~= es.subrange(
                            i + 1,
                            es.len() as int,
                        ));
                        assert(out@ + pretty_obj(
                            es.subrange(i + 1, es.len() as int),
                            (ind + 1) as nat,
                            false,
                        ) =~= old(out)@ + seq![0x7bu8] + pretty_obj(es, (ind + 1) as nat, true));
                    }
                    i = i + 1;
                }
                proof {
                    assert(es.subrange(i as int, es.len() as int) =~= Seq::<
                        (Seq<u8>, JsonSpec),
                    >::empty());
                }
                indent.pop();
                indent.pop();
                proof {
                    assert(indent@ =~= spaces(ind));
                }
                out.push(0x0a);
                crate::gron::push_bytes(out, indent.as_slice());
                out.push(0x7d);
                proof {
                    assert(out@ =~= old(out)@ + pretty(v@, ind));
                }
            }
        },
    }
}

/// The pretty-printed text of a whole document, with a trailing newline.
pub open spec fn pretty_document(v: JsonSpec) -> Seq<u8> {
    pretty(v, 0) + seq![0x0au8]
}

/// Render `v` as pretty-printed JSON text followed by a newline.
pub fn pretty_print_document(v: &JsonValue) -> (out: Vec<u8>)
    ensures
        out@ == pretty_document(v@),
{
    let mut out: Vec<u8> = Vec::new();
    let mut indent: Vec<u8> = Vec::new();
    proof {
        assert(indent@ =~= spaces(0));
    }
    pretty_print(v, &mut indent, Ghost(0nat), &mut out);
    out.push(0x0a);
    proof {
        assert(out@ =~= pretty_document(v@));
    }
    out
}

} // verus!
