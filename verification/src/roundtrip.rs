//! The round-trip argument: decoding the encoder's statements rebuilds
//! the canonical document. This module restates the encoder's output as a
//! list of statements, shows that splitting recovers that list, that
//! parsing inverts rendering, and that folding the parsed statements
//! installs every subtree where it came from.

use crate::escape::c1_free;
use crate::escape::escape_c1;
use crate::escape::lemma_escape_c1_free;
use crate::gron::gron_arr;
use crate::gron::gron_lines;
use crate::gron::gron_obj;
use crate::gron::gron_output;
use crate::gron::idx_seg;
use crate::gron::key_seg;
use crate::gron::line_of;
use crate::gron::payload;
use crate::gron::root_path;
use crate::num::dec_rep;
use crate::num::is_f64_text;
use crate::num::is_i64_text;
use crate::num::is_u64_text;
use crate::ungron::ActionSpec;
use crate::ungron::SegSpec;
use crate::value::normalize_spec;
use crate::value::JsonSpec;
use vstd::prelude::*;

verus! {

/// A rendered path segment: a key, or a subscript with its index text.
pub enum GSeg {
    Key(Seq<u8>),
    Idx(nat),
}

/// The bytes of one path segment, uncolored.
pub open spec fn render_seg(s: GSeg) -> Seq<u8> {
    match s {
        GSeg::Key(k) => seq![0x2eu8] + escape_c1(k),
        GSeg::Idx(i) => seq![0x5bu8] + dec_rep(i) + seq![0x5du8],
    }
}

/// The bytes of a whole path after the root token.
pub open spec fn render_segs(gp: Seq<GSeg>) -> Seq<u8>
    decreases gp.len(),
{
    if gp.len() == 0 {
        Seq::empty()
    } else {
        render_seg(gp[0]) + render_segs(gp.subrange(1, gp.len() as int))
    }
}

/// The parsed form of a rendered path: subscripts lose their index text.
pub open spec fn erase(gp: Seq<GSeg>) -> Seq<SegSpec>
    decreases gp.len(),
{
    if gp.len() == 0 {
        Seq::empty()
    } else {
        seq![
            match gp[0] {
                GSeg::Key(k) => SegSpec::Key(k),
                GSeg::Idx(_) => SegSpec::Idx,
            },
        ] + erase(gp.subrange(1, gp.len() as int))
    }
}

/// The action that the line for node `v` parses back to.
pub open spec fn act_of(v: JsonSpec) -> ActionSpec {
    match v {
        JsonSpec::Null => ActionSpec::Nop,
        JsonSpec::Bool(b) => if b {
            ActionSpec::True
        } else {
            ActionSpec::False
        },
        JsonSpec::UInt(n) => ActionSpec::UInt(n),
        JsonSpec::Int(n) => ActionSpec::Int(n),
        JsonSpec::Float(t) => ActionSpec::Float(t),
        JsonSpec::Str(s) => ActionSpec::Str(escape_c1(s)),
        JsonSpec::Array(_) => ActionSpec::ArrHeader,
        JsonSpec::Object(_) => ActionSpec::ObjHeader,
    }
}

/// One whole statement, without its newline.
pub open spec fn stmt_of(gp: Seq<GSeg>, v: JsonSpec) -> Seq<u8> {
    seq![0x6au8, 0x73, 0x6f, 0x6e] + render_segs(gp) + seq![0x20u8, 0x3d, 0x20] + payload(
        v,
        false,
    ) + seq![0x3bu8]
}

/// The encoder's statements for `v` at path `gp`, in emission order.
pub open spec fn stmts_of(v: JsonSpec, gp: Seq<GSeg>) -> Seq<Seq<u8>>
    decreases v, 0int,
{
    match v {
        JsonSpec::Array(items) => seq![stmt_of(gp, v)] + stmts_arr(items, gp, 0),
        JsonSpec::Object(es) => seq![stmt_of(gp, v)] + stmts_obj(es, gp),
        _ => seq![stmt_of(gp, v)],
    }
}

pub open spec fn stmts_arr(items: Seq<JsonSpec>, gp: Seq<GSeg>, i: nat) -> Seq<Seq<u8>>
    decreases items, 1int,
{
    if items.len() == 0 {
        Seq::empty()
    } else {
        stmts_of(items[0], gp.push(GSeg::Idx(i))) + stmts_arr(
            items.subrange(1, items.len() as int),
            gp,
            i + 1,
        )
    }
}

pub open spec fn stmts_obj(es: Seq<(Seq<u8>, JsonSpec)>, gp: Seq<GSeg>) -> Seq<Seq<u8>>
    decreases es, 1int,
{
    if es.len() == 0 {
        Seq::empty()
    } else {
        stmts_of(es[0].1, gp.push(GSeg::Key(es[0].0))) + stmts_obj(
            es.subrange(1, es.len() as int),
            gp,
        )
    }
}

/// Join statements with newlines.
pub open spec fn flatten_nl(ss: Seq<Seq<u8>>) -> Seq<u8>
    decreases ss.len(),
{
    if ss.len() == 0 {
        Seq::empty()
    } else {
        (ss[0] + seq![0x0au8]) + flatten_nl(ss.subrange(1, ss.len() as int))
    }
}

/// No `;` of `s` is followed by a newline, or by a carriage return that a
/// newline follows, within or just past `s`.
pub open spec fn no_break(s: Seq<u8>) -> bool {
    forall|i: int|
        0 <= i && i + 1 < s.len() && #[trigger] (s[i]) == 0x3b ==> (s[i + 1] != 0x0a && !(s[i + 1]
            == 0x0d && (i + 2 >= s.len() || s[i + 2] == 0x0a)))
}

/// An object key the grammar can carry: free of the three delimiter bytes,
/// of C1 codepoints, and of statement breaks.
pub open spec fn key_ok(k: Seq<u8>) -> bool {
    &&& (forall|i: int|
        0 <= i < k.len() ==> #[trigger] (k[i]) != 0x5b && k[i] != 0x2e && k[i] != 0x20)
    &&& c1_free(k)
    &&& no_break(k)
}

/// A document the codec round-trips: no duplicate object keys, keys the
/// grammar can carry, strings free of C1 codepoints and statement breaks,
/// negative signed integers only, and float literals that parse back as
/// floats and as nothing else.
pub open spec fn safe(v: JsonSpec) -> bool
    decreases v,
{
    match v {
        JsonSpec::Null => true,
        JsonSpec::Bool(_) => true,
        JsonSpec::UInt(_) => true,
        JsonSpec::Int(n) => n < 0,
        JsonSpec::Float(t) => {
            &&& is_f64_text(t)
            &&& !is_u64_text(t)
            &&& !is_i64_text(t)
            &&& t.len() > 0
            &&& t[0] != 0x22 && t[0] != 0x6e && t[0] != 0x74 && t[0] != 0x66 && t[0] != 0x7b
                && t[0] != 0x5b && t[0] != 0x0a && t[0] != 0x0d
            &&& no_break(t)
        },
        JsonSpec::Str(s) => c1_free(s) && no_break(s),
        JsonSpec::Array(items) => forall|i: int|
            0 <= i < items.len() ==> safe(#[trigger] items[i]),
        JsonSpec::Object(es) => {
            &&& (forall|i: int|
                0 <= i < es.len() ==> key_ok(#[trigger] (es[i]).0) && safe(es[i].1))
            &&& (forall|i: int, j: int|
                0 <= i < es.len() && 0 <= j < es.len() && i != j ==> #[trigger] (es[i].0)
                    != #[trigger] (es[j].0))
        },
    }
}

/// Concatenating statement lists concatenates their text.
pub proof fn lemma_flatten_nl_concat(a: Seq<Seq<u8>>, b: Seq<Seq<u8>>)
    ensures
        flatten_nl(a + b) == flatten_nl(a) + flatten_nl(b),
    decreases a.len(),
{
    if a.len() == 0 {
        assert(a + b =~= b);
        assert(flatten_nl(a) + flatten_nl(b) =~= flatten_nl(b));
    } else {
        assert((a + b)[0] == a[0]);
        assert((a + b).subrange(1, (a + b).len() as int) =~= a.subrange(1, a.len() as int) + b);
        lemma_flatten_nl_concat(a.subrange(1, a.len() as int), b);
        assert(flatten_nl(a + b) =~= flatten_nl(a) + flatten_nl(b));
    }
}

/// Rendering a longer path appends the new segment's bytes.
pub proof fn lemma_render_segs_push(gp: Seq<GSeg>, s: GSeg)
    ensures
        render_segs(gp.push(s)) == render_segs(gp) + render_seg(s),
    decreases gp.len(),
{
    reveal_with_fuel(render_segs, 3);
    if gp.len() == 0 {
        assert(gp.push(s)[0] == s);
        assert(gp.push(s).subrange(1, gp.push(s).len() as int) =~= Seq::<GSeg>::empty());
        assert(render_segs(gp.push(s)) == render_seg(s) + render_segs(Seq::<GSeg>::empty()));
        assert(render_segs(gp.push(s)) =~= render_segs(gp) + render_seg(s));
    } else {
        let rest = gp.subrange(1, gp.len() as int);
        assert(gp.push(s)[0] == gp[0]);
        assert(gp.push(s).subrange(1, gp.push(s).len() as int) =~= rest.push(s));
        lemma_render_segs_push(rest, s);
        assert(render_segs(gp.push(s)) == render_seg(gp[0]) + render_segs(rest.push(s)));
        assert(render_segs(gp) == render_seg(gp[0]) + render_segs(rest));
        assert(render_segs(gp.push(s)) =~= render_segs(gp) + render_seg(s));
    }
}

/// Erasing a longer path appends the erased segment.
pub proof fn lemma_erase_push(gp: Seq<GSeg>, s: GSeg)
    ensures
        erase(gp.push(s)) == erase(gp).push(
            match s {
                GSeg::Key(k) => SegSpec::Key(k),
                GSeg::Idx(_) => SegSpec::Idx,
            },
        ),
    decreases gp.len(),
{
    reveal_with_fuel(erase, 3);
    let e1 = (match s {
        GSeg::Key(k) => SegSpec::Key(k),
        GSeg::Idx(_) => SegSpec::Idx,
    });
    if gp.len() == 0 {
        assert(gp.push(s)[0] == s);
        assert(gp.push(s).subrange(1, gp.push(s).len() as int) =~= Seq::<GSeg>::empty());
        assert(erase(gp.push(s)) == seq![e1] + erase(Seq::<GSeg>::empty()));
        assert(erase(gp.push(s)) =~= erase(gp).push(e1));
    } else {
        let rest = gp.subrange(1, gp.len() as int);
        assert(gp.push(s)[0] == gp[0]);
        assert(gp.push(s).subrange(1, gp.push(s).len() as int) =~= rest.push(s));
        lemma_erase_push(rest, s);
        let e0 = (match gp[0] {
            GSeg::Key(k) => SegSpec::Key(k),
            GSeg::Idx(_) => SegSpec::Idx,
        });
        assert(erase(gp.push(s)) == seq![e0] + erase(rest.push(s)));
        assert(erase(gp) == seq![e0] + erase(rest));
        assert(erase(gp.push(s)) =~= erase(gp).push(e1));
    }
}

/// The encoder's flat output is its statement list joined with newlines.
pub proof fn lemma_lines_are_stmts(v: JsonSpec, gp: Seq<GSeg>)
    ensures
        gron_lines(v, root_path(false) + render_segs(gp), false) == flatten_nl(stmts_of(v, gp)),
    decreases v, 0int,
{
    let path = root_path(false) + render_segs(gp);
    match v {
        JsonSpec::Array(items) => {
            lemma_lines_stmts_arr(items, gp, 0);
            assert(flatten_nl(seq![stmt_of(gp, v)] + stmts_arr(items, gp, 0)) == flatten_nl(
                seq![stmt_of(gp, v)],
            ) + flatten_nl(stmts_arr(items, gp, 0))) by {
                lemma_flatten_nl_concat(seq![stmt_of(gp, v)], stmts_arr(items, gp, 0));
            }
            assert(flatten_nl(seq![stmt_of(gp, v)]) =~= stmt_of(gp, v) + seq![0x0au8]) by {
                reveal_with_fuel(flatten_nl, 3);
                assert(seq![stmt_of(gp, v)].subrange(1, 1) =~= Seq::<Seq<u8>>::empty());
            }
            assert(line_of(path, payload(v, false)) =~= stmt_of(gp, v) + seq![0x0au8]);
        },
        JsonSpec::Object(es) => {
            lemma_lines_stmts_obj(es, gp);
            assert(flatten_nl(seq![stmt_of(gp, v)] + stmts_obj(es, gp)) == flatten_nl(
                seq![stmt_of(gp, v)],
            ) + flatten_nl(stmts_obj(es, gp))) by {
                lemma_flatten_nl_concat(seq![stmt_of(gp, v)], stmts_obj(es, gp));
            }
            assert(flatten_nl(seq![stmt_of(gp, v)]) =~= stmt_of(gp, v) + seq![0x0au8]) by {
                reveal_with_fuel(flatten_nl, 3);
                assert(seq![stmt_of(gp, v)].subrange(1, 1) =~= Seq::<Seq<u8>>::empty());
            }
            assert(line_of(path, payload(v, false)) =~= stmt_of(gp, v) + seq![0x0au8]);
        },
        _ => {
            assert(flatten_nl(stmts_of(v, gp)) =~= stmt_of(gp, v) + seq![0x0au8]) by {
                reveal_with_fuel(flatten_nl, 3);
                assert(stmts_of(v, gp) =~= seq![stmt_of(gp, v)]);
                assert(seq![stmt_of(gp, v)].subrange(1, 1) =~= Seq::<Seq<u8>>::empty());
            }
            assert(line_of(path, payload(v, false)) =~= stmt_of(gp, v) + seq![0x0au8]);
        },
    }
}

pub proof fn lemma_lines_stmts_arr(items: Seq<JsonSpec>, gp: Seq<GSeg>, i: nat)
    ensures
        gron_arr(items, root_path(false) + render_segs(gp), i, false) == flatten_nl(
            stmts_arr(items, gp, i),
        ),
    decreases items, 1int,
{
    let path = root_path(false) + render_segs(gp);
    if items.len() == 0 {
    } else {
        lemma_render_segs_push(gp, GSeg::Idx(i));
        assert(path + idx_seg(i, false) =~= root_path(false) + render_segs(
            gp.push(GSeg::Idx(i)),
        ));
        lemma_lines_are_stmts(items[0], gp.push(GSeg::Idx(i)));
        lemma_lines_stmts_arr(items.subrange(1, items.len() as int), gp, i + 1);
        lemma_flatten_nl_concat(
            stmts_of(items[0], gp.push(GSeg::Idx(i))),
            stmts_arr(items.subrange(1, items.len() as int), gp, i + 1),
        );
    }
}

pub proof fn lemma_lines_stmts_obj(es: Seq<(Seq<u8>, JsonSpec)>, gp: Seq<GSeg>)
    ensures
        gron_obj(es, root_path(false) + render_segs(gp), false) == flatten_nl(stmts_obj(es, gp)),
    decreases es, 1int,
{
    let path = root_path(false) + render_segs(gp);
    if es.len() == 0 {
    } else {
        lemma_render_segs_push(gp, GSeg::Key(es[0].0));
        assert(path + key_seg(es[0].0, false) =~= root_path(false) + render_segs(
            gp.push(GSeg::Key(es[0].0)),
        ));
        lemma_lines_are_stmts(es[0].1, gp.push(GSeg::Key(es[0].0)));
        lemma_lines_stmts_obj(es.subrange(1, es.len() as int), gp);
        lemma_flatten_nl_concat(
            stmts_of(es[0].1, gp.push(GSeg::Key(es[0].0))),
            stmts_obj(es.subrange(1, es.len() as int), gp),
        );
    }
}

} // verus!

verus! {

/// Every key segment of the path can be carried by the grammar.
pub open spec fn gp_ok(gp: Seq<GSeg>) -> bool {
    forall|i: int|
        0 <= i < gp.len() ==> (#[trigger] gp[i] matches GSeg::Key(k) ==> key_ok(k))
}

/// A whole statement: nonempty, closed by `;`, with no statement break
/// inside.
pub open spec fn clean(s: Seq<u8>) -> bool {
    s.len() > 0 && s[s.len() - 1] == 0x3b && no_break(s)
}

/// Break-freedom survives concatenation when the right part does not open
/// with a newline or carriage return after a closing `;`.
pub proof fn lemma_no_break_concat(a: Seq<u8>, b: Seq<u8>)
    requires
        no_break(a),
        no_break(b),
        a.len() > 0 && a[a.len() - 1] == 0x3b && b.len() > 0 ==> (b[0] != 0x0a && b[0] != 0x0d),
    ensures
        no_break(a + b),
{
    let s = a + b;
    assert forall|i: int|
        0 <= i && i + 1 < s.len() && #[trigger] (s[i]) == 0x3b implies (s[i + 1] != 0x0a && !(s[i
        + 1] == 0x0d && (i + 2 >= s.len() || s[i + 2] == 0x0a))) by {
        if i + 1 < a.len() {
            assert(s[i] == a[i] && s[i + 1] == a[i + 1]);
            assert(a[i + 1] != 0x0a);
            if a[i + 1] == 0x0d {
                assert(i + 2 < a.len() && a[i + 2] != 0x0a) by {
                    assert(!(a[i + 1] == 0x0d && (i + 2 >= a.len() || a[i + 2] == 0x0a)));
                }
                assert(s[i + 2] == a[i + 2]);
            }
        } else if i < a.len() {
            assert(i == a.len() - 1);
            assert(s[i] == a[i]);
            assert(s[i + 1] == b[0]);
        } else {
            let j = i - a.len();
            assert(s[i] == b[j] && s[i + 1] == b[j + 1]);
            assert(b[j + 1] != 0x0a && !(b[j + 1] == 0x0d && (j + 2 >= b.len() || b[j + 2]
                == 0x0a)));
            if b[j + 1] == 0x0d {
                assert(j + 2 < b.len() && b[j + 2] != 0x0a);
                assert(s[i + 2] == b[j + 2]);
            }
        }
    }
}

/// Decimal digits are digits.
pub proof fn lemma_dec_rep_digits(n: nat)
    ensures
        dec_rep(n).len() > 0,
        forall|i: int| 0 <= i < dec_rep(n).len() ==> crate::num::is_digit(#[trigger] dec_rep(n)[i]),
    decreases n,
{
    if n < 10 {
    } else {
        lemma_dec_rep_digits(n / 10);
        let d = dec_rep(n);
        let h = dec_rep(n / 10);
        assert forall|i: int| 0 <= i < d.len() implies crate::num::is_digit(#[trigger] d[i]) by {
            if i < h.len() {
                assert(d[i] == h[i]);
            } else {
                assert(d[i] == (0x30 + n % 10) as u8);
            }
        }
    }
}

/// The payload of a safe value opens with a byte that can follow a `;`
/// and holds no statement break.
pub proof fn lemma_payload_clean(v: JsonSpec)
    requires
        safe(v),
    ensures
        payload(v, false).len() > 0,
        payload(v, false)[0] != 0x0a && payload(v, false)[0] != 0x0d,
        no_break(payload(v, false)),
{
    let p = payload(v, false);
    match v {
        JsonSpec::Null => {
            assert(no_break(p)) by {
                assert(forall|i: int| 0 <= i < p.len() ==> #[trigger] (p[i]) != 0x3b);
            }
        },
        JsonSpec::Bool(b) => {
            assert(no_break(p)) by {
                assert(forall|i: int| 0 <= i < p.len() ==> #[trigger] (p[i]) != 0x3b);
            }
        },
        JsonSpec::UInt(n) => {
            lemma_dec_rep_digits(n as nat);
            assert(no_break(p)) by {
                assert(forall|i: int| 0 <= i < p.len() ==> #[trigger] (p[i]) != 0x3b);
            }
        },
        JsonSpec::Int(n) => {
            lemma_dec_rep_digits((-(n as int)) as nat);
            let d = dec_rep((-(n as int)) as nat);
            assert(p == seq![0x2du8] + d);
            assert(no_break(p)) by {
                assert(forall|i: int|
                    1 <= i < p.len() ==> #[trigger] (p[i]) == d[i - 1]);
                assert(forall|i: int| 0 <= i < p.len() ==> #[trigger] (p[i]) != 0x3b);
            }
        },
        JsonSpec::Float(t) => {
            assert(p == t);
        },
        JsonSpec::Str(s) => {
            let inner = escape_c1(s);
            lemma_escape_c1_free(s);
            assert(inner == s);
            assert(p =~= seq![0x22u8] + s + seq![0x22u8]);
            assert(p[0] == 0x22);
            assert(no_break(seq![0x22u8] + s)) by {
                lemma_no_break_concat(seq![0x22u8], s);
            }
            lemma_no_break_concat(seq![0x22u8] + s, seq![0x22u8]);
        },
        JsonSpec::Array(_) => {
            assert(no_break(p)) by {
                assert(forall|i: int| 0 <= i < p.len() ==> #[trigger] (p[i]) != 0x3b);
            }
        },
        JsonSpec::Object(_) => {
            assert(no_break(p)) by {
                assert(forall|i: int| 0 <= i < p.len() ==> #[trigger] (p[i]) != 0x3b);
            }
        },
    }
}

/// A rendered path opens with a dot or a bracket and holds no statement
/// break.
pub proof fn lemma_render_segs_clean(gp: Seq<GSeg>)
    requires
        gp_ok(gp),
    ensures
        no_break(render_segs(gp)),
        gp.len() > 0 ==> render_segs(gp).len() > 0 && (render_segs(gp)[0] == 0x2e
            || render_segs(gp)[0] == 0x5b),
    decreases gp.len(),
{
    if gp.len() > 0 {
        let rest = gp.subrange(1, gp.len() as int);
        assert(gp_ok(rest)) by {
            assert(forall|i: int| 0 <= i < rest.len() ==> rest[i] == #[trigger] gp[i + 1]);
        }
        lemma_render_segs_clean(rest);
        let r0 = render_seg(gp[0]);
        match gp[0] {
            GSeg::Key(k) => {
                assert(key_ok(k));
                lemma_escape_c1_free(k);
                assert(r0 == seq![0x2eu8] + k);
                lemma_no_break_concat(seq![0x2eu8], k);
            },
            GSeg::Idx(i) => {
                lemma_dec_rep_digits(i);
                assert(no_break(r0)) by {
                    let d = dec_rep(i);
                    assert(r0 == seq![0x5bu8] + d + seq![0x5du8]);
                    assert(forall|j: int|
                        1 <= j < d.len() + 1 ==> #[trigger] (r0[j]) == d[j - 1]);
                    assert(forall|j: int| 0 <= j < r0.len() ==> #[trigger] (r0[j]) != 0x3b);
                }
            },
        }
        if rest.len() > 0 {
            lemma_no_break_concat(r0, render_segs(rest));
        } else {
            assert(render_segs(rest) =~= Seq::<u8>::empty());
            assert(r0 + render_segs(rest) =~= r0);
        }
        assert(render_segs(gp) == r0 + render_segs(rest));
    }
}

/// The statement for a safe node is clean.
pub proof fn lemma_stmt_clean(gp: Seq<GSeg>, v: JsonSpec)
    requires
        gp_ok(gp),
        safe(v),
    ensures
        clean(stmt_of(gp, v)),
{
    let root = seq![0x6au8, 0x73, 0x6f, 0x6e];
    let sep = seq![0x20u8, 0x3d, 0x20];
    let p = payload(v, false);
    lemma_render_segs_clean(gp);
    lemma_payload_clean(v);
    assert(no_break(root)) by {
        assert(forall|i: int| 0 <= i < root.len() ==> #[trigger] (root[i]) != 0x3b);
    }
    let a1 = root + render_segs(gp);
    assert(no_break(a1)) by {
        if render_segs(gp).len() > 0 {
            lemma_no_break_concat(root, render_segs(gp));
        } else {
            assert(a1 =~= root);
        }
    }
    let a2 = a1 + sep;
    assert(no_break(a2)) by {
        lemma_no_break_concat(a1, sep);
    }
    let a3 = a2 + p;
    assert(no_break(a3)) by {
        assert(a2[a2.len() - 1] == 0x20);
        lemma_no_break_concat(a2, p);
    }
    let a4 = a3 + seq![0x3bu8];
    assert(no_break(a4)) by {
        lemma_no_break_concat(a3, seq![0x3bu8]);
    }
    assert(stmt_of(gp, v) =~= a4);
    assert(a4[a4.len() - 1] == 0x3b);
}

/// Splitting the joined statements gives the statements back.
pub proof fn lemma_split_flatten(ss: Seq<Seq<u8>>)
    requires
        forall|i: int| 0 <= i < ss.len() ==> clean(#[trigger] ss[i]),
    ensures
        crate::ungron::split_stmts(flatten_nl(ss)) == ss,
    decreases ss.len(),
{
    if ss.len() == 0 {
    } else {
        let s0 = ss[0];
        let rest = ss.subrange(1, ss.len() as int);
        let whole = flatten_nl(ss);
        assert(clean(s0));
        assert(whole == (s0 + seq![0x0au8]) + flatten_nl(rest));
        let n0 = s0.len() as int;
        assert(whole.len() == n0 + 1 + flatten_nl(rest).len());
        assert(crate::ungron::boundary_at(whole, n0 - 1)) by {
            assert(whole[n0 - 1] == s0[n0 - 1]);
            assert(whole[n0] == 0x0a);
        }
        assert forall|j: int| 0 <= j < n0 - 1 implies !crate::ungron::boundary_at(whole, j) by {
            assert(whole[j] == s0[j]);
            assert(whole[j + 1] == s0[j + 1]);
            if whole[j] == 0x3b {
                assert(s0[j + 1] != 0x0a && !(s0[j + 1] == 0x0d && (j + 2 >= s0.len() || s0[j + 2]
                    == 0x0a)));
                if s0[j + 1] == 0x0d {
                    assert(j + 2 < s0.len() && s0[j + 2] != 0x0a);
                    assert(whole[j + 2] == s0[j + 2]);
                }
            }
        }
        crate::ungron::lemma_first_boundary_at(whole, n0 - 1);
        assert(whole[n0] == 0x0a);
        assert(whole.subrange(0, n0) =~= s0);
        assert(whole.subrange(n0 + 1, whole.len() as int) =~= flatten_nl(rest));
        assert(forall|i: int| 0 <= i < rest.len() ==> clean(#[trigger] rest[i])) by {
            assert(forall|i: int| 0 <= i < rest.len() ==> rest[i] == #[trigger] ss[i + 1]);
        }
        lemma_split_flatten(rest);
        assert(crate::ungron::split_stmts(whole) =~~= ss) by {
            assert(crate::ungron::split_stmts(whole) == seq![s0] + crate::ungron::split_stmts(
                flatten_nl(rest),
            ));
            assert(seq![s0] + rest =~~= ss);
        }
    }
}

} // verus!

verus! {

/// The decimal digits of `n` read back as `n`.
pub proof fn lemma_dec_rep_value(n: nat)
    ensures
        crate::num::digits_value(dec_rep(n)) == n,
    decreases n,
{
    let d = dec_rep(n);
    if n < 10 {
        assert(d =~= seq![(0x30 + n) as u8]);
        assert(d.subrange(0, 0) =~= Seq::<u8>::empty());
        assert(crate::num::digits_value(Seq::<u8>::empty()) == 0);
        assert(d[0] == (0x30 + n) as u8);
        assert(crate::num::digits_value(d) == crate::num::digits_value(d.subrange(0, d.len() - 1))
            * 10 + (d[d.len() - 1] - 0x30));
        assert(d.subrange(0, d.len() - 1) =~= Seq::<u8>::empty());
    } else {
        lemma_dec_rep_value(n / 10);
        let h = dec_rep(n / 10);
        assert(d == h.push((0x30 + n % 10) as u8));
        assert(d.subrange(0, d.len() - 1) =~= h);
        assert(d[d.len() - 1] == (0x30 + n % 10) as u8);
        assert(crate::num::digits_value(d) == crate::num::digits_value(h) * 10 + n % 10);
    }
}

/// The value line of a safe node parses back to its action.
pub proof fn lemma_payload_action(v: JsonSpec)
    requires
        safe(v),
    ensures
        crate::ungron::spec_parse_action(seq![0x20u8, 0x3d, 0x20] + payload(v, false) + seq![
            0x3bu8,
        ]) == Ok::<ActionSpec, crate::ungron::GronError>(act_of(v)),
{
    let p = payload(v, false);
    let s = seq![0x20u8, 0x3d, 0x20] + p + seq![0x3bu8];
    lemma_payload_clean(v);
    assert(s.len() == p.len() + 4);
    assert(s[0] == 0x20 && s[1] == 0x3d && s[2] == 0x20);
    assert(s[3] == p[0]);
    assert(s[s.len() - 1] == 0x3b);
    assert(forall|i: int| 0 <= i < p.len() ==> #[trigger] (s[3 + i]) == p[i]);
    match v {
        JsonSpec::Null => {
            assert(p[0] == 0x6e);
        },
        JsonSpec::Bool(b) => {
            if b {
                assert(p[0] == 0x74);
            } else {
                assert(p[0] == 0x66);
            }
        },
        JsonSpec::UInt(n) => {
            let d = dec_rep(n as nat);
            lemma_dec_rep_digits(n as nat);
            lemma_dec_rep_value(n as nat);
            assert(p == d);
            assert(crate::num::is_digit(d[0]));
            assert(s.subrange(3, s.len() - 1) =~= d);
            assert(crate::num::sign_stripped(d) == d);
            assert(crate::num::is_u64_text(d));
            assert(crate::num::u64_text_value(d) == n);
        },
        JsonSpec::Int(n) => {
            let m = (-(n as int)) as nat;
            let d = dec_rep(m);
            lemma_dec_rep_digits(m);
            lemma_dec_rep_value(m);
            assert(p == seq![0x2du8] + d);
            assert(p[0] == 0x2d);
            let lit = s.subrange(3, s.len() - 1);
            assert(lit =~= p);
            assert(crate::num::sign_stripped(lit) =~= d);
            assert(!crate::num::is_u64_text(lit));
            assert(crate::num::is_i64_text(lit)) by {
                assert(lit.len() > 1);
                assert(crate::num::i64_text_value(lit) == -(crate::num::digits_value(d)));
            }
            assert(crate::num::i64_text_value(lit) == n as int);
        },
        JsonSpec::Float(t) => {
            assert(p == t);
            let lit = s.subrange(3, s.len() - 1);
            assert(lit =~= t);
        },
        JsonSpec::Str(str0) => {
            lemma_escape_c1_free(str0);
            assert(p =~= seq![0x22u8] + str0 + seq![0x22u8]);
            assert(p[0] == 0x22);
            assert(s.len() >= 6);
            assert(s[s.len() - 2] == p[p.len() - 1]);
            assert(p[p.len() - 1] == 0x22);
            assert(s.subrange(4, s.len() - 2) =~= str0);
            assert(act_of(v) == ActionSpec::Str(str0));
        },
        JsonSpec::Array(_) => {
            assert(p[0] == 0x5b);
        },
        JsonSpec::Object(_) => {
            assert(p[0] == 0x7b);
        },
    }
}

/// A rendered path followed by a value part parses back to its erased
/// segments and the action.
pub proof fn lemma_parse_render(gp: Seq<GSeg>, suffix: Seq<u8>, a: ActionSpec)
    requires
        gp_ok(gp),
        suffix.len() > 0,
        suffix[0] == 0x20,
        crate::ungron::spec_parse_action(suffix) == Ok::<ActionSpec, crate::ungron::GronError>(a),
    ensures
        crate::ungron::spec_parse_rest(render_segs(gp) + suffix) == Ok::<
            (Seq<SegSpec>, ActionSpec),
            crate::ungron::GronError,
        >((erase(gp), a)),
    decreases gp.len(),
{
    let s = render_segs(gp) + suffix;
    if gp.len() == 0 {
        assert(s =~= suffix);
        assert(erase(gp) =~= Seq::<SegSpec>::empty());
    } else {
        let rest = gp.subrange(1, gp.len() as int);
        assert(gp_ok(rest)) by {
            assert(forall|i: int| 0 <= i < rest.len() ==> rest[i] == #[trigger] gp[i + 1]);
        }
        lemma_parse_render(rest, suffix, a);
        let tail = render_segs(rest) + suffix;
        assert(tail.len() > 0);
        assert(tail[0] == 0x2e || tail[0] == 0x5b || tail[0] == 0x20) by {
            lemma_render_segs_clean(rest);
            if rest.len() > 0 {
                assert(tail[0] == render_segs(rest)[0]);
            } else {
                assert(render_segs(rest) =~= Seq::<u8>::empty());
                assert(tail[0] == suffix[0]);
            }
        }
        assert(s == render_seg(gp[0]) + tail) by {
            assert(s =~= render_seg(gp[0]) + (render_segs(rest) + suffix));
        }
        match gp[0] {
            GSeg::Key(k) => {
                assert(key_ok(k));
                lemma_escape_c1_free(k);
                assert(render_seg(gp[0]) == seq![0x2eu8] + k);
                assert(s[0] == 0x2e);
                assert(s.len() == 1 + k.len() + tail.len());
                assert(forall|i: int| 0 <= i < k.len() ==> #[trigger] (s[1 + i]) == k[i]);
                assert(forall|i: int|
                    0 <= i < tail.len() ==> #[trigger] (s[1 + k.len() + i]) == tail[i]);
                let after = s.subrange(1, s.len() as int);
                assert(after =~= k + tail);
                assert(crate::ungron::key_end(after) == k.len()) by {
                    assert(forall|j: int|
                        0 <= j < k.len() ==> #[trigger] (after[j]) != 0x5b && after[j] != 0x2e
                            && after[j] != 0x20);
                    assert(after[k.len() as int] == tail[0]);
                    crate::ungron::lemma_key_end_at(after, k.len() as int);
                }
                let kk = 1 + crate::ungron::key_end(after);
                assert(kk < s.len());
                assert(s.subrange(1, kk) =~= k);
                assert(s.subrange(kk, s.len() as int) =~= tail);
                assert(erase(gp) == seq![SegSpec::Key(k)] + erase(rest));
                assert(seq![SegSpec::Key(k)] + erase(rest) == erase(gp));
                assert(s[0] != 0x5b);
            },
            GSeg::Idx(ix) => {
                let d = dec_rep(ix);
                lemma_dec_rep_digits(ix);
                assert(render_seg(gp[0]) == seq![0x5bu8] + d + seq![0x5du8]);
                assert(s[0] == 0x5b);
                assert(s.len() == 2 + d.len() + tail.len());
                assert(forall|i: int| 0 <= i < d.len() ==> #[trigger] (s[1 + i]) == d[i]);
                assert(s[1 + d.len() as int] == 0x5d);
                assert(forall|i: int|
                    0 <= i < tail.len() ==> #[trigger] (s[2 + d.len() + i]) == tail[i]);
                assert(s.len() >= 2 && crate::num::is_digit(s[1]));
                assert(crate::ungron::bracket_close(s) == 1 + d.len() as int) by {
                    assert(forall|j: int| 0 <= j < 1 + d.len() as int ==> #[trigger] (s[j]) != 0x5d);
                    crate::ungron::lemma_bracket_close_at(s, 1 + d.len() as int);
                }
                let c = crate::ungron::bracket_close(s);
                assert(c < s.len());
                assert(s.subrange(c + 1, s.len() as int) =~= tail);
                assert(erase(gp) == seq![SegSpec::Idx] + erase(rest));
            },
        }
    }
}

/// One whole statement parses back to its erased path and its action.
pub proof fn lemma_parse_stmt_inv(gp: Seq<GSeg>, v: JsonSpec)
    requires
        gp_ok(gp),
        safe(v),
    ensures
        crate::ungron::spec_parse_stmt(stmt_of(gp, v)) == Ok::<
            (Seq<SegSpec>, ActionSpec),
            crate::ungron::GronError,
        >((erase(gp), act_of(v))),
{
    let suffix = seq![0x20u8, 0x3d, 0x20] + payload(v, false) + seq![0x3bu8];
    lemma_payload_action(v);
    lemma_payload_clean(v);
    assert(suffix[0] == 0x20);
    lemma_parse_render(gp, suffix, act_of(v));
    let line = stmt_of(gp, v);
    assert(line =~= seq![0x6au8, 0x73, 0x6f, 0x6e] + (render_segs(gp) + suffix));
    assert(line.len() >= 4);
    assert(line[0] == 0x6a && line[1] == 0x73 && line[2] == 0x6f && line[3] == 0x6e);
    assert(line.subrange(4, line.len() as int) =~= render_segs(gp) + suffix);
}

} // verus!

verus! {

/// Pure walk: follow the path, a key segment into the named entry, a
/// subscript into the last element of a nonempty array.
pub open spec fn node_at(t: JsonSpec, p: Seq<SegSpec>) -> Option<JsonSpec>
    decreases p.len(),
{
    if p.len() == 0 {
        Some(t)
    } else {
        match step_seg(t, p[0]) {
            Some(n) => node_at(n, p.subrange(1, p.len() as int)),
            None => None,
        }
    }
}

/// One step of the pure walk.
pub open spec fn step_seg(t: JsonSpec, s: SegSpec) -> Option<JsonSpec> {
    match s {
        SegSpec::Key(k) => match t {
            JsonSpec::Object(es) => {
                let i = crate::ungron::find_key(es, k);
                if 0 <= i < es.len() {
                    Some(es[i].1)
                } else {
                    None
                }
            },
            _ => None,
        },
        SegSpec::Idx => match t {
            JsonSpec::Array(items) => if items.len() > 0 {
                Some(items[items.len() - 1])
            } else {
                None
            },
            _ => None,
        },
    }
}

/// Replace the node the pure walk reaches.
pub open spec fn set_at(t: JsonSpec, p: Seq<SegSpec>, x: JsonSpec) -> JsonSpec
    recommends
        node_at(t, p) is Some,
    decreases p.len(),
{
    if p.len() == 0 {
        x
    } else {
        match p[0] {
            SegSpec::Key(k) => match t {
                JsonSpec::Object(es) => {
                    let i = crate::ungron::find_key(es, k);
                    if 0 <= i < es.len() {
                        JsonSpec::Object(
                            es.update(i, (es[i].0, set_at(es[i].1, p.subrange(1, p.len() as int), x))),
                        )
                    } else {
                        t
                    }
                },
                _ => t,
            },
            SegSpec::Idx => match t {
                JsonSpec::Array(items) => if items.len() > 0 {
                    JsonSpec::Array(
                        items.update(
                            items.len() - 1,
                            set_at(items[items.len() - 1], p.subrange(1, p.len() as int), x),
                        ),
                    )
                } else {
                    t
                },
                _ => t,
            },
        }
    }
}

/// One step of the walk replaced: the container with its walked-into
/// child exchanged for `x`.
pub open spec fn step_set(t: JsonSpec, s: SegSpec, x: JsonSpec) -> JsonSpec
    recommends
        step_seg(t, s) is Some,
{
    match s {
        SegSpec::Key(k) => match t {
            JsonSpec::Object(es) => {
                let i = crate::ungron::find_key(es, k);
                if 0 <= i < es.len() {
                    JsonSpec::Object(es.update(i, (es[i].0, x)))
                } else {
                    t
                }
            },
            _ => t,
        },
        SegSpec::Idx => match t {
            JsonSpec::Array(items) => if items.len() > 0 {
                JsonSpec::Array(items.update(items.len() - 1, x))
            } else {
                t
            },
            _ => t,
        },
    }
}

/// A missing key means no entry carries it.
pub proof fn lemma_find_key_miss(es: Seq<(Seq<u8>, JsonSpec)>, k: Seq<u8>)
    requires
        crate::ungron::find_key(es, k) == es.len(),
    ensures
        forall|j: int| 0 <= j < es.len() ==> #[trigger] (es[j]).0 != k,
    decreases es.len(),
{
    if es.len() > 0 {
        crate::ungron::lemma_find_key_bounds(es.subrange(1, es.len() as int), k);
        assert(es[0].0 != k);
        lemma_find_key_miss(es.subrange(1, es.len() as int), k);
        assert forall|j: int| 0 <= j < es.len() implies #[trigger] (es[j]).0 != k by {
            if j >= 1 {
                assert(es.subrange(1, es.len() as int)[j - 1] == es[j]);
            }
        }
    }
}

/// The found entry depends only on the keys.
pub proof fn lemma_find_key_keys_eq(
    es: Seq<(Seq<u8>, JsonSpec)>,
    es2: Seq<(Seq<u8>, JsonSpec)>,
    k: Seq<u8>,
)
    requires
        es.len() == es2.len(),
        forall|j: int| 0 <= j < es.len() ==> #[trigger] (es[j]).0 == es2[j].0,
    ensures
        crate::ungron::find_key(es, k) == crate::ungron::find_key(es2, k),
    decreases es.len(),
{
    if es.len() > 0 {
        assert(es[0].0 == es2[0].0);
        let r1 = es.subrange(1, es.len() as int);
        let r2 = es2.subrange(1, es2.len() as int);
        assert(forall|j: int| 0 <= j < r1.len() ==> #[trigger] (r1[j]).0 == r2[j].0) by {
            assert(forall|j: int|
                0 <= j < r1.len() ==> r1[j] == #[trigger] (es[j + 1]) && r2[j] == es2[j + 1]);
        }
        lemma_find_key_keys_eq(r1, r2, k);
    }
}

/// Walking a longer path takes one more step at its end.
pub proof fn lemma_node_at_snoc(t: JsonSpec, p: Seq<SegSpec>, s: SegSpec)
    ensures
        node_at(t, p.push(s)) == (match node_at(t, p) {
            Some(n) => step_seg(n, s),
            None => None,
        }),
    decreases p.len(),
{
    if p.len() == 0 {
        assert(p.push(s)[0] == s);
        assert(p.push(s).subrange(1, p.push(s).len() as int) =~= Seq::<SegSpec>::empty());
        match step_seg(t, s) {
            Some(n) => {
                assert(node_at(t, p.push(s)) == node_at(n, Seq::<SegSpec>::empty()));
            },
            None => {},
        }
    } else {
        assert(p.push(s)[0] == p[0]);
        assert(p.push(s).subrange(1, p.push(s).len() as int) =~= p.subrange(
            1,
            p.len() as int,
        ).push(s));
        match step_seg(t, p[0]) {
            Some(n) => {
                lemma_node_at_snoc(n, p.subrange(1, p.len() as int), s);
            },
            None => {},
        }
    }
}

/// Setting through a longer path sets the stepped container one level up.
pub proof fn lemma_set_at_snoc(t: JsonSpec, p: Seq<SegSpec>, s: SegSpec, x: JsonSpec)
    requires
        node_at(t, p.push(s)) is Some,
    ensures
        set_at(t, p.push(s), x) == set_at(
            t,
            p,
            step_set(node_at(t, p)->Some_0, s, x),
        ),
    decreases p.len(),
{
    lemma_node_at_snoc(t, p, s);
    if p.len() == 0 {
        let ps = p.push(s);
        let e: Seq<SegSpec> = Seq::empty();
        assert(ps[0] == s);
        assert(ps.subrange(1, ps.len() as int) =~= e);
        assert(node_at(t, p)->Some_0 == t);
        assert(step_seg(t, s) is Some);
        assert(set_at(t, p, step_set(t, s, x)) == step_set(t, s, x));
        match s {
            SegSpec::Key(k) => {
                let es = t->Object_0;
                let i = crate::ungron::find_key(es, k);
                crate::ungron::lemma_find_key_bounds(es, k);
                assert(0 <= i < es.len());
                assert(set_at(es[i].1, e, x) == x);
                assert(set_at(t, ps, x) == JsonSpec::Object(
                    es.update(i, (es[i].0, set_at(es[i].1, ps.subrange(1, ps.len() as int), x))),
                ));
                assert(set_at(t, ps, x) == step_set(t, s, x));
            },
            SegSpec::Idx => {
                let items = t->Array_0;
                let li = items.len() - 1;
                assert(items.len() > 0);
                assert(set_at(items[li], e, x) == x);
                assert(set_at(t, ps, x) == JsonSpec::Array(
                    items.update(li, set_at(items[li], ps.subrange(1, ps.len() as int), x)),
                ));
                assert(set_at(t, ps, x) == step_set(t, s, x));
            },
        }
    } else {
        assert(p.push(s)[0] == p[0]);
        assert(p.push(s).subrange(1, p.push(s).len() as int) =~= p.subrange(
            1,
            p.len() as int,
        ).push(s));
        let n = step_seg(t, p[0])->Some_0;
        assert(step_seg(t, p[0]) is Some);
        lemma_set_at_snoc(n, p.subrange(1, p.len() as int), s, x);
    }
}

/// After a set, the walk to the same place finds the new node.
pub proof fn lemma_node_at_set_at(t: JsonSpec, p: Seq<SegSpec>, x: JsonSpec)
    requires
        node_at(t, p) is Some,
    ensures
        node_at(set_at(t, p, x), p) == Some(x),
    decreases p.len(),
{
    if p.len() == 0 {
    } else {
        let rest = p.subrange(1, p.len() as int);
        match p[0] {
            SegSpec::Key(k) => {
                let es = t->Object_0;
                let i = crate::ungron::find_key(es, k);
                crate::ungron::lemma_find_key_bounds(es, k);
                let es2 = es.update(i, (es[i].0, set_at(es[i].1, rest, x)));
                lemma_find_key_keys_eq(es, es2, k);
                lemma_node_at_set_at(es[i].1, rest, x);
            },
            SegSpec::Idx => {
                let items = t->Array_0;
                lemma_node_at_set_at(items[items.len() - 1], rest, x);
            },
        }
    }
}

/// Setting twice keeps only the second value.
pub proof fn lemma_set_at_twice(t: JsonSpec, p: Seq<SegSpec>, x: JsonSpec, y: JsonSpec)
    requires
        node_at(t, p) is Some,
    ensures
        set_at(set_at(t, p, x), p, y) == set_at(t, p, y),
    decreases p.len(),
{
    if p.len() == 0 {
    } else {
        let rest = p.subrange(1, p.len() as int);
        match p[0] {
            SegSpec::Key(k) => {
                let es = t->Object_0;
                let i = crate::ungron::find_key(es, k);
                crate::ungron::lemma_find_key_bounds(es, k);
                let es2 = es.update(i, (es[i].0, set_at(es[i].1, rest, x)));
                lemma_find_key_keys_eq(es, es2, k);
                lemma_set_at_twice(es[i].1, rest, x, y);
                assert(es2.update(i, (es2[i].0, set_at(es2[i].1, rest, y))) =~= es.update(
                    i,
                    (es[i].0, set_at(es[i].1, rest, y)),
                ));
            },
            SegSpec::Idx => {
                let items = t->Array_0;
                let li = items.len() - 1;
                let items2 = items.update(li, set_at(items[li], rest, x));
                lemma_set_at_twice(items[li], rest, x, y);
                assert(items2.update(li, set_at(items2[li], rest, y)) =~= items.update(
                    li,
                    set_at(items[li], rest, y),
                ));
            },
        }
    }
}

/// Putting back what the walk finds changes nothing.
pub proof fn lemma_set_at_identity(t: JsonSpec, p: Seq<SegSpec>)
    requires
        node_at(t, p) is Some,
    ensures
        set_at(t, p, node_at(t, p)->Some_0) == t,
    decreases p.len(),
{
    if p.len() == 0 {
    } else {
        let rest = p.subrange(1, p.len() as int);
        match p[0] {
            SegSpec::Key(k) => {
                let es = t->Object_0;
                let i = crate::ungron::find_key(es, k);
                crate::ungron::lemma_find_key_bounds(es, k);
                lemma_set_at_identity(es[i].1, rest);
                assert(es.update(i, (es[i].0, es[i].1)) =~= es);
            },
            SegSpec::Idx => {
                let items = t->Array_0;
                let li = items.len() - 1;
                lemma_set_at_identity(items[li], rest);
                assert(items.update(li, items[li]) =~= items);
            },
        }
    }
}

/// Applying a statement whose path runs through an existing node applies
/// its tail beneath that node.
pub proof fn lemma_apply_through(t: JsonSpec, p: Seq<SegSpec>, q: Seq<SegSpec>, a: ActionSpec)
    requires
        node_at(t, p) is Some,
        q.len() >= 1,
    ensures
        crate::ungron::spec_apply(t, p + q, a) == (match crate::ungron::spec_apply(
            node_at(t, p)->Some_0,
            q,
            a,
        ) {
            Ok(c) => Ok::<JsonSpec, crate::ungron::GronError>(set_at(t, p, c)),
            Err(e) => Err(e),
        }),
    decreases p.len(),
{
    if p.len() == 0 {
        assert(p + q =~= q);
        assert(node_at(t, p)->Some_0 == t);
        match crate::ungron::spec_apply(t, q, a) {
            Ok(c) => {},
            Err(e) => {},
        }
    } else {
        let s = p + q;
        assert(s.len() > 0);
        assert(s[0] == p[0]);
        assert(s.subrange(1, s.len() as int) =~= p.subrange(1, p.len() as int) + q);
        let rest = p.subrange(1, p.len() as int);
        match p[0] {
            SegSpec::Key(k) => {
                let es = t->Object_0;
                let i = crate::ungron::find_key(es, k);
                crate::ungron::lemma_find_key_bounds(es, k);
                assert(t is Object);
                assert(0 <= i < es.len());
                lemma_apply_through(es[i].1, rest, q, a);
                assert(s.len() > 1);
                match crate::ungron::spec_apply(node_at(t, p)->Some_0, q, a) {
                    Ok(c) => {
                        assert(crate::ungron::spec_apply(t, s, a) == Ok::<
                            JsonSpec,
                            crate::ungron::GronError,
                        >(JsonSpec::Object(es.update(i, (k, set_at(es[i].1, rest, c))))));
                        assert(es.update(i, (k, set_at(es[i].1, rest, c))) =~= es.update(
                            i,
                            (es[i].0, set_at(es[i].1, rest, c)),
                        ));
                    },
                    Err(e) => {},
                }
            },
            SegSpec::Idx => {
                let items = t->Array_0;
                assert(t is Array);
                assert(items.len() > 0);
                assert(s.len() > 1);
                lemma_apply_through(items[items.len() - 1], rest, q, a);
            },
        }
    }
}

} // verus!

verus! {

/// The value a statement's action installs into a fresh placeholder.
pub open spec fn seed(a: ActionSpec) -> JsonSpec {
    match a {
        ActionSpec::Nop => JsonSpec::Null,
        ActionSpec::ObjHeader => JsonSpec::Object(Seq::empty()),
        ActionSpec::ArrHeader => JsonSpec::Array(Seq::empty()),
        ActionSpec::True => JsonSpec::Bool(true),
        ActionSpec::False => JsonSpec::Bool(false),
        ActionSpec::Str(s) => JsonSpec::Str(s),
        ActionSpec::UInt(n) => JsonSpec::UInt(n),
        ActionSpec::Int(n) => JsonSpec::Int(n),
        ActionSpec::Float(t) => JsonSpec::Float(t),
    }
}

/// The path names a place that does not exist yet but whose parent does:
/// the whole tree is still a placeholder, or the walk to the parent ends
/// at an object lacking the final key, or at an array, whose end the new
/// element joins.
pub open spec fn is_fresh_slot(t: JsonSpec, p: Seq<SegSpec>) -> bool {
    if p.len() == 0 {
        t is Null
    } else {
        let p0 = p.subrange(0, p.len() - 1);
        match p[p.len() - 1] {
            SegSpec::Key(k) => node_at(t, p0) matches Some(JsonSpec::Object(es))
                && crate::ungron::find_key(node_at(t, p0)->Some_0->Object_0, k) == node_at(
                t,
                p0,
            )->Some_0->Object_0.len(),
            SegSpec::Idx => node_at(t, p0) matches Some(JsonSpec::Array(_)),
        }
    }
}

/// The tree with `x` installed at the fresh place: appended under the
/// final key or at the array's end.
pub open spec fn insert_at(t: JsonSpec, p: Seq<SegSpec>, x: JsonSpec) -> JsonSpec
    recommends
        is_fresh_slot(t, p),
{
    if p.len() == 0 {
        x
    } else {
        let p0 = p.subrange(0, p.len() - 1);
        match p[p.len() - 1] {
            SegSpec::Key(k) => set_at(
                t,
                p0,
                JsonSpec::Object(node_at(t, p0)->Some_0->Object_0.push((k, x))),
            ),
            SegSpec::Idx => set_at(
                t,
                p0,
                JsonSpec::Array(node_at(t, p0)->Some_0->Array_0.push(x)),
            ),
        }
    }
}

/// Applying an action at a fresh place installs its seed value there.
pub proof fn lemma_install_one(t: JsonSpec, p: Seq<SegSpec>, a: ActionSpec)
    requires
        is_fresh_slot(t, p),
    ensures
        crate::ungron::spec_apply(t, p, a) == Ok::<JsonSpec, crate::ungron::GronError>(
            insert_at(t, p, seed(a)),
        ),
{
    let e: Seq<SegSpec> = Seq::empty();
    if p.len() == 0 {
        match a {
            ActionSpec::Nop => {},
            ActionSpec::ObjHeader => {},
            ActionSpec::ArrHeader => {},
            ActionSpec::True => {},
            ActionSpec::False => {},
            ActionSpec::Str(s0) => {},
            ActionSpec::UInt(n) => {},
            ActionSpec::Int(n) => {},
            ActionSpec::Float(tx) => {},
        }
    } else {
        let p0 = p.subrange(0, p.len() - 1);
        let last = p[p.len() - 1];
        let q = seq![last];
        assert(p =~= p0 + q);
        let n = node_at(t, p0)->Some_0;
        assert(node_at(t, p0) is Some);
        lemma_apply_through(t, p0, q, a);
        assert(q[0] == last);
        assert(q.subrange(1, 1) =~= e);
        assert(crate::ungron::spec_apply(JsonSpec::Null, q.subrange(1, 1), a) == Ok::<
            JsonSpec,
            crate::ungron::GronError,
        >(seed(a))) by {
            match a {
                ActionSpec::Nop => {},
                ActionSpec::ObjHeader => {},
                ActionSpec::ArrHeader => {},
                ActionSpec::True => {},
                ActionSpec::False => {},
                ActionSpec::Str(s0) => {},
                ActionSpec::UInt(n0) => {},
                ActionSpec::Int(n0) => {},
                ActionSpec::Float(tx) => {},
            }
        }
        match last {
            SegSpec::Key(k) => {
                let es = n->Object_0;
                assert(n is Object);
                assert(crate::ungron::find_key(es, k) == es.len());
                assert(crate::ungron::spec_apply(n, q, a) == Ok::<
                    JsonSpec,
                    crate::ungron::GronError,
                >(JsonSpec::Object(es.push((k, seed(a))))));
                assert(crate::ungron::spec_apply(t, p0 + q, a) == Ok::<
                    JsonSpec,
                    crate::ungron::GronError,
                >(set_at(t, p0, JsonSpec::Object(es.push((k, seed(a)))))));
            },
            SegSpec::Idx => {
                let items = n->Array_0;
                assert(n is Array);
                assert(q.len() == 1);
                assert(crate::ungron::spec_apply(n, q, a) == Ok::<
                    JsonSpec,
                    crate::ungron::GronError,
                >(JsonSpec::Array(items.push(seed(a)))));
                assert(crate::ungron::spec_apply(t, p0 + q, a) == Ok::<
                    JsonSpec,
                    crate::ungron::GronError,
                >(set_at(t, p0, JsonSpec::Array(items.push(seed(a))))));
            },
        }
    }
}

/// After installing at a fresh place, the walk to it finds the value.
pub proof fn lemma_node_after_insert(t: JsonSpec, p: Seq<SegSpec>, x: JsonSpec)
    requires
        is_fresh_slot(t, p),
    ensures
        node_at(insert_at(t, p, x), p) == Some(x),
{
    if p.len() == 0 {
    } else {
        let p0 = p.subrange(0, p.len() - 1);
        let last = p[p.len() - 1];
        assert(p =~= p0.push(last));
        let n = node_at(t, p0)->Some_0;
        match last {
            SegSpec::Key(k) => {
                let es = n->Object_0;
                let o1 = JsonSpec::Object(es.push((k, x)));
                let t2 = set_at(t, p0, o1);
                lemma_node_at_set_at(t, p0, o1);
                lemma_node_at_snoc(t2, p0, last);
                lemma_find_key_miss(es, k);
                assert(forall|j: int|
                    0 <= j < es.len() ==> #[trigger] (es.push((k, x))[j]).0 != k);
                assert(es.push((k, x))[es.len() as int].0 == k);
                crate::ungron::lemma_find_key_at(es.push((k, x)), k, es.len() as int);
                assert(step_seg(o1, last) == Some(x));
            },
            SegSpec::Idx => {
                let items = n->Array_0;
                let a1 = JsonSpec::Array(items.push(x));
                let t2 = set_at(t, p0, a1);
                lemma_node_at_set_at(t, p0, a1);
                lemma_node_at_snoc(t2, p0, last);
                assert(step_seg(a1, last) == Some(x));
            },
        }
    }
}

/// Re-setting the freshly installed place replaces its value.
pub proof fn lemma_set_after_insert(t: JsonSpec, p: Seq<SegSpec>, x: JsonSpec, y: JsonSpec)
    requires
        is_fresh_slot(t, p),
    ensures
        set_at(insert_at(t, p, x), p, y) == insert_at(t, p, y),
{
    if p.len() == 0 {
    } else {
        let p0 = p.subrange(0, p.len() - 1);
        let last = p[p.len() - 1];
        assert(p =~= p0.push(last));
        let n = node_at(t, p0)->Some_0;
        lemma_node_after_insert(t, p, x);
        match last {
            SegSpec::Key(k) => {
                let es = n->Object_0;
                let o1 = JsonSpec::Object(es.push((k, x)));
                let t2 = set_at(t, p0, o1);
                lemma_node_at_set_at(t, p0, o1);
                assert(node_at(t2, p0.push(last)) is Some) by {
                    assert(node_at(insert_at(t, p, x), p) == Some(x));
                }
                lemma_set_at_snoc(t2, p0, last, y);
                lemma_find_key_miss(es, k);
                assert(forall|j: int|
                    0 <= j < es.len() ==> #[trigger] (es.push((k, x))[j]).0 != k);
                assert(es.push((k, x))[es.len() as int].0 == k);
                crate::ungron::lemma_find_key_at(es.push((k, x)), k, es.len() as int);
                assert(step_set(o1, last, y) == JsonSpec::Object(
                    es.push((k, x)).update(es.len() as int, (k, y)),
                ));
                assert(es.push((k, x)).update(es.len() as int, (k, y)) =~= es.push((k, y)));
                lemma_set_at_twice(t, p0, o1, JsonSpec::Object(es.push((k, y))));
            },
            SegSpec::Idx => {
                let items = n->Array_0;
                let a1 = JsonSpec::Array(items.push(x));
                let t2 = set_at(t, p0, a1);
                lemma_node_at_set_at(t, p0, a1);
                assert(node_at(t2, p0.push(last)) is Some) by {
                    assert(node_at(insert_at(t, p, x), p) == Some(x));
                }
                lemma_set_at_snoc(t2, p0, last, y);
                assert(step_set(a1, last, y) == JsonSpec::Array(
                    items.push(x).update(items.len() as int, y),
                ));
                assert(items.push(x).update(items.len() as int, y) =~= items.push(y));
                lemma_set_at_twice(t, p0, a1, JsonSpec::Array(items.push(y)));
            },
        }
    }
}

} // verus!

verus! {

/// Every statement the encoder emits for a safe document is clean.
#[verifier::spinoff_prover]
#[verifier::rlimit(100)]
pub proof fn lemma_stmts_clean(v: JsonSpec, gp: Seq<GSeg>)
    requires
        safe(v),
        gp_ok(gp),
    ensures
        forall|i: int| 0 <= i < stmts_of(v, gp).len() ==> clean(#[trigger] stmts_of(v, gp)[i]),
    decreases v, 0int,
{
    lemma_stmt_clean(gp, v);
    match v {
        JsonSpec::Array(items) => {
            assert(forall|i: int| 0 <= i < items.len() ==> safe(#[trigger] items[i]));
            lemma_stmts_arr_clean(items, gp, 0);
            let ss = stmts_of(v, gp);
            assert forall|i: int| 0 <= i < ss.len() implies clean(#[trigger] ss[i]) by {
                if i == 0 {
                    assert(ss[0] == stmt_of(gp, v));
                } else {
                    assert(ss[i] == stmts_arr(items, gp, 0)[i - 1]);
                }
            }
        },
        JsonSpec::Object(es) => {
            assert(v == JsonSpec::Object(es));
            assert(safe(JsonSpec::Object(es)));
            assert forall|i: int|
                0 <= i < es.len() implies key_ok(#[trigger] (es[i]).0) && safe(es[i].1) by {
                assert(safe(JsonSpec::Object(es)));
                assert(key_ok((es[i]).0));
                assert(safe(es[i].1));
            }
            lemma_stmts_obj_clean(es, gp);
            let ss = stmts_of(v, gp);
            assert forall|i: int| 0 <= i < ss.len() implies clean(#[trigger] ss[i]) by {
                if i == 0 {
                    assert(ss[0] == stmt_of(gp, v));
                } else {
                    assert(ss[i] == stmts_obj(es, gp)[i - 1]);
                }
            }
        },
        _ => {
            let ss = stmts_of(v, gp);
            assert(forall|i: int| 0 <= i < ss.len() ==> #[trigger] (ss[i]) == stmt_of(gp, v));
        },
    }
}

pub proof fn lemma_stmts_arr_clean(items: Seq<JsonSpec>, gp: Seq<GSeg>, j: nat)
    requires
        forall|i: int| 0 <= i < items.len() ==> safe(#[trigger] items[i]),
        gp_ok(gp),
    ensures
        forall|i: int|
            0 <= i < stmts_arr(items, gp, j).len() ==> clean(#[trigger] stmts_arr(items, gp, j)[i]),
    decreases items, 1int,
{
    if items.len() > 0 {
        let gp2 = gp.push(GSeg::Idx(j));
        assert(gp_ok(gp2)) by {
            assert(forall|i: int| 0 <= i < gp.len() ==> gp2[i] == #[trigger] gp[i]);
            assert(gp2[gp.len() as int] == GSeg::Idx(j));
        }
        lemma_stmts_clean(items[0], gp2);
        let rest = items.subrange(1, items.len() as int);
        assert(forall|i: int| 0 <= i < rest.len() ==> rest[i] == #[trigger] items[i + 1]);
        lemma_stmts_arr_clean(rest, gp, j + 1);
        let a = stmts_of(items[0], gp2);
        let b = stmts_arr(rest, gp, j + 1);
        assert forall|i: int| 0 <= i < (a + b).len() implies clean(#[trigger] (a + b)[i]) by {
            if i < a.len() {
                assert((a + b)[i] == a[i]);
            } else {
                assert((a + b)[i] == b[i - a.len()]);
            }
        }
    }
}

pub proof fn lemma_stmts_obj_clean(es: Seq<(Seq<u8>, JsonSpec)>, gp: Seq<GSeg>)
    requires
        forall|i: int| 0 <= i < es.len() ==> key_ok(#[trigger] (es[i]).0) && safe(es[i].1),
        gp_ok(gp),
    ensures
        forall|i: int|
            0 <= i < stmts_obj(es, gp).len() ==> clean(#[trigger] stmts_obj(es, gp)[i]),
    decreases es, 1int,
{
    if es.len() > 0 {
        let gp2 = gp.push(GSeg::Key(es[0].0));
        assert(gp_ok(gp2)) by {
            assert(forall|i: int| 0 <= i < gp.len() ==> gp2[i] == #[trigger] gp[i]);
            assert(gp2[gp.len() as int] == GSeg::Key(es[0].0));
            assert(key_ok(es[0].0));
        }
        lemma_stmts_clean(es[0].1, gp2);
        let rest = es.subrange(1, es.len() as int);
        assert(forall|i: int| 0 <= i < rest.len() ==> rest[i] == #[trigger] es[i + 1]);
        lemma_stmts_obj_clean(rest, gp);
        let a = stmts_of(es[0].1, gp2);
        let b = stmts_obj(rest, gp);
        assert forall|i: int| 0 <= i < (a + b).len() implies clean(#[trigger] (a + b)[i]) by {
            if i < a.len() {
                assert((a + b)[i] == a[i]);
            } else {
                assert((a + b)[i] == b[i - a.len()]);
            }
        }
    }
}

/// Folding the statements of a safe subtree into a tree with a fresh
/// place for it installs the subtree there.
pub proof fn lemma_fold_install(v: JsonSpec, gp: Seq<GSeg>, t: JsonSpec)
    requires
        safe(v),
        gp_ok(gp),
        is_fresh_slot(t, erase(gp)),
    ensures
        crate::ungron::spec_fold(t, stmts_of(v, gp)) == Ok::<JsonSpec, crate::ungron::GronError>(
            insert_at(t, erase(gp), v),
        ),
    decreases v, 0int,
{
    let ep = erase(gp);
    let header = stmt_of(gp, v);
    lemma_parse_stmt_inv(gp, v);
    lemma_install_one(t, ep, act_of(v));
    assert(crate::ungron::spec_add_stmt(t, header) == Ok::<JsonSpec, crate::ungron::GronError>(
        insert_at(t, ep, seed(act_of(v))),
    ));
    let t1 = insert_at(t, ep, seed(act_of(v)));
    assert(crate::ungron::spec_fold(t, seq![header]) == Ok::<
        JsonSpec,
        crate::ungron::GronError,
    >(t1)) by {
        assert(seq![header][0] == header);
        assert(seq![header].subrange(1, 1) =~= Seq::<Seq<u8>>::empty());
        assert(crate::ungron::spec_fold(t1, Seq::<Seq<u8>>::empty()) == Ok::<
            JsonSpec,
            crate::ungron::GronError,
        >(t1));
    }
    match v {
        JsonSpec::Array(items) => {
            assert(seed(act_of(v)) == JsonSpec::Array(Seq::empty()));
            crate::ungron::lemma_fold_append(t, seq![header], stmts_arr(items, gp, 0));
            assert(stmts_of(v, gp) == seq![header] + stmts_arr(items, gp, 0));
            lemma_node_after_insert(t, ep, JsonSpec::Array(Seq::empty()));
            lemma_fold_arr(items, gp, 0, t1);
            assert(Seq::<JsonSpec>::empty() + items =~= items);
            lemma_set_after_insert(
                t,
                ep,
                JsonSpec::Array(Seq::empty()),
                JsonSpec::Array(items),
            );
        },
        JsonSpec::Object(es) => {
            assert(seed(act_of(v)) == JsonSpec::Object(Seq::empty()));
            crate::ungron::lemma_fold_append(t, seq![header], stmts_obj(es, gp));
            assert(stmts_of(v, gp) == seq![header] + stmts_obj(es, gp));
            lemma_node_after_insert(t, ep, JsonSpec::Object(Seq::empty()));
            lemma_fold_obj(es, gp, t1);
            assert(Seq::<(Seq<u8>, JsonSpec)>::empty() + es =~= es);
            lemma_set_after_insert(
                t,
                ep,
                JsonSpec::Object(Seq::empty()),
                JsonSpec::Object(es),
            );
        },
        _ => {
            assert(stmts_of(v, gp) == seq![header]);
            assert(seed(act_of(v)) == v) by {
                match v {
                    JsonSpec::Str(s0) => {
                        lemma_escape_c1_free(s0);
                    },
                    _ => {},
                }
            }
        },
    }
}

/// Folding the statements of safe array elements appends them, in order,
/// to the array the path walks to.
pub proof fn lemma_fold_arr(items: Seq<JsonSpec>, gp: Seq<GSeg>, j: nat, t: JsonSpec)
    requires
        forall|i: int| 0 <= i < items.len() ==> safe(#[trigger] items[i]),
        gp_ok(gp),
        node_at(t, erase(gp)) is Some,
        node_at(t, erase(gp))->Some_0 is Array,
    ensures
        crate::ungron::spec_fold(t, stmts_arr(items, gp, j)) == Ok::<
            JsonSpec,
            crate::ungron::GronError,
        >(
            set_at(
                t,
                erase(gp),
                JsonSpec::Array(node_at(t, erase(gp))->Some_0->Array_0 + items),
            ),
        ),
    decreases items, 1int,
{
    let ep = erase(gp);
    let cur = node_at(t, ep)->Some_0->Array_0;
    if items.len() == 0 {
        assert(cur + items =~= cur);
        assert(JsonSpec::Array(cur) == node_at(t, ep)->Some_0);
        lemma_set_at_identity(t, ep);
    } else {
        let gp2 = gp.push(GSeg::Idx(j));
        assert(gp_ok(gp2)) by {
            assert(forall|i: int| 0 <= i < gp.len() ==> gp2[i] == #[trigger] gp[i]);
            assert(gp2[gp.len() as int] == GSeg::Idx(j));
        }
        lemma_erase_push(gp, GSeg::Idx(j));
        let ep2 = erase(gp2);
        assert(ep2 == ep.push(SegSpec::Idx));
        assert(is_fresh_slot(t, ep2)) by {
            assert(ep2.subrange(0, ep2.len() - 1) =~= ep);
            assert(ep2[ep2.len() - 1] == SegSpec::Idx);
        }
        lemma_fold_install(items[0], gp2, t);
        let t2 = insert_at(t, ep2, items[0]);
        assert(t2 == set_at(t, ep, JsonSpec::Array(cur.push(items[0])))) by {
            assert(ep2.subrange(0, ep2.len() - 1) =~= ep);
        }
        crate::ungron::lemma_fold_append(
            t,
            stmts_of(items[0], gp2),
            stmts_arr(items.subrange(1, items.len() as int), gp, j + 1),
        );
        assert(stmts_arr(items, gp, j) == stmts_of(items[0], gp2) + stmts_arr(
            items.subrange(1, items.len() as int),
            gp,
            j + 1,
        ));
        lemma_node_at_set_at(t, ep, JsonSpec::Array(cur.push(items[0])));
        let rest = items.subrange(1, items.len() as int);
        assert(forall|i: int| 0 <= i < rest.len() ==> rest[i] == #[trigger] items[i + 1]);
        lemma_fold_arr(rest, gp, j + 1, t2);
        assert(crate::ungron::spec_fold(t2, stmts_arr(rest, gp, j + 1)) == Ok::<
            JsonSpec,
            crate::ungron::GronError,
        >(set_at(t2, ep, JsonSpec::Array(cur.push(items[0]) + rest))));
        lemma_set_at_twice(
            t,
            ep,
            JsonSpec::Array(cur.push(items[0])),
            JsonSpec::Array(cur.push(items[0]) + rest),
        );
        assert(cur.push(items[0]) + rest =~= cur + items);
    }
}

/// Folding the statements of safe object entries appends them, in order,
/// to the object the path walks to, provided none of their keys is
/// already present.
pub proof fn lemma_fold_obj(es: Seq<(Seq<u8>, JsonSpec)>, gp: Seq<GSeg>, t: JsonSpec)
    requires
        forall|i: int| 0 <= i < es.len() ==> key_ok(#[trigger] (es[i]).0) && safe(es[i].1),
        forall|i: int, j: int|
            0 <= i < es.len() && 0 <= j < es.len() && i != j ==> #[trigger] (es[i].0)
                != #[trigger] (es[j].0),
        gp_ok(gp),
        node_at(t, erase(gp)) is Some,
        node_at(t, erase(gp))->Some_0 is Object,
        forall|i: int, m: int|
            0 <= i < es.len() && 0 <= m < node_at(t, erase(gp))->Some_0->Object_0.len()
                ==> #[trigger] (node_at(t, erase(gp))->Some_0->Object_0[m].0) != #[trigger] (
            es[i].0),
    ensures
        crate::ungron::spec_fold(t, stmts_obj(es, gp)) == Ok::<
            JsonSpec,
            crate::ungron::GronError,
        >(
            set_at(
                t,
                erase(gp),
                JsonSpec::Object(node_at(t, erase(gp))->Some_0->Object_0 + es),
            ),
        ),
    decreases es, 1int,
{
    let ep = erase(gp);
    let cur = node_at(t, ep)->Some_0->Object_0;
    if es.len() == 0 {
        assert(cur + es =~= cur);
        assert(JsonSpec::Object(cur) == node_at(t, ep)->Some_0);
        lemma_set_at_identity(t, ep);
    } else {
        let k0 = es[0].0;
        let v0 = es[0].1;
        let gp2 = gp.push(GSeg::Key(k0));
        assert(gp_ok(gp2)) by {
            assert(forall|i: int| 0 <= i < gp.len() ==> gp2[i] == #[trigger] gp[i]);
            assert(gp2[gp.len() as int] == GSeg::Key(k0));
            assert(key_ok(k0));
        }
        lemma_erase_push(gp, GSeg::Key(k0));
        let ep2 = erase(gp2);
        assert(ep2 == ep.push(SegSpec::Key(k0)));
        assert(is_fresh_slot(t, ep2)) by {
            assert(ep2.subrange(0, ep2.len() - 1) =~= ep);
            assert(ep2[ep2.len() - 1] == SegSpec::Key(k0));
            assert(forall|m: int| 0 <= m < cur.len() ==> #[trigger] (cur[m].0) != k0);
            crate::ungron::lemma_find_key_at(cur, k0, cur.len() as int);
        }
        lemma_fold_install(v0, gp2, t);
        let t2 = insert_at(t, ep2, v0);
        assert(t2 == set_at(t, ep, JsonSpec::Object(cur.push((k0, v0))))) by {
            assert(ep2.subrange(0, ep2.len() - 1) =~= ep);
        }
        crate::ungron::lemma_fold_append(
            t,
            stmts_of(v0, gp2),
            stmts_obj(es.subrange(1, es.len() as int), gp),
        );
        assert(stmts_obj(es, gp) == stmts_of(v0, gp2) + stmts_obj(
            es.subrange(1, es.len() as int),
            gp,
        ));
        lemma_node_at_set_at(t, ep, JsonSpec::Object(cur.push((k0, v0))));
        let rest = es.subrange(1, es.len() as int);
        assert(forall|i: int| 0 <= i < rest.len() ==> rest[i] == #[trigger] es[i + 1]);
        let cur2 = cur.push((k0, v0));
        assert(forall|i: int, m: int|
            0 <= i < rest.len() && 0 <= m < cur2.len() ==> #[trigger] (cur2[m].0)
                != #[trigger] (rest[i].0)) by {
            assert forall|i: int, m: int|
                0 <= i < rest.len() && 0 <= m < cur2.len() implies #[trigger] (cur2[m].0)
                != #[trigger] (rest[i].0) by {
                assert(rest[i] == es[i + 1]);
                if m < cur.len() {
                    assert(cur2[m] == cur[m]);
                } else {
                    assert(cur2[m] == (k0, v0));
                    assert(es[0].0 != es[i + 1].0);
                }
            }
        }
        lemma_fold_obj(rest, gp, t2);
        assert(crate::ungron::spec_fold(t2, stmts_obj(rest, gp)) == Ok::<
            JsonSpec,
            crate::ungron::GronError,
        >(set_at(t2, ep, JsonSpec::Object(cur2 + rest))));
        lemma_set_at_twice(
            t,
            ep,
            JsonSpec::Object(cur2),
            JsonSpec::Object(cur2 + rest),
        );
        assert(cur2 + rest =~= cur + es) by {
            assert((k0, v0) == es[0]);
        }
    }
}

} // verus!

verus! {

/// Inserting an entry with a fresh key keeps every entry and keeps the
/// keys pairwise distinct.
pub proof fn lemma_insert_entry_mem(e: (Seq<u8>, JsonSpec), s: Seq<(Seq<u8>, JsonSpec)>)
    requires
        forall|m: int| 0 <= m < s.len() ==> #[trigger] (s[m]).0 != e.0,
        forall|m: int, n: int|
            0 <= m < s.len() && 0 <= n < s.len() && m != n ==> #[trigger] (s[m].0)
                != #[trigger] (s[n].0),
    ensures
        crate::value::insert_entry(e, s).len() == s.len() + 1,
        forall|i: int|
            0 <= i < crate::value::insert_entry(e, s).len() ==> (#[trigger] (crate::value::insert_entry(
                e,
                s,
            )[i]) == e || exists|j: int|
                0 <= j < s.len() && crate::value::insert_entry(e, s)[i] == s[j]),
        forall|i: int, j: int|
            0 <= i < crate::value::insert_entry(e, s).len() && 0 <= j
                < crate::value::insert_entry(e, s).len() && i != j ==> #[trigger] (crate::value::insert_entry(
                e,
                s,
            )[i].0) != #[trigger] (crate::value::insert_entry(e, s)[j].0),
    decreases s.len(),
{
    let r = crate::value::insert_entry(e, s);
    if s.len() == 0 {
        assert(r =~= seq![e]);
    } else if crate::value::lex_lt(s[0].0, e.0) {
        let sp = s.subrange(1, s.len() as int);
        assert(forall|m: int| 0 <= m < sp.len() ==> sp[m] == #[trigger] (s[m + 1]));
        lemma_insert_entry_mem(e, sp);
        let rp = crate::value::insert_entry(e, sp);
        assert(r == seq![s[0]] + rp);
        assert(r[0] == s[0]);
        assert(forall|i: int| 1 <= i < r.len() ==> #[trigger] (r[i]) == rp[i - 1]);
        assert forall|i: int|
            0 <= i < r.len() implies (#[trigger] (r[i]) == e || exists|j: int|
            0 <= j < s.len() && r[i] == s[j]) by {
            if i == 0 {
                assert(r[i] == s[0]);
            } else {
                let x = rp[i - 1];
                if x == e {
                } else {
                    let j = choose|j: int| 0 <= j < sp.len() && rp[i - 1] == sp[j];
                    assert(r[i] == s[j + 1]);
                }
            }
        }
        assert forall|i: int, j: int|
            0 <= i < r.len() && 0 <= j < r.len() && i != j implies #[trigger] (r[i].0)
            != #[trigger] (r[j].0) by {
            if i != 0 && j != 0 {
                assert(rp[i - 1].0 != rp[j - 1].0);
            } else {
                let nz = if i == 0 {
                    j
                } else {
                    i
                };
                assert(r[nz] == rp[nz - 1]);
                if rp[nz - 1] == e {
                    assert(e.0 != s[0].0);
                } else {
                    let m = choose|m: int| 0 <= m < sp.len() && rp[nz - 1] == sp[m];
                    assert(sp[m] == s[m + 1]);
                    assert(s[m + 1].0 != s[0].0);
                }
            }
        }
    } else {
        assert(r == seq![e] + s);
        assert(r[0] == e);
        assert(forall|i: int| 1 <= i < r.len() ==> #[trigger] (r[i]) == s[i - 1]);
    }
}

/// Sorting keeps every entry and the pairwise distinctness of the keys.
pub proof fn lemma_sort_entries_mem(es: Seq<(Seq<u8>, JsonSpec)>)
    requires
        forall|m: int, n: int|
            0 <= m < es.len() && 0 <= n < es.len() && m != n ==> #[trigger] (es[m].0)
                != #[trigger] (es[n].0),
    ensures
        crate::value::sort_entries(es).len() == es.len(),
        forall|i: int|
            0 <= i < es.len() ==> exists|j: int|
                0 <= j < es.len() && #[trigger] (crate::value::sort_entries(es)[i]) == es[j],
        forall|i: int, j: int|
            0 <= i < es.len() && 0 <= j < es.len() && i != j ==> #[trigger] (crate::value::sort_entries(
                es,
            )[i].0) != #[trigger] (crate::value::sort_entries(es)[j].0),
    decreases es.len(),
{
    if es.len() > 0 {
        let pre = es.subrange(0, es.len() - 1);
        let last = es[es.len() - 1];
        assert(forall|m: int| 0 <= m < pre.len() ==> pre[m] == #[trigger] (es[m]));
        lemma_sort_entries_mem(pre);
        let sp = crate::value::sort_entries(pre);
        assert forall|m: int| 0 <= m < sp.len() implies #[trigger] (sp[m]).0 != last.0 by {
            let j = choose|j: int| 0 <= j < pre.len() && sp[m] == pre[j];
            assert(es[j].0 != es[es.len() - 1].0);
        }
        lemma_insert_entry_mem(last, sp);
        let r = crate::value::sort_entries(es);
        assert(r == crate::value::insert_entry(last, sp));
        assert forall|i: int|
            0 <= i < es.len() implies exists|j: int| 0 <= j < es.len() && #[trigger] (r[i])
            == es[j] by {
            if r[i] == last {
                assert(r[i] == es[es.len() - 1]);
            } else {
                let m = choose|m: int| 0 <= m < sp.len() && r[i] == sp[m];
                let j = choose|j: int| 0 <= j < pre.len() && sp[m] == pre[j];
                assert(r[i] == es[j]);
            }
        }
    }
}

/// Canonicalizing a safe document yields a safe document.
pub proof fn lemma_normalize_safe(v: JsonSpec)
    requires
        safe(v),
    ensures
        safe(normalize_spec(v)),
    decreases v,
{
    match v {
        JsonSpec::Array(items) => {
            let ni = crate::value::normalize_arr(items);
            crate::value::lemma_normalize_arr_index(items);
            assert forall|i: int| 0 <= i < ni.len() implies safe(#[trigger] ni[i]) by {
                assert(safe(JsonSpec::Array(items)));
                assert(safe(items[i]));
                lemma_normalize_safe(items[i]);
                assert(ni[i] == normalize_spec(items[i]));
            }
        },
        JsonSpec::Object(es) => {
            let ne = crate::value::normalize_obj(es);
            crate::value::lemma_normalize_obj_index(es);
            assert forall|i: int|
                0 <= i < ne.len() implies key_ok(#[trigger] (ne[i]).0) && safe(ne[i].1) by {
                assert(safe(JsonSpec::Object(es)));
                assert(key_ok((es[i]).0));
                assert(safe(es[i].1));
                lemma_normalize_safe(es[i].1);
                assert(ne[i] == (es[i].0, normalize_spec(es[i].1)));
            }
            assert(forall|m: int, n: int|
                0 <= m < ne.len() && 0 <= n < ne.len() && m != n ==> #[trigger] (ne[m].0)
                    != #[trigger] (ne[n].0)) by {
                assert(safe(JsonSpec::Object(es)));
                assert(forall|i: int| 0 <= i < ne.len() ==> #[trigger] (ne[i]).0 == es[i].0);
            }
            lemma_sort_entries_mem(ne);
            let sorted = crate::value::sort_entries(ne);
            assert forall|i: int|
                0 <= i < sorted.len() implies key_ok(#[trigger] (sorted[i]).0) && safe(
                sorted[i].1,
            ) by {
                let j = choose|j: int| 0 <= j < ne.len() && sorted[i] == ne[j];
                assert(key_ok((ne[j]).0) && safe(ne[j].1));
            }
            assert(normalize_spec(v) == JsonSpec::Object(sorted));
            assert(safe(JsonSpec::Object(sorted)));
        },
        _ => {},
    }
}

/// Decoding what the encoder emits for a safe document, statement by
/// statement from a fresh placeholder, rebuilds the document exactly.
pub proof fn lemma_decode_inverts_encode(w: JsonSpec)
    requires
        safe(w),
    ensures
        crate::ungron::spec_fold(
            JsonSpec::Null,
            crate::ungron::split_stmts(gron_lines(w, root_path(false), false)),
        ) == Ok::<JsonSpec, crate::ungron::GronError>(w),
{
    let e: Seq<GSeg> = Seq::empty();
    assert(root_path(false) + render_segs(e) =~= root_path(false));
    lemma_lines_are_stmts(w, e);
    assert(gp_ok(e));
    lemma_stmts_clean(w, e);
    lemma_split_flatten(stmts_of(w, e));
    assert(erase(e) =~= Seq::<SegSpec>::empty());
    assert(is_fresh_slot(JsonSpec::Null, erase(e)));
    lemma_fold_install(w, e, JsonSpec::Null);
    assert(insert_at(JsonSpec::Null, erase(e), w) == w);
}

/// The round-trip law: for a safe document, decoding the encoder's
/// uncolored output rebuilds the document in canonical form, its object
/// keys in lexicographic order and everything else preserved exactly.
pub proof fn lemma_roundtrip(v: JsonSpec)
    requires
        safe(v),
    ensures
        crate::ungron::spec_fold(
            JsonSpec::Null,
            crate::ungron::split_stmts(gron_output(v, false)),
        ) == Ok::<JsonSpec, crate::ungron::GronError>(normalize_spec(v)),
{
    lemma_normalize_safe(v);
    lemma_decode_inverts_encode(normalize_spec(v));
}

} // verus!

verus! {

/// The round-trip law at the entry points: decoding the encoder's
/// uncolored output succeeds and pretty-prints the canonical form of the
/// document.
pub proof fn lemma_ungron_of_gron(v: JsonSpec)
    requires
        safe(v),
    ensures
        crate::ungron::spec_ungron(gron_output(v, false)) == Ok::<
            Seq<u8>,
            crate::ungron::GronError,
        >(crate::pretty::pretty_document(normalize_spec(v))),
{
    lemma_roundtrip(v);
    let w = normalize_spec(v);
    let path = root_path(false);
    assert(gron_output(v, false).len() > 0) by {
        match w {
            JsonSpec::Array(items) => {
                assert(gron_lines(w, path, false) == line_of(path, payload(w, false)) + gron_arr(
                    items,
                    path,
                    0,
                    false,
                ));
            },
            JsonSpec::Object(es) => {
                assert(gron_lines(w, path, false) == line_of(path, payload(w, false)) + gron_obj(
                    es,
                    path,
                    false,
                ));
            },
            _ => {
                assert(gron_lines(w, path, false) == line_of(path, payload(w, false)));
            },
        }
    }
}

} // verus!
