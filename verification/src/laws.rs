//! The properties the codec promises, stated and proved over the
//! specification functions that the executable contracts use.

use crate::escape::c1_escape;
use crate::escape::escape_c1;
use crate::escape::c1_free;
use crate::escape::starts_with_c1;
use crate::gron::gron_output;
use crate::ungron::spec_apply;
use crate::ungron::ActionSpec;
use crate::ungron::GronError;
use crate::ungron::SegSpec;
use crate::value::JsonSpec;
use vstd::prelude::*;

verus! {

/// Encoding is referentially transparent: the output bytes are a function
/// of the document model and the color flag alone, so equal inputs give
/// byte-identical output however often and wherever the encoder runs.
pub proof fn lemma_gron_deterministic(a: JsonSpec, b: JsonSpec, color: bool)
    requires
        a == b,
    ensures
        gron_output(a, color) == gron_output(b, color),
{
}

/// The first byte of an escaped string is a backslash or the original
/// first byte.
proof fn lemma_escape_c1_first(s: Seq<u8>)
    requires
        s.len() > 0,
    ensures
        escape_c1(s).len() > 0,
        escape_c1(s)[0] == 0x5c || escape_c1(s)[0] == s[0],
{
    if starts_with_c1(s) {
        assert(escape_c1(s)[0] == c1_escape(s[1])[0]);
    } else {
        assert(escape_c1(s)[0] == seq![s[0]][0]);
    }
}

/// Escaping leaves no C1 control codepoint behind: every 0xC2 byte of the
/// output is followed by something outside the C1 continuation range, so
/// the escaped text is safe for single-line display.
pub proof fn lemma_escape_c1_leaves_no_c1(s: Seq<u8>)
    ensures
        c1_free(escape_c1(s)),
    decreases s.len(),
{
    if s.len() == 0 {
        assert forall|i: int| 0 <= i < escape_c1(s).len() implies !starts_with_c1(
            #[trigger] escape_c1(s).subrange(i, escape_c1(s).len() as int),
        ) by {}
    } else {
        let out = escape_c1(s);
        let chunk: Seq<u8> = if starts_with_c1(s) {
            c1_escape(s[1])
        } else {
            seq![s[0]]
        };
        let rest: Seq<u8> = if starts_with_c1(s) {
            s.subrange(2, s.len() as int)
        } else {
            s.subrange(1, s.len() as int)
        };
        lemma_escape_c1_leaves_no_c1(rest);
        assert(out == chunk + escape_c1(rest));
        assert forall|i: int| 0 <= i < out.len() implies !starts_with_c1(
            #[trigger] out.subrange(i, out.len() as int),
        ) by {
            let tail = out.subrange(i, out.len() as int);
            if tail.len() >= 2 {
                assert(tail[0] == out[i] && tail[1] == out[i + 1]);
                if i + 1 < chunk.len() {
                    // both bytes inside the chunk: only the six-byte
                    // escape is that long, and it holds only ASCII
                    assert(starts_with_c1(s) && chunk == c1_escape(s[1]));
                    assert(out[i] == chunk[i]);
                    assert(chunk[0] == 0x5c && chunk[1] == 0x75 && chunk[2] == 0x30 && chunk[3]
                        == 0x30 && chunk[4] == crate::escape::hex_digit(s[1] / 16) && chunk[5]
                        == crate::escape::hex_digit(s[1] % 16));
                    assert(out[i] != 0xc2);
                } else if i < chunk.len() {
                    // the pair straddles the boundary
                    assert(out[i] == chunk[i]);
                    assert(escape_c1(rest).len() > 0);
                    assert(out[i + 1] == escape_c1(rest)[0]);
                    if starts_with_c1(s) {
                        assert(chunk[chunk.len() - 1] == crate::escape::hex_digit(s[1] % 16));
                        assert(out[i] < 0x80);
                    } else {
                        assert(out[i] == s[0]);
                        if out[i] == 0xc2 {
                            assert(rest.len() > 0) by {
                                if rest.len() == 0 {
                                    assert(escape_c1(rest).len() == 0);
                                }
                            }
                            lemma_escape_c1_first(rest);
                            if escape_c1(rest)[0] != 0x5c {
                                assert(out[i + 1] == rest[0]);
                                assert(rest[0] == s[1]);
                                assert(!starts_with_c1(s));
                                assert(!(0x80 <= s[1] <= 0x9f));
                            }
                        }
                    }
                } else {
                    // both bytes in the escaped remainder
                    let j = i - chunk.len();
                    assert(out[i] == escape_c1(rest)[j]);
                    assert(out[i + 1] == escape_c1(rest)[j + 1]);
                    assert(!starts_with_c1(
                        escape_c1(rest).subrange(j, escape_c1(rest).len() as int),
                    ));
                    assert(escape_c1(rest).subrange(j, escape_c1(rest).len() as int)[0]
                        == escape_c1(rest)[j]);
                    assert(escape_c1(rest).subrange(j, escape_c1(rest).len() as int)[1]
                        == escape_c1(rest)[j + 1]);
                }
            }
        }
    }
}


/// A container header line is idempotent: where its path is made of keys
/// and a line nested under that path follows, applying the header first
/// changes nothing — the nested line builds the same tree either way, and
/// where the header fails, the nested line fails the same way.
pub proof fn lemma_header_idempotent(
    t: JsonSpec,
    p: Seq<SegSpec>,
    q: Seq<SegSpec>,
    hdr: ActionSpec,
    a: ActionSpec,
)
    requires
        forall|i: int| 0 <= i < p.len() ==> #[trigger] (p[i]) is Key,
        q.len() > 0,
        (hdr == ActionSpec::ObjHeader && q[0] is Key) || (hdr == ActionSpec::ArrHeader
            && q[0] is Idx),
    ensures
        match spec_apply(t, p, hdr) {
            Ok(t2) => spec_apply(t2, p + q, a) == spec_apply(t, p + q, a),
            Err(e) => spec_apply(t, p + q, a) == Err::<JsonSpec, GronError>(e),
        },
    decreases p.len(),
{
    let pq = p + q;
    if p.len() == 0 {
        assert(pq =~= q);
        match spec_apply(t, p, hdr) {
            Ok(t2) => {
                if t is Null {
                    if hdr == ActionSpec::ObjHeader {
                        assert(t2 == JsonSpec::Object(Seq::empty()));
                        match q[0] {
                            SegSpec::Key(k) => {
                                assert(spec_apply(t2, q, a) == spec_apply(t, q, a)) by {
                                    assert(t2->Object_0 =~= Seq::<(Seq<u8>, JsonSpec)>::empty());
                                }
                            },
                            SegSpec::Idx => {},
                        }
                    } else {
                        assert(t2 == JsonSpec::Array(Seq::empty()));
                        match q[0] {
                            SegSpec::Idx => {
                                assert(spec_apply(t2, q, a) == spec_apply(t, q, a)) by {
                                    assert(t2->Array_0 =~= Seq::<JsonSpec>::empty());
                                }
                            },
                            SegSpec::Key(k) => {},
                        }
                    }
                } else {
                    assert(t2 == t);
                }
            },
            Err(e) => {
                assert(false);
            },
        }
    } else {
        assert(pq.len() > 0);
        assert(pq[0] == p[0]);
        assert(pq.subrange(1, pq.len() as int) =~= p.subrange(1, p.len() as int) + q);
        let rest = p.subrange(1, p.len() as int);
        assert(forall|i: int| 0 <= i < rest.len() ==> rest[i] == #[trigger] (p[i + 1]));
        assert(p[0] is Key);
        let k = p[0]->Key_0;
        if !(t is Null || t is Object) {
            assert(spec_apply(t, p, hdr) == Err::<JsonSpec, GronError>(GronError::TypeMismatch));
            assert(spec_apply(t, pq, a) == Err::<JsonSpec, GronError>(GronError::TypeMismatch));
        } else {
            let es: Seq<(Seq<u8>, JsonSpec)> = if t is Null {
                Seq::empty()
            } else {
                t->Object_0
            };
            let i = crate::ungron::find_key(es, k);
            crate::ungron::lemma_find_key_bounds(es, k);
            if i == es.len() {
                lemma_header_idempotent(JsonSpec::Null, rest, q, hdr, a);
                match spec_apply(JsonSpec::Null, rest, hdr) {
                    Ok(c) => {
                        let t2 = JsonSpec::Object(es.push((k, c)));
                        assert(spec_apply(t, p, hdr) == Ok::<JsonSpec, GronError>(t2));
                        let es2 = es.push((k, c));
                        assert(crate::ungron::find_key(es2, k) == es.len()) by {
                            crate::roundtrip::lemma_find_key_miss(es, k);
                            assert(forall|j: int|
                                0 <= j < es.len() ==> #[trigger] (es2[j]).0 != k);
                            assert(es2[es.len() as int].0 == k);
                            crate::ungron::lemma_find_key_at(es2, k, es.len() as int);
                        }
                        match spec_apply(c, rest + q, a) {
                            Ok(c2) => {
                                assert(spec_apply(t2, pq, a) == Ok::<JsonSpec, GronError>(
                                    JsonSpec::Object(es2.update(es.len() as int, (k, c2))),
                                ));
                                assert(spec_apply(t, pq, a) == Ok::<JsonSpec, GronError>(
                                    JsonSpec::Object(es.push((k, c2))),
                                ));
                                assert(es2.update(es.len() as int, (k, c2)) =~= es.push((k, c2)));
                            },
                            Err(e2) => {
                                assert(spec_apply(t2, pq, a) == Err::<JsonSpec, GronError>(e2));
                                assert(spec_apply(t, pq, a) == Err::<JsonSpec, GronError>(e2));
                            },
                        }
                    },
                    Err(e) => {
                        assert(spec_apply(t, p, hdr) == Err::<JsonSpec, GronError>(e));
                        assert(spec_apply(t, pq, a) == Err::<JsonSpec, GronError>(e));
                    },
                }
            } else {
                lemma_header_idempotent(es[i].1, rest, q, hdr, a);
                match spec_apply(es[i].1, rest, hdr) {
                    Ok(c) => {
                        let es2 = es.update(i, (k, c));
                        let t2 = JsonSpec::Object(es2);
                        assert(spec_apply(t, p, hdr) == Ok::<JsonSpec, GronError>(t2));
                        assert(crate::ungron::find_key(es2, k) == i) by {
                            assert(es2.len() == es.len());
                            assert(forall|j: int|
                                0 <= j < es.len() ==> #[trigger] (es[j]).0 == es2[j].0) by {
                                assert(es[i].0 == k);
                            }
                            crate::roundtrip::lemma_find_key_keys_eq(es, es2, k);
                        }
                        match spec_apply(c, rest + q, a) {
                            Ok(c2) => {
                                assert(spec_apply(t2, pq, a) == Ok::<JsonSpec, GronError>(
                                    JsonSpec::Object(es2.update(i, (k, c2))),
                                ));
                                assert(spec_apply(t, pq, a) == Ok::<JsonSpec, GronError>(
                                    JsonSpec::Object(es.update(i, (k, c2))),
                                ));
                                assert(es2.update(i, (k, c2)) =~= es.update(i, (k, c2)));
                            },
                            Err(e2) => {},
                        }
                    },
                    Err(e) => {
                        assert(spec_apply(t, p, hdr) == Err::<JsonSpec, GronError>(e));
                        assert(spec_apply(t, pq, a) == Err::<JsonSpec, GronError>(e));
                    },
                }
            }
        }
    }
}


/// The header-line law over a whole line set: a container header line
/// with a key-only path, immediately followed by a line nested under that
/// path, folds to the same tree as the line set without the header.
pub proof fn lemma_header_line_redundant(
    t: JsonSpec,
    l1: Seq<u8>,
    l2: Seq<u8>,
    rest: Seq<Seq<u8>>,
)
    requires
        crate::ungron::spec_parse_stmt(l1) is Ok,
        crate::ungron::spec_parse_stmt(l2) is Ok,
        forall|i: int|
            0 <= i < crate::ungron::spec_parse_stmt(l1)->Ok_0.0.len()
                ==> #[trigger] (crate::ungron::spec_parse_stmt(l1)->Ok_0.0[i]) is Key,
        crate::ungron::spec_parse_stmt(l2)->Ok_0.0.len() > crate::ungron::spec_parse_stmt(
            l1,
        )->Ok_0.0.len(),
        crate::ungron::spec_parse_stmt(l2)->Ok_0.0.subrange(
            0,
            crate::ungron::spec_parse_stmt(l1)->Ok_0.0.len() as int,
        ) == crate::ungron::spec_parse_stmt(l1)->Ok_0.0,
        (crate::ungron::spec_parse_stmt(l1)->Ok_0.1 == ActionSpec::ObjHeader
            && crate::ungron::spec_parse_stmt(l2)->Ok_0.0[crate::ungron::spec_parse_stmt(
            l1,
        )->Ok_0.0.len() as int] is Key) || (crate::ungron::spec_parse_stmt(l1)->Ok_0.1
            == ActionSpec::ArrHeader && crate::ungron::spec_parse_stmt(
            l2,
        )->Ok_0.0[crate::ungron::spec_parse_stmt(l1)->Ok_0.0.len() as int] is Idx),
    ensures
        crate::ungron::spec_fold(t, seq![l1, l2] + rest) == crate::ungron::spec_fold(
            t,
            seq![l2] + rest,
        ),
{
    let p1 = crate::ungron::spec_parse_stmt(l1)->Ok_0.0;
    let hdr = crate::ungron::spec_parse_stmt(l1)->Ok_0.1;
    let p2 = crate::ungron::spec_parse_stmt(l2)->Ok_0.0;
    let a2 = crate::ungron::spec_parse_stmt(l2)->Ok_0.1;
    let q = p2.subrange(p1.len() as int, p2.len() as int);
    assert(q.len() >= 1);
    assert(q[0] == p2[p1.len() as int]);
    assert(p1 + q =~= p2);
    lemma_header_idempotent(t, p1, q, hdr, a2);
    let with_hdr = seq![l1, l2] + rest;
    let without = seq![l2] + rest;
    assert(with_hdr[0] == l1);
    assert(with_hdr.subrange(1, with_hdr.len() as int) =~= without);
    assert(without[0] == l2);
    assert(without.subrange(1, without.len() as int) =~= rest);
    assert(crate::ungron::spec_add_stmt(t, l1) == spec_apply(t, p1, hdr));
    match spec_apply(t, p1, hdr) {
        Ok(t2) => {
            assert(crate::ungron::spec_fold(t, with_hdr) == crate::ungron::spec_fold(
                t2,
                without,
            ));
            assert(crate::ungron::spec_add_stmt(t2, l2) == spec_apply(t2, p1 + q, a2));
            assert(crate::ungron::spec_add_stmt(t, l2) == spec_apply(t, p1 + q, a2));
            assert(spec_apply(t2, p1 + q, a2) == spec_apply(t, p1 + q, a2));
            match spec_apply(t, p1 + q, a2) {
                Ok(t3) => {},
                Err(e) => {},
            }
        },
        Err(e) => {
            assert(crate::ungron::spec_fold(t, with_hdr) == Err::<JsonSpec, GronError>(e));
            assert(crate::ungron::spec_add_stmt(t, l2) == spec_apply(t, p1 + q, a2));
            assert(spec_apply(t, p1 + q, a2) == Err::<JsonSpec, GronError>(e));
        },
    }
}

} // verus!
