//! The gron decoder: an input text is split into statements, each
//! statement is parsed character by character into a path and a value
//! action, and the actions are folded into a tree from a fresh null
//! placeholder. Independently folded statement groups combine with an
//! order-preserving merge.

use crate::num::i64_text_value;
use crate::num::is_digit;
use crate::num::is_f64_text;
use crate::num::is_i64_text;
use crate::num::is_u64_text;
use crate::num::u64_text_value;
use crate::value::JsonSpec;
use crate::value::JsonValue;
use vstd::prelude::*;

verus! {

/// Everything that can make a decode fail. The decoder never panics: a
/// malformed statement or an inconsistent line set surfaces as one of
/// these.
#[derive(Debug, Clone, Copy, PartialEq, Eq)]
pub enum GronError {
    /// The input was empty.
    Eof,
    /// A statement does not begin with the root token `json`.
    MissingRoot,
    /// A subscript does not begin with a decimal digit.
    UnsupportedSubscript,
    /// A subscript is never closed by `]`.
    UnclosedSubscript,
    /// A key runs to the end of the statement without a delimiter.
    UnterminatedKey,
    /// A byte that can start no path segment, or a statement that ends
    /// before its value.
    InvalidPath,
    /// The value part is not of the form ` = <literal>;`.
    BadLiteral,
    /// A numeric literal that is not unsigned, signed or floating-point
    /// text.
    BadNumber,
    /// A path walks into a node of a conflicting type.
    TypeMismatch,
    /// Two partial trees of conflicting types were merged.
    MergeMismatch,
}

/// One path segment: an object key, or an array subscript. The numeral
/// inside a subscript is only a delimiter, so the segment carries no
/// index.
pub enum SegSpec {
    Key(Seq<u8>),
    Idx,
}

pub enum PathSeg {
    Key(Vec<u8>),
    Idx,
}

impl View for PathSeg {
    type V = SegSpec;

    open spec fn view(&self) -> SegSpec {
        match self {
            PathSeg::Key(k) => SegSpec::Key(k@),
            PathSeg::Idx => SegSpec::Idx,
        }
    }
}

/// The value part of a statement. `Nop` is a `null` literal, which leaves
/// the placeholder as it is; the container headers install an empty
/// container on a placeholder and otherwise do nothing.
pub enum ActionSpec {
    Nop,
    ObjHeader,
    ArrHeader,
    True,
    False,
    Str(Seq<u8>),
    UInt(u64),
    Int(i64),
    Float(Seq<u8>),
}

pub enum Action {
    Nop,
    ObjHeader,
    ArrHeader,
    True,
    False,
    Str(Vec<u8>),
    UInt(u64),
    Int(i64),
    Float(Vec<u8>),
}

impl View for Action {
    type V = ActionSpec;

    open spec fn view(&self) -> ActionSpec {
        match self {
            Action::Nop => ActionSpec::Nop,
            Action::ObjHeader => ActionSpec::ObjHeader,
            Action::ArrHeader => ActionSpec::ArrHeader,
            Action::True => ActionSpec::True,
            Action::False => ActionSpec::False,
            Action::Str(s) => ActionSpec::Str(s@),
            Action::UInt(n) => ActionSpec::UInt(*n),
            Action::Int(n) => ActionSpec::Int(*n),
            Action::Float(t) => ActionSpec::Float(t@),
        }
    }
}

/// Pointwise model of a segment vector.
pub open spec fn segs_model(segs: Seq<PathSeg>) -> Seq<SegSpec>
    decreases segs,
{
    if segs.len() == 0 {
        Seq::empty()
    } else {
        segs_model(segs.subrange(0, segs.len() - 1)).push(segs[segs.len() - 1]@)
    }
}

pub proof fn lemma_segs_model_index(segs: Seq<PathSeg>)
    ensures
        segs_model(segs).len() == segs.len(),
        forall|i: int| 0 <= i < segs.len() ==> segs_model(segs)[i] == segs[i]@,
    decreases segs,
{
    if segs.len() > 0 {
        lemma_segs_model_index(segs.subrange(0, segs.len() - 1));
    }
}

/// Index of the first `]` in `s`, or `s.len()`.
pub open spec fn bracket_close(s: Seq<u8>) -> int
    decreases s.len(),
{
    if s.len() == 0 {
        0
    } else if s[0] == 0x5d {
        0
    } else {
        1 + bracket_close(s.subrange(1, s.len() as int))
    }
}

/// Length of the run of key bytes: everything up to the first `[`, `.` or
/// space, or all of `s`.
pub open spec fn key_end(s: Seq<u8>) -> int
    decreases s.len(),
{
    if s.len() == 0 {
        0
    } else if s[0] == 0x5b || s[0] == 0x2e || s[0] == 0x20 {
        0
    } else {
        1 + key_end(s.subrange(1, s.len() as int))
    }
}

pub proof fn lemma_bracket_close_bounds(s: Seq<u8>)
    ensures
        0 <= bracket_close(s) <= s.len(),
    decreases s.len(),
{
    if s.len() > 0 && s[0] != 0x5d {
        lemma_bracket_close_bounds(s.subrange(1, s.len() as int));
    }
}

pub proof fn lemma_key_end_bounds(s: Seq<u8>)
    ensures
        0 <= key_end(s) <= s.len(),
    decreases s.len(),
{
    if s.len() > 0 && !(s[0] == 0x5b || s[0] == 0x2e || s[0] == 0x20) {
        lemma_key_end_bounds(s.subrange(1, s.len() as int));
    }
}

pub proof fn lemma_bracket_close_at(s: Seq<u8>, i: int)
    requires
        0 <= i <= s.len(),
        forall|j: int| 0 <= j < i ==> #[trigger] (s[j]) != 0x5d,
        i < s.len() ==> s[i] == 0x5d,
    ensures
        bracket_close(s) == i,
    decreases s.len(),
{
    if s.len() == 0 || s[0] == 0x5d {
    } else {
        let rest = s.subrange(1, s.len() as int);
        assert(forall|j: int| 0 <= j < i - 1 ==> #[trigger] (rest[j]) != 0x5d);
        lemma_bracket_close_at(rest, i - 1);
    }
}

pub proof fn lemma_key_end_at(s: Seq<u8>, i: int)
    requires
        0 <= i <= s.len(),
        forall|j: int|
            0 <= j < i ==> #[trigger] (s[j]) != 0x5b && s[j] != 0x2e && s[j] != 0x20,
        i < s.len() ==> (s[i] == 0x5b || s[i] == 0x2e || s[i] == 0x20),
    ensures
        key_end(s) == i,
    decreases s.len(),
{
    if s.len() == 0 || s[0] == 0x5b || s[0] == 0x2e || s[0] == 0x20 {
    } else {
        let rest = s.subrange(1, s.len() as int);
        assert(forall|j: int|
            0 <= j < i - 1 ==> #[trigger] (rest[j]) != 0x5b && rest[j] != 0x2e && rest[j]
                != 0x20);
        lemma_key_end_at(rest, i - 1);
    }
}

/// Parse the value part of a statement; `s` starts at the space before
/// `=`. Only the first literal byte decides the kind; the exact ` = `
/// shape is checked where the literal's text matters.
pub open spec fn spec_parse_action(s: Seq<u8>) -> Result<ActionSpec, GronError> {
    if s.len() < 4 {
        Err(GronError::BadLiteral)
    } else {
        let b = s[3];
        if b == 0x22 {
            if s[1] == 0x3d && s[2] == 0x20 && s.len() >= 6 && s[s.len() - 1] == 0x3b && s[s.len()
                - 2] == 0x22 {
                Ok(ActionSpec::Str(s.subrange(4, s.len() - 2)))
            } else {
                Err(GronError::BadLiteral)
            }
        } else if b == 0x6e {
            Ok(ActionSpec::Nop)
        } else if b == 0x7b {
            Ok(ActionSpec::ObjHeader)
        } else if b == 0x5b {
            Ok(ActionSpec::ArrHeader)
        } else if b == 0x74 {
            Ok(ActionSpec::True)
        } else if b == 0x66 {
            Ok(ActionSpec::False)
        } else {
            if s[1] == 0x3d && s[2] == 0x20 && s[s.len() - 1] == 0x3b {
                let d = s.subrange(3, s.len() - 1);
                if is_u64_text(d) {
                    Ok(ActionSpec::UInt(u64_text_value(d) as u64))
                } else if is_i64_text(d) {
                    Ok(ActionSpec::Int(i64_text_value(d) as i64))
                } else if is_f64_text(d) {
                    Ok(ActionSpec::Float(d))
                } else {
                    Err(GronError::BadNumber)
                }
            } else {
                Err(GronError::BadLiteral)
            }
        }
    }
}

/// Parse the path-and-value part of a statement, the root token already
/// stripped: a run of `[n]` and `.key` segments, then the value part.
pub open spec fn spec_parse_rest(s: Seq<u8>) -> Result<(Seq<SegSpec>, ActionSpec), GronError>
    decreases s.len(),
    via spec_parse_rest_decreases
{
    if s.len() == 0 {
        Err(GronError::InvalidPath)
    } else if s[0] == 0x5b {
        if s.len() < 2 || !is_digit(s[1]) {
            Err(GronError::UnsupportedSubscript)
        } else {
            let c = bracket_close(s);
            if c == s.len() {
                Err(GronError::UnclosedSubscript)
            } else {
                match spec_parse_rest(s.subrange(c + 1, s.len() as int)) {
                    Ok((segs, a)) => Ok((seq![SegSpec::Idx] + segs, a)),
                    Err(e) => Err(e),
                }
            }
        }
    } else if s[0] == 0x2e {
        let k = 1 + key_end(s.subrange(1, s.len() as int));
        if k == s.len() {
            Err(GronError::UnterminatedKey)
        } else {
            match spec_parse_rest(s.subrange(k, s.len() as int)) {
                Ok((segs, a)) => Ok((seq![SegSpec::Key(s.subrange(1, k))] + segs, a)),
                Err(e) => Err(e),
            }
        }
    } else if s[0] == 0x20 {
        match spec_parse_action(s) {
            Ok(a) => Ok((Seq::empty(), a)),
            Err(e) => Err(e),
        }
    } else {
        Err(GronError::InvalidPath)
    }
}

#[via_fn]
proof fn spec_parse_rest_decreases(s: Seq<u8>) {
    lemma_bracket_close_bounds(s);
    if s.len() > 0 {
        lemma_key_end_bounds(s.subrange(1, s.len() as int));
    }
}

/// Parse one whole statement: the root token `json`, then its path and
/// value.
pub open spec fn spec_parse_stmt(line: Seq<u8>) -> Result<(Seq<SegSpec>, ActionSpec), GronError> {
    if line.len() >= 4 && line[0] == 0x6a && line[1] == 0x73 && line[2] == 0x6f && line[3]
        == 0x6e {
        spec_parse_rest(line.subrange(4, line.len() as int))
    } else {
        Err(GronError::MissingRoot)
    }
}

/// Find the first `]` at or after `from`, as an absolute index, or the
/// length when there is none.
fn find_close(line: &[u8], from: usize) -> (c: usize)
    requires
        from <= line@.len(),
    ensures
        from <= c <= line@.len(),
        c - from == bracket_close(line@.subrange(from as int, line@.len() as int)),
{
    let ghost t = line@.subrange(from as int, line@.len() as int);
    let n = line.len();
    let mut c: usize = from;
    while c < n && line[c] != 0x5d
        invariant
            from <= c <= n,
            n == line@.len(),
            t == line@.subrange(from as int, line@.len() as int),
            forall|j: int| 0 <= j < c - from ==> #[trigger] (t[j]) != 0x5d,
        decreases n - c,
    {
        proof {
            assert(t[c - from] == line@[c as int]);
        }
        c = c + 1;
    }
    proof {
        if c < n {
            assert(t[c - from] == line@[c as int]);
        }
        lemma_bracket_close_at(t, c - from);
    }
    c
}

/// Find the first `[`, `.` or space at or after `from`, as an absolute
/// index, or the length when there is none.
fn find_key_end(line: &[u8], from: usize) -> (k: usize)
    requires
        from <= line@.len(),
    ensures
        from <= k <= line@.len(),
        k - from == key_end(line@.subrange(from as int, line@.len() as int)),
{
    let ghost t = line@.subrange(from as int, line@.len() as int);
    let n = line.len();
    let mut k: usize = from;
    while k < n && !(line[k] == 0x5b || line[k] == 0x2e || line[k] == 0x20)
        invariant
            from <= k <= n,
            n == line@.len(),
            t == line@.subrange(from as int, line@.len() as int),
            forall|j: int|
                0 <= j < k - from ==> #[trigger] (t[j]) != 0x5b && t[j] != 0x2e && t[j] != 0x20,
        decreases n - k,
    {
        proof {
            assert(t[k - from] == line@[k as int]);
        }
        k = k + 1;
    }
    proof {
        if k < n {
            assert(t[k - from] == line@[k as int]);
        }
        lemma_key_end_at(t, k - from);
    }
    k
}

/// Parse the value part of a statement that starts at `pos`.
fn parse_action(line: &[u8], pos: usize) -> (r: Result<Action, GronError>)
    requires
        pos < line@.len(),
        line@[pos as int] == 0x20,
    ensures
        match r {
            Ok(a) => spec_parse_action(line@.subrange(pos as int, line@.len() as int)) == Ok::<
                ActionSpec,
                GronError,
            >(a@),
            Err(e) => spec_parse_action(line@.subrange(pos as int, line@.len() as int)) == Err::<
                ActionSpec,
                GronError,
            >(e),
        },
{
    let ghost s = line@.subrange(pos as int, line@.len() as int);
    let n = line.len();
    if n - pos < 4 {
        return Err(GronError::BadLiteral);
    }
    let b = line[pos + 3];
    proof {
        assert(s[3] == b);
        assert(s[1] == line@[pos as int + 1]);
        assert(s[2] == line@[pos as int + 2]);
        assert(s[s.len() - 1] == line@[n - 1]);
        assert(s[s.len() - 2] == line@[n - 2]);
    }
    if b == 0x22 {
        if line[pos + 1] == 0x3d && line[pos + 2] == 0x20 && n - pos >= 6 && line[n - 1] == 0x3b
            && line[n - 2] == 0x22 {
            let content = vstd::slice::slice_to_vec(
                vstd::slice::slice_subrange(line, pos + 4, n - 2),
            );
            proof {
                assert(content@ =~= s.subrange(4, s.len() - 2));
            }
            Ok(Action::Str(content))
        } else {
            Err(GronError::BadLiteral)
        }
    } else if b == 0x6e {
        Ok(Action::Nop)
    } else if b == 0x7b {
        Ok(Action::ObjHeader)
    } else if b == 0x5b {
        Ok(Action::ArrHeader)
    } else if b == 0x74 {
        Ok(Action::True)
    } else if b == 0x66 {
        Ok(Action::False)
    } else {
        if line[pos + 1] == 0x3d && line[pos + 2] == 0x20 && line[n - 1] == 0x3b {
            let d = vstd::slice::slice_subrange(line, pos + 3, n - 1);
            proof {
                assert(d@ =~= s.subrange(3, s.len() - 1));
            }
            match crate::num::parse_u64(d) {
                Some(u) => Ok(Action::UInt(u)),
                None => match crate::num::parse_i64(d) {
                    Some(i) => Ok(Action::Int(i)),
                    None => if crate::num::is_float_literal(d) {
                        Ok(Action::Float(vstd::slice::slice_to_vec(d)))
                    } else {
                        Err(GronError::BadNumber)
                    },
                },
            }
        } else {
            Err(GronError::BadLiteral)
        }
    }
}

/// Parse one whole statement into its path segments and value action.
pub fn parse_stmt(line: &[u8]) -> (r: Result<(Vec<PathSeg>, Action), GronError>)
    ensures
        match r {
            Ok(sa) => spec_parse_stmt(line@) == Ok::<_, GronError>(
                (segs_model(sa.0@), sa.1@),
            ),
            Err(e) => spec_parse_stmt(line@) == Err::<(Seq<SegSpec>, ActionSpec), _>(e),
        },
{
    let n = line.len();
    if !(n >= 4 && line[0] == 0x6a && line[1] == 0x73 && line[2] == 0x6f && line[3] == 0x6e) {
        return Err(GronError::MissingRoot);
    }
    let mut segs: Vec<PathSeg> = Vec::new();
    let mut pos: usize = 4;
    proof {
        lemma_segs_model_index(segs@);
        assert(segs_model(segs@) =~= Seq::<SegSpec>::empty());
    }
    loop
        invariant
            4 <= pos <= n,
            n == line@.len(),
            n >= 4 && line@[0] == 0x6a && line@[1] == 0x73 && line@[2] == 0x6f && line@[3]
                == 0x6e,
            match spec_parse_rest(line@.subrange(pos as int, line@.len() as int)) {
                Ok(sa) => spec_parse_stmt(line@) == Ok::<_, GronError>(
                    (segs_model(segs@) + sa.0, sa.1),
                ),
                Err(e) => spec_parse_stmt(line@) == Err::<(Seq<SegSpec>, ActionSpec), _>(e),
            },
        decreases n - pos,
    {
        let ghost rest = line@.subrange(pos as int, line@.len() as int);
        if pos == n {
            proof {
                assert(rest.len() == 0);
            }
            return Err(GronError::InvalidPath);
        }
        let b = line[pos];
        proof {
            assert(rest[0] == b);
        }
        if b == 0x5b {
            if pos + 1 >= n || !(0x30 <= line[pos + 1] && line[pos + 1] <= 0x39) {
                proof {
                    if pos + 1 < n {
                        assert(rest[1] == line@[pos as int + 1]);
                    }
                }
                return Err(GronError::UnsupportedSubscript);
            }
            proof {
                assert(rest[1] == line@[pos as int + 1]);
            }
            let c = find_close(line, pos);
            proof {
                assert(rest =~= line@.subrange(pos as int, line@.len() as int));
                assert(bracket_close(rest) == c - pos);
            }
            if c == n {
                return Err(GronError::UnclosedSubscript);
            }
            let ghost old_segs = segs@;
            segs.push(PathSeg::Idx);
            proof {
                lemma_segs_model_index(old_segs);
                lemma_segs_model_index(segs@);
                assert(segs@.subrange(0, segs@.len() - 1) =~= old_segs);
                assert(segs_model(segs@) =~= segs_model(old_segs).push(SegSpec::Idx));
                assert(rest.subrange(c - pos + 1, rest.len() as int) =~= line@.subrange(
                    c + 1,
                    line@.len() as int,
                ));
                match spec_parse_rest(line@.subrange(c + 1, line@.len() as int)) {
                    Ok(sa) => {
                        assert(segs_model(old_segs) + (seq![SegSpec::Idx] + sa.0)
                            =~= segs_model(segs@) + sa.0);
                    },
                    Err(e) => {},
                }
            }
            pos = c + 1;
        } else if b == 0x2e {
            let k = find_key_end(line, pos + 1);
            proof {
                assert(rest.subrange(1, rest.len() as int) =~= line@.subrange(
                    pos + 1,
                    line@.len() as int,
                ));
                assert(key_end(rest.subrange(1, rest.len() as int)) == k - (pos + 1));
            }
            if k == n {
                return Err(GronError::UnterminatedKey);
            }
            let key = vstd::slice::slice_to_vec(vstd::slice::slice_subrange(line, pos + 1, k));
            let ghost old_segs = segs@;
            let ghost kk = rest.subrange(1, (k - pos) as int);
            proof {
                assert(key@ =~= kk);
            }
            segs.push(PathSeg::Key(key));
            proof {
                lemma_segs_model_index(old_segs);
                lemma_segs_model_index(segs@);
                assert(segs@.subrange(0, segs@.len() - 1) =~= old_segs);
                assert(segs_model(segs@) =~= segs_model(old_segs).push(SegSpec::Key(kk)));
                assert(rest.subrange((k - pos) as int, rest.len() as int) =~= line@.subrange(
                    k as int,
                    line@.len() as int,
                ));
                match spec_parse_rest(line@.subrange(k as int, line@.len() as int)) {
                    Ok(sa) => {
                        assert(segs_model(old_segs) + (seq![SegSpec::Key(kk)] + sa.0)
                            =~= segs_model(segs@) + sa.0);
                    },
                    Err(e) => {},
                }
            }
            pos = k;
        } else if b == 0x20 {
            match parse_action(line, pos) {
                Ok(a) => {
                    proof {
                        assert(segs_model(segs@) + Seq::<SegSpec>::empty() =~= segs_model(
                            segs@,
                        ));
                    }
                    return Ok((segs, a));
                },
                Err(e) => {
                    return Err(e);
                },
            }
        } else {
            return Err(GronError::InvalidPath);
        }
    }
}

/// Index of the first entry with key `k`, or the length when there is
/// none.
pub open spec fn find_key(es: Seq<(Seq<u8>, JsonSpec)>, k: Seq<u8>) -> int
    decreases es.len(),
{
    if es.len() == 0 {
        0
    } else if es[0].0 == k {
        0
    } else {
        1 + find_key(es.subrange(1, es.len() as int), k)
    }
}

pub proof fn lemma_find_key_bounds(es: Seq<(Seq<u8>, JsonSpec)>, k: Seq<u8>)
    ensures
        0 <= find_key(es, k) <= es.len(),
        find_key(es, k) < es.len() ==> es[find_key(es, k)].0 == k,
    decreases es.len(),
{
    if es.len() > 0 && es[0].0 != k {
        lemma_find_key_bounds(es.subrange(1, es.len() as int), k);
    }
}

pub proof fn lemma_find_key_at(es: Seq<(Seq<u8>, JsonSpec)>, k: Seq<u8>, i: int)
    requires
        0 <= i <= es.len(),
        forall|j: int| 0 <= j < i ==> #[trigger] (es[j]).0 != k,
        i < es.len() ==> es[i].0 == k,
    ensures
        find_key(es, k) == i,
    decreases es.len(),
{
    if es.len() == 0 || es[0].0 == k {
    } else {
        let rest = es.subrange(1, es.len() as int);
        assert(forall|j: int| 0 <= j < i - 1 ==> #[trigger] (rest[j]).0 != k);
        lemma_find_key_at(rest, k, i - 1);
    }
}

/// Walk the remaining path in `t` and install the action's value at its
/// end.
///
/// A key segment coerces a placeholder to an object and descends into the
/// named entry, creating it when absent. A subscript coerces a placeholder
/// to an array; in final position it appends a fresh element, and
/// otherwise it descends into the last element, appending one only when
/// the array is still empty, so that a container's header line and its
/// nested lines address the same element. Walking into a node of any
/// other type fails.
pub open spec fn spec_apply(t: JsonSpec, segs: Seq<SegSpec>, a: ActionSpec) -> Result<
    JsonSpec,
    GronError,
>
    decreases segs.len(),
{
    if segs.len() == 0 {
        match a {
            ActionSpec::Nop => Ok(t),
            ActionSpec::ObjHeader => if t is Null {
                Ok(JsonSpec::Object(Seq::empty()))
            } else {
                Ok(t)
            },
            ActionSpec::ArrHeader => if t is Null {
                Ok(JsonSpec::Array(Seq::empty()))
            } else {
                Ok(t)
            },
            ActionSpec::True => Ok(JsonSpec::Bool(true)),
            ActionSpec::False => Ok(JsonSpec::Bool(false)),
            ActionSpec::Str(s) => Ok(JsonSpec::Str(s)),
            ActionSpec::UInt(n) => Ok(JsonSpec::UInt(n)),
            ActionSpec::Int(n) => Ok(JsonSpec::Int(n)),
            ActionSpec::Float(tx) => Ok(JsonSpec::Float(tx)),
        }
    } else {
        let rest = segs.subrange(1, segs.len() as int);
        match segs[0] {
            SegSpec::Idx => {
                let items = if t is Null {
                    Seq::<JsonSpec>::empty()
                } else if t is Array {
                    t->Array_0
                } else {
                    Seq::<JsonSpec>::empty()
                };
                if !(t is Null || t is Array) {
                    Err(GronError::TypeMismatch)
                } else if segs.len() == 1 || items.len() == 0 {
                    match spec_apply(JsonSpec::Null, rest, a) {
                        Ok(c) => Ok(JsonSpec::Array(items.push(c))),
                        Err(e) => Err(e),
                    }
                } else {
                    match spec_apply(items[items.len() - 1], rest, a) {
                        Ok(c) => Ok(JsonSpec::Array(items.update(items.len() - 1, c))),
                        Err(e) => Err(e),
                    }
                }
            },
            SegSpec::Key(k) => {
                let es = if t is Null {
                    Seq::<(Seq<u8>, JsonSpec)>::empty()
                } else if t is Object {
                    t->Object_0
                } else {
                    Seq::<(Seq<u8>, JsonSpec)>::empty()
                };
                if !(t is Null || t is Object) {
                    Err(GronError::TypeMismatch)
                } else {
                    let i = find_key(es, k);
                    if i == es.len() {
                        match spec_apply(JsonSpec::Null, rest, a) {
                            Ok(c) => Ok(JsonSpec::Object(es.push((k, c)))),
                            Err(e) => Err(e),
                        }
                    } else {
                        match spec_apply(es[i].1, rest, a) {
                            Ok(c) => Ok(JsonSpec::Object(es.update(i, (k, c)))),
                            Err(e) => Err(e),
                        }
                    }
                }
            },
        }
    }
}

/// Compare two byte buffers for equality.
pub fn bytes_eq(a: &Vec<u8>, b: &Vec<u8>) -> (r: bool)
    ensures
        r == (a@ == b@),
{
    if a.len() != b.len() {
        return false;
    }
    let mut i: usize = 0;
    while i < a.len()
        invariant
            a@.len() == b@.len(),
            i <= a@.len(),
            forall|j: int| 0 <= j < i ==> a@[j] == b@[j],
        decreases a@.len() - i,
    {
        if a[i] != b[i] {
            return false;
        }
        i = i + 1;
    }
    proof {
        assert(a@ =~= b@);
    }
    true
}

/// Walk the path from segment `i` on in `t`, install the action's value,
/// and return the changed tree.
#[verifier::loop_isolation(false)]
#[verifier::rlimit(50)]
pub fn apply_stmt(t: JsonValue, segs: &Vec<PathSeg>, i: usize, a: &Action) -> (r: Result<
    JsonValue,
    GronError,
>)
    requires
        i <= segs@.len(),
    ensures
        match r {
            Ok(v2) => spec_apply(t@, segs_model(segs@).subrange(i as int, segs@.len() as int), a@)
                == Ok::<JsonSpec, GronError>(v2@),
            Err(e) => spec_apply(t@, segs_model(segs@).subrange(i as int, segs@.len() as int), a@)
                == Err::<JsonSpec, GronError>(e),
        },
    decreases segs@.len() - i,
{
    proof {
        lemma_segs_model_index(segs@);
    }
    let ghost sm = segs_model(segs@).subrange(i as int, segs@.len() as int);
    if i == segs.len() {
        proof {
            assert(sm.len() == 0);
        }
        let r = match a {
            Action::Nop => t,
            Action::ObjHeader => match t {
                JsonValue::Null => JsonValue::Object(Vec::new()),
                other => other,
            },
            Action::ArrHeader => match t {
                JsonValue::Null => JsonValue::Array(Vec::new()),
                other => other,
            },
            Action::True => JsonValue::Bool(true),
            Action::False => JsonValue::Bool(false),
            Action::Str(s) => JsonValue::Str(crate::value::clone_bytes(s)),
            Action::UInt(n) => JsonValue::UInt(*n),
            Action::Int(n) => JsonValue::Int(*n),
            Action::Float(tx) => JsonValue::Float(crate::value::clone_bytes(tx)),
        };
        proof {
            assert(r@ is Object ==> r@->Object_0 =~= spec_apply(t@, sm, a@)->Ok_0->Object_0);
            assert(r@ is Array ==> r@->Array_0 =~= spec_apply(t@, sm, a@)->Ok_0->Array_0);
        }
        return Ok(r);
    }
    proof {
        assert(sm[0] == segs@[i as int]@);
        assert(sm.subrange(1, sm.len() as int) =~= segs_model(segs@).subrange(
            i + 1,
            segs@.len() as int,
        ));
    }
    match &segs[i] {
        PathSeg::Idx => {
            let mut items: Vec<JsonValue> = match t {
                JsonValue::Null => Vec::new(),
                JsonValue::Array(v) => v,
                _ => {
                    return Err(GronError::TypeMismatch);
                },
            };
            let ghost items0 = crate::value::models_of(items@);
            proof {
                crate::value::lemma_models_of_index(items@);
            }
            if i + 1 == segs.len() || items.len() == 0 {
                match apply_stmt(JsonValue::Null, segs, i + 1, a) {
                    Ok(c) => {
                        let ghost prev = items@;
                        items.push(c);
                        proof {
                            crate::value::lemma_models_of_index(prev);
                            crate::value::lemma_models_of_index(items@);
                            assert(crate::value::models_of(items@) =~= items0.push(
                                spec_apply(JsonSpec::Null, sm.subrange(1, sm.len() as int), a@)
                                    ->Ok_0,
                            ));
                        }
                        Ok(JsonValue::Array(items))
                    },
                    Err(e) => Err(e),
                }
            } else {
                let last = match items.pop() {
                    Some(x) => x,
                    None => {
                        return Err(GronError::TypeMismatch);
                    },
                };
                match apply_stmt(last, segs, i + 1, a) {
                    Ok(c) => {
                        let ghost popped = items@;
                        items.push(c);
                        proof {
                            crate::value::lemma_models_of_index(popped);
                            crate::value::lemma_models_of_index(items@);
                            assert(crate::value::models_of(items@) =~= items0.update(
                                items0.len() - 1,
                                spec_apply(
                                    items0[items0.len() - 1],
                                    sm.subrange(1, sm.len() as int),
                                    a@,
                                )->Ok_0,
                            ));
                        }
                        Ok(JsonValue::Array(items))
                    },
                    Err(e) => Err(e),
                }
            }
        },
        PathSeg::Key(k) => {
            let mut entries: Vec<(Vec<u8>, JsonValue)> = match t {
                JsonValue::Null => Vec::new(),
                JsonValue::Object(es) => es,
                _ => {
                    return Err(GronError::TypeMismatch);
                },
            };
            let ghost es0 = crate::value::entry_models_of(entries@);
            proof {
                crate::value::lemma_entry_models_of_index(entries@);
            }
            // find the entry with this key, if any
            let mut j: usize = 0;
            let mut found = false;
            while !found && j < entries.len()
                invariant
                    j <= entries@.len(),
                    forall|x: int| 0 <= x < j ==> #[trigger] (es0[x]).0 != k@,
                    found ==> j < entries@.len() && es0[j as int].0 == k@,
                decreases
                        entries@.len() - j,
                        (if found {
                            0int
                        } else {
                            1int
                        }),
            {
                if bytes_eq(&entries[j].0, k) {
                    found = true;
                } else {
                    j = j + 1;
                }
            }
            proof {
                lemma_find_key_at(es0, k@, j as int);
            }
            if found {
                let e = entries.remove(j);
                let ghost removed = entries@;
                match apply_stmt(e.1, segs, i + 1, a) {
                    Ok(c) => {
                        entries.insert(j, (e.0, c));
                        proof {
                            crate::value::lemma_entry_models_of_index(removed);
                            crate::value::lemma_entry_models_of_index(entries@);
                            assert(crate::value::entry_models_of(entries@) =~= es0.update(
                                j as int,
                                (
                                    k@,
                                    spec_apply(
                                        es0[j as int].1,
                                        sm.subrange(1, sm.len() as int),
                                        a@,
                                    )->Ok_0,
                                ),
                            ));
                        }
                        Ok(JsonValue::Object(entries))
                    },
                    Err(e2) => Err(e2),
                }
            } else {
                match apply_stmt(JsonValue::Null, segs, i + 1, a) {
                    Ok(c) => {
                        let ghost prev = entries@;
                        entries.push((crate::value::clone_bytes(k), c));
                        proof {
                            crate::value::lemma_entry_models_of_index(prev);
                            crate::value::lemma_entry_models_of_index(entries@);
                            assert(crate::value::entry_models_of(entries@) =~= es0.push(
                                (
                                    k@,
                                    spec_apply(
                                        JsonSpec::Null,
                                        sm.subrange(1, sm.len() as int),
                                        a@,
                                    )->Ok_0,
                                ),
                            ));
                        }
                        Ok(JsonValue::Object(entries))
                    },
                    Err(e2) => Err(e2),
                }
            }
        },
    }
}

/// Merge two partial trees built from consecutive statement groups, `a`
/// from the earlier group. Arrays concatenate in source order; objects
/// take every entry of the later tree, resolving a colliding key by
/// merging the two values recursively; a null placeholder absorbs into
/// the other side; any other pairing is a conflict.
pub open spec fn spec_merge(a: JsonSpec, b: JsonSpec) -> Result<JsonSpec, GronError>
    decreases b, 0int,
{
    match (a, b) {
        (JsonSpec::Object(o1), JsonSpec::Object(o2)) => match spec_merge_entries(o1, o2) {
            Ok(es) => Ok(JsonSpec::Object(es)),
            Err(e) => Err(e),
        },
        (JsonSpec::Array(x), JsonSpec::Array(y)) => Ok(JsonSpec::Array(x + y)),
        (JsonSpec::Null, any) => Ok(any),
        (any, JsonSpec::Null) => Ok(any),
        _ => Err(GronError::MergeMismatch),
    }
}

/// Fold the entries of `o2` into `o1`, in order: a fresh key is appended,
/// a colliding key has its two values merged in place.
pub open spec fn spec_merge_entries(
    o1: Seq<(Seq<u8>, JsonSpec)>,
    o2: Seq<(Seq<u8>, JsonSpec)>,
) -> Result<Seq<(Seq<u8>, JsonSpec)>, GronError>
    decreases o2, 1int,
{
    if o2.len() == 0 {
        Ok(o1)
    } else {
        let i = find_key(o1, o2[0].0);
        if i == o1.len() {
            spec_merge_entries(o1.push(o2[0]), o2.subrange(1, o2.len() as int))
        } else {
            match spec_merge(o1[i].1, o2[0].1) {
                Ok(m) => spec_merge_entries(
                    o1.update(i, (o1[i].0, m)),
                    o2.subrange(1, o2.len() as int),
                ),
                Err(e) => Err(e),
            }
        }
    }
}

/// Merge two partial trees, the first built from the earlier statements.
#[verifier::loop_isolation(false)]
#[verifier::rlimit(50)]
pub fn merge_json(a: JsonValue, b: JsonValue) -> (r: Result<JsonValue, GronError>)
    ensures
        match r {
            Ok(v) => spec_merge(a@, b@) == Ok::<JsonSpec, GronError>(v@),
            Err(e) => spec_merge(a@, b@) == Err::<JsonSpec, GronError>(e),
        },
    decreases b,
{
    let ghost gb = b;
    match (a, b) {
        (JsonValue::Object(mut o1), JsonValue::Object(mut o2)) => {
            let ghost g1 = crate::value::entry_models_of(o1@);
            let ghost g2 = crate::value::entry_models_of(o2@);
            let ghost ov = o2;
            let ghost orig2 = o2@;
            proof {
                crate::value::lemma_entry_models_of_index(o1@);
                crate::value::lemma_entry_models_of_index(o2@);
                assert(gb == JsonValue::Object(ov));
                assert(g2.subrange(0, g2.len() as int) =~= g2);
            }
            let ghost mut done: int = 0;
            while o2.len() > 0
                invariant
                    0 <= done,
                    done + o2@.len() == orig2.len(),
                    orig2 == ov@,
                    o2@ =~= orig2.subrange(done, orig2.len() as int),
                    gb == JsonValue::Object(ov),
                    g2 == crate::value::entry_models_of(orig2),
                    spec_merge_entries(
                        crate::value::entry_models_of(o1@),
                        g2.subrange(done, g2.len() as int),
                    ) == spec_merge_entries(g1, g2),
                decreases o2@.len(),
            {
                let e = o2.remove(0);
                proof {
                    crate::value::lemma_entry_models_of_index(orig2);
                    assert(e == orig2[done]);
                    assert(o2@ =~= orig2.subrange(done + 1, orig2.len() as int));
                }
                let ghost rem = g2.subrange(done, g2.len() as int);
                let ghost cur1 = crate::value::entry_models_of(o1@);
                proof {
                    crate::value::lemma_entry_models_of_index(o1@);
                    assert(rem[0] == g2[done as int]);
                    assert(rem[0] == (e.0@, crate::value::model_of(e.1)));
                    assert(rem.subrange(1, rem.len() as int) =~= g2.subrange(
                        done + 1,
                        g2.len() as int,
                    ));
                }
                // find a colliding key in the accumulated entries
                let mut j: usize = 0;
                let mut found = false;
                while !found && j < o1.len()
                    invariant
                        j <= o1@.len(),
                        cur1 == crate::value::entry_models_of(o1@),
                        forall|x: int| 0 <= x < j ==> #[trigger] (cur1[x]).0 != e.0@,
                        found ==> j < o1@.len() && cur1[j as int].0 == e.0@,
                    decreases
                            o1@.len() - j,
                            (if found {
                                0int
                            } else {
                                1int
                            }),
                {
                    if bytes_eq(&o1[j].0, &e.0) {
                        found = true;
                    } else {
                        j = j + 1;
                    }
                }
                proof {
                    crate::value::lemma_entry_models_of_index(o1@);
                    lemma_find_key_at(cur1, e.0@, j as int);
                }
                if found {
                    let old_entry = o1.remove(j);
                    let ghost removed = o1@;
                    proof {
                        assert(decreases_to!(gb => e.1)) by {
                            assert(gb->Object_0 == ov);
                            assert(e.1 == ov@[done].1);
                            assert(decreases_to!(gb => ov));
                            assert(decreases_to!(ov => ov@));
                            assert(decreases_to!(ov@ => ov@[done]));
                            assert(decreases_to!(ov@[done] => ov@[done].1));
                        }
                    }
                    match merge_json(old_entry.1, e.1) {
                        Ok(m) => {
                            o1.insert(j, (old_entry.0, m));
                            proof {
                                crate::value::lemma_entry_models_of_index(removed);
                                crate::value::lemma_entry_models_of_index(o1@);
                                assert(crate::value::entry_models_of(o1@) =~= cur1.update(
                                    j as int,
                                    (
                                        cur1[j as int].0,
                                        spec_merge(cur1[j as int].1, rem[0].1)->Ok_0,
                                    ),
                                ));
                            }
                        },
                        Err(err) => {
                            return Err(err);
                        },
                    }
                } else {
                    let ghost prev = o1@;
                    o1.push(e);
                    proof {
                        crate::value::lemma_entry_models_of_index(prev);
                        crate::value::lemma_entry_models_of_index(o1@);
                        assert(crate::value::entry_models_of(o1@) =~= cur1.push(rem[0]));
                    }
                }
                proof {
                    done = done + 1;
                }
            }
            proof {
                assert(g2.subrange(done, g2.len() as int) =~= Seq::<
                    (Seq<u8>, JsonSpec),
                >::empty());
            }
            Ok(JsonValue::Object(o1))
        },
        (JsonValue::Array(mut x), JsonValue::Array(mut y)) => {
            let ghost gx = x@;
            let ghost gy = y@;
            x.append(&mut y);
            proof {
                crate::value::lemma_models_of_index(gx);
                crate::value::lemma_models_of_index(gy);
                crate::value::lemma_models_of_index(x@);
                assert(crate::value::models_of(x@) =~= crate::value::models_of(gx)
                    + crate::value::models_of(gy));
            }
            Ok(JsonValue::Array(x))
        },
        (JsonValue::Null, any) => Ok(any),
        (any, JsonValue::Null) => Ok(any),
        _ => Err(GronError::MergeMismatch),
    }
}

/// Index of the first statement boundary in `s`: a `;` followed by a
/// newline, or by a carriage return and a newline. `s.len()` when there is
/// none.
pub open spec fn first_boundary(s: Seq<u8>) -> int
    decreases s.len(),
{
    if s.len() == 0 {
        0
    } else if s[0] == 0x3b && s.len() >= 2 && (s[1] == 0x0a || (s[1] == 0x0d && s.len() >= 3
        && s[2] == 0x0a)) {
        0
    } else {
        1 + first_boundary(s.subrange(1, s.len() as int))
    }
}

pub proof fn lemma_first_boundary_bounds(s: Seq<u8>)
    ensures
        0 <= first_boundary(s) <= s.len(),
    decreases s.len(),
{
    if s.len() > 0 && !(s[0] == 0x3b && s.len() >= 2 && (s[1] == 0x0a || (s[1] == 0x0d && s.len()
        >= 3 && s[2] == 0x0a))) {
        lemma_first_boundary_bounds(s.subrange(1, s.len() as int));
    }
}

/// Is there a statement boundary at position `i` of `s`?
pub open spec fn boundary_at(s: Seq<u8>, i: int) -> bool {
    &&& 0 <= i
    &&& i + 1 < s.len()
    &&& s[i] == 0x3b
    &&& (s[i + 1] == 0x0a || (s[i + 1] == 0x0d && i + 2 < s.len() && s[i + 2] == 0x0a))
}

pub proof fn lemma_first_boundary_at(s: Seq<u8>, i: int)
    requires
        0 <= i <= s.len(),
        forall|j: int| 0 <= j < i ==> !boundary_at(s, j),
        i < s.len() ==> boundary_at(s, i),
    ensures
        first_boundary(s) == i,
    decreases s.len(),
{
    if s.len() == 0 {
    } else if s[0] == 0x3b && s.len() >= 2 && (s[1] == 0x0a || (s[1] == 0x0d && s.len() >= 3
        && s[2] == 0x0a)) {
        assert(boundary_at(s, 0));
        if i > 0 {
            assert(!boundary_at(s, 0));
        }
    } else {
        assert(!boundary_at(s, 0));
        let rest = s.subrange(1, s.len() as int);
        assert(i >= 1) by {
            if i == 0 {
                assert(boundary_at(s, 0));
            }
        }
        assert(forall|j: int| 0 <= j < i - 1 ==> !boundary_at(rest, j)) by {
            assert forall|j: int| 0 <= j < i - 1 implies !boundary_at(rest, j) by {
                assert(!boundary_at(s, j + 1));
                assert(rest.len() == s.len() - 1);
                assert(j + 1 < rest.len() ==> rest[j] == s[j + 1] && rest[j + 1] == s[j + 2]);
                assert(j + 2 < rest.len() ==> rest[j + 2] == s[j + 3]);
            }
        }
        assert(i - 1 < rest.len() ==> boundary_at(rest, i - 1));
        lemma_first_boundary_at(rest, i - 1);
    }
}

/// Split the input into statements. A statement runs to the `;` of a
/// boundary; the newline, with an optional carriage return before it, is
/// consumed; text after the last boundary is one final statement. Nothing
/// else is trimmed: a statement may hold embedded newlines, as lines for
/// string values with literal control characters do.
pub open spec fn split_stmts(s: Seq<u8>) -> Seq<Seq<u8>>
    decreases s.len(),
    via split_stmts_decreases
{
    if s.len() == 0 {
        Seq::empty()
    } else {
        let b = first_boundary(s);
        if b == s.len() {
            seq![s]
        } else {
            let skip = if s[b + 1] == 0x0a {
                b + 2
            } else {
                b + 3
            };
            seq![s.subrange(0, b + 1)] + split_stmts(s.subrange(skip, s.len() as int))
        }
    }
}

/// Where `first_boundary` finds a position inside `s`, that position is a
/// boundary, and none stands before it.
pub proof fn lemma_first_boundary_found(s: Seq<u8>)
    ensures
        first_boundary(s) < s.len() ==> boundary_at(s, first_boundary(s)),
        forall|j: int| 0 <= j < first_boundary(s) ==> !boundary_at(s, j),
    decreases s.len(),
{
    if s.len() == 0 {
    } else if s[0] == 0x3b && s.len() >= 2 && (s[1] == 0x0a || (s[1] == 0x0d && s.len() >= 3
        && s[2] == 0x0a)) {
    } else {
        let rest = s.subrange(1, s.len() as int);
        lemma_first_boundary_found(rest);
        lemma_first_boundary_bounds(rest);
        let b = first_boundary(s);
        assert(b == 1 + first_boundary(rest));
        if b < s.len() {
            assert(boundary_at(rest, b - 1));
            assert(boundary_at(s, b)) by {
                assert(s[b] == rest[b - 1]);
                assert(s[b + 1] == rest[b]);
                assert(b + 2 < s.len() ==> s[b + 2] == rest[b + 1]);
            }
        }
        assert forall|j: int| 0 <= j < b implies !boundary_at(s, j) by {
            if j == 0 {
                assert(!boundary_at(s, 0));
            } else {
                assert(!boundary_at(rest, j - 1));
                assert(rest[j - 1] == s[j]);
                assert(j < rest.len() ==> rest[j] == s[j + 1]);
                assert(j + 1 < rest.len() ==> rest[j + 1] == s[j + 2]);
            }
        }
    }
}

#[via_fn]
proof fn split_stmts_decreases(s: Seq<u8>) {
    lemma_first_boundary_bounds(s);
    if s.len() > 0 {
        lemma_first_boundary_found(s);
    }
}

/// Pointwise model of a statement vector.
pub open spec fn stmts_model(stmts: Seq<Vec<u8>>) -> Seq<Seq<u8>>
    decreases stmts,
{
    if stmts.len() == 0 {
        Seq::empty()
    } else {
        stmts_model(stmts.subrange(0, stmts.len() - 1)).push(stmts[stmts.len() - 1]@)
    }
}

pub proof fn lemma_stmts_model_index(stmts: Seq<Vec<u8>>)
    ensures
        stmts_model(stmts).len() == stmts.len(),
        forall|i: int| 0 <= i < stmts.len() ==> stmts_model(stmts)[i] == stmts[i]@,
    decreases stmts,
{
    if stmts.len() > 0 {
        lemma_stmts_model_index(stmts.subrange(0, stmts.len() - 1));
    }
}

/// Find the first statement boundary at or after `from`, as an absolute
/// index.
fn find_boundary(input: &[u8], from: usize) -> (b: usize)
    requires
        from <= input@.len(),
    ensures
        from <= b <= input@.len(),
        b - from == first_boundary(input@.subrange(from as int, input@.len() as int)),
{
    let ghost t = input@.subrange(from as int, input@.len() as int);
    let n = input.len();
    let mut b: usize = from;
    while b < n && !(input[b] == 0x3b && b + 1 < n && (input[b + 1] == 0x0a || (input[b + 1]
        == 0x0d && b + 2 < n && input[b + 2] == 0x0a)))
        invariant
            from <= b <= n,
            n == input@.len(),
            t == input@.subrange(from as int, input@.len() as int),
            forall|j: int| 0 <= j < b - from ==> !boundary_at(t, j),
        decreases n - b,
    {
        proof {
            assert(t[b - from] == input@[b as int]);
            assert(b + 1 < n ==> t[b - from + 1] == input@[b as int + 1]);
            assert(b + 2 < n ==> t[b - from + 2] == input@[b as int + 2]);
            assert(!boundary_at(t, b - from));
        }
        b = b + 1;
    }
    proof {
        if b < n {
            assert(t[b - from] == input@[b as int]);
            assert(t[b - from + 1] == input@[b as int + 1]);
            assert(b + 2 < n ==> t[b - from + 2] == input@[b as int + 2]);
            assert(boundary_at(t, b - from));
        }
        lemma_first_boundary_at(t, b - from);
    }
    b
}

/// Split the input into statements: each runs through the `;` of a
/// boundary, whose newline (with an optional carriage return) is
/// consumed; what follows the last boundary is one final statement.
pub fn split_statements(input: &[u8]) -> (r: Vec<Vec<u8>>)
    ensures
        stmts_model(r@) == split_stmts(input@),
{
    let n = input.len();
    let mut out: Vec<Vec<u8>> = Vec::new();
    let mut pos: usize = 0;
    proof {
        lemma_stmts_model_index(out@);
        assert(stmts_model(out@) =~= Seq::<Seq<u8>>::empty());
        assert(input@.subrange(0, n as int) =~= input@);
    }
    while pos < n
        invariant
            pos <= n,
            n == input@.len(),
            stmts_model(out@) + split_stmts(input@.subrange(pos as int, n as int)) == split_stmts(
                input@,
            ),
        decreases n - pos,
    {
        let ghost rest = input@.subrange(pos as int, n as int);
        let b = find_boundary(input, pos);
        proof {
            lemma_first_boundary_found(rest);
        }
        if b == n {
            let stmt = vstd::slice::slice_to_vec(vstd::slice::slice_subrange(input, pos, n));
            let ghost prev = out@;
            out.push(stmt);
            proof {
                lemma_stmts_model_index(prev);
                lemma_stmts_model_index(out@);
                assert(out@.subrange(0, out@.len() - 1) =~= prev);
                assert(stmts_model(out@) =~= stmts_model(prev).push(rest));
                assert(split_stmts(rest) =~= seq![rest]);
                assert(stmts_model(out@) + split_stmts(
                    input@.subrange(n as int, n as int),
                ) =~= split_stmts(input@)) by {
                    assert(split_stmts(input@.subrange(n as int, n as int))
                        =~= Seq::<Seq<u8>>::empty());
                }
            }
            pos = n;
        } else {
            let stmt = vstd::slice::slice_to_vec(
                vstd::slice::slice_subrange(input, pos, b + 1),
            );
            let skip: usize = if input[b + 1] == 0x0a {
                b + 2
            } else {
                b + 3
            };
            let ghost prev = out@;
            out.push(stmt);
            proof {
                lemma_stmts_model_index(prev);
                lemma_stmts_model_index(out@);
                assert(out@.subrange(0, out@.len() - 1) =~= prev);
                assert(boundary_at(rest, b - pos));
                assert(rest[b - pos + 1] == input@[b as int + 1]);
                assert(rest.subrange(0, b - pos + 1) =~= input@.subrange(
                    pos as int,
                    b + 1,
                ));
                assert(stmts_model(out@) =~~= stmts_model(prev).push(
                    rest.subrange(0, b - pos + 1),
                ));
                assert(rest.subrange((skip - pos) as int, rest.len() as int) =~= input@.subrange(
                    skip as int,
                    n as int,
                ));
                assert(split_stmts(rest) == seq![rest.subrange(0, b - pos + 1)] + split_stmts(
                    input@.subrange(skip as int, n as int),
                ));
                assert(stmts_model(out@) + split_stmts(input@.subrange(skip as int, n as int))
                    =~= split_stmts(input@));
            }
            pos = skip;
        }
    }
    proof {
        assert(split_stmts(input@.subrange(pos as int, n as int)) =~= Seq::<Seq<u8>>::empty());
        assert(stmts_model(out@) =~= split_stmts(input@));
    }
    out
}

/// Apply one statement to a partial tree.
pub open spec fn spec_add_stmt(t: JsonSpec, line: Seq<u8>) -> Result<JsonSpec, GronError> {
    match spec_parse_stmt(line) {
        Ok(sa) => spec_apply(t, sa.0, sa.1),
        Err(e) => Err(e),
    }
}

/// Fold a run of statements into a partial tree, first statement first.
pub open spec fn spec_fold(t: JsonSpec, stmts: Seq<Seq<u8>>) -> Result<JsonSpec, GronError>
    decreases stmts.len(),
{
    if stmts.len() == 0 {
        Ok(t)
    } else {
        match spec_add_stmt(t, stmts[0]) {
            Ok(t2) => spec_fold(t2, stmts.subrange(1, stmts.len() as int)),
            Err(e) => Err(e),
        }
    }
}

/// Folding a concatenation folds the first part, then the second.
pub proof fn lemma_fold_append(t: JsonSpec, s1: Seq<Seq<u8>>, s2: Seq<Seq<u8>>)
    ensures
        spec_fold(t, s1 + s2) == (match spec_fold(t, s1) {
            Ok(u) => spec_fold(u, s2),
            Err(e) => Err(e),
        }),
    decreases s1.len(),
{
    if s1.len() == 0 {
        assert(s1 + s2 =~= s2);
    } else {
        assert((s1 + s2)[0] == s1[0]);
        match spec_add_stmt(t, s1[0]) {
            Ok(t2) => {
                assert((s1 + s2).subrange(1, (s1 + s2).len() as int) =~= s1.subrange(
                    1,
                    s1.len() as int,
                ) + s2);
                lemma_fold_append(t2, s1.subrange(1, s1.len() as int), s2);
            },
            Err(e) => {},
        }
    }
}

/// Parse one statement and apply it to the tree.
pub fn add_line_to_json(t: JsonValue, line: &[u8]) -> (r: Result<JsonValue, GronError>)
    ensures
        match r {
            Ok(v) => spec_add_stmt(t@, line@) == Ok::<JsonSpec, GronError>(v@),
            Err(e) => spec_add_stmt(t@, line@) == Err::<JsonSpec, GronError>(e),
        },
{
    match parse_stmt(line) {
        Ok((segs, a)) => {
            proof {
                lemma_segs_model_index(segs@);
                assert(segs_model(segs@).subrange(0, segs@.len() as int) =~= segs_model(segs@));
            }
            apply_stmt(t, &segs, 0, &a)
        },
        Err(e) => Err(e),
    }
}

/// Fold the statements from `from` to `to` into a fresh tree.
pub fn fold_statements(stmts: &Vec<Vec<u8>>, from: usize, to: usize) -> (r: Result<
    JsonValue,
    GronError,
>)
    requires
        from <= to <= stmts@.len(),
    ensures
        match r {
            Ok(v) => spec_fold(JsonSpec::Null, stmts_model(stmts@).subrange(from as int, to as int))
                == Ok::<JsonSpec, GronError>(v@),
            Err(e) => spec_fold(
                JsonSpec::Null,
                stmts_model(stmts@).subrange(from as int, to as int),
            ) == Err::<JsonSpec, GronError>(e),
        },
{
    proof {
        lemma_stmts_model_index(stmts@);
    }
    let ghost whole = stmts_model(stmts@).subrange(from as int, to as int);
    let mut t = JsonValue::Null;
    let mut i: usize = from;
    proof {
        assert(stmts_model(stmts@).subrange(from as int, from as int) =~= Seq::<Seq<u8>>::empty());
    }
    while i < to
        invariant
            from <= i <= to <= stmts@.len(),
            whole == stmts_model(stmts@).subrange(from as int, to as int),
            spec_fold(JsonSpec::Null, stmts_model(stmts@).subrange(from as int, i as int)) == Ok::<
                JsonSpec,
                GronError,
            >(t@),
        decreases to - i,
    {
        let ghost sofar = stmts_model(stmts@).subrange(from as int, i as int);
        proof {
            lemma_stmts_model_index(stmts@);
        }
        match add_line_to_json(t, stmts[i].as_slice()) {
            Ok(t2) => {
                t = t2;
                proof {
                    assert(stmts_model(stmts@).subrange(from as int, i + 1) =~= sofar + seq![
                        stmts@[i as int]@,
                    ]);
                    lemma_fold_append(JsonSpec::Null, sofar, seq![stmts@[i as int]@]);
                    assert(spec_fold(t@, Seq::<Seq<u8>>::empty()) == Ok::<
                        JsonSpec,
                        GronError,
                    >(t@));
                    assert(seq![stmts@[i as int]@].subrange(1, 1) =~= Seq::<Seq<u8>>::empty());
                }
            },
            Err(e) => {
                proof {
                    assert(whole =~= sofar + stmts_model(stmts@).subrange(i as int, to as int));
                    lemma_fold_append(
                        JsonSpec::Null,
                        sofar,
                        stmts_model(stmts@).subrange(i as int, to as int),
                    );
                    let rem = stmts_model(stmts@).subrange(i as int, to as int);
                    assert(rem[0] == stmts@[i as int]@);
                }
                return Err(e);
            },
        }
        i = i + 1;
    }
    Ok(t)
}

/// The whole decode: empty input is refused; otherwise the statements are
/// folded from a fresh placeholder and the tree is pretty-printed with a
/// trailing newline.
pub open spec fn spec_ungron(input: Seq<u8>) -> Result<Seq<u8>, GronError> {
    if input.len() == 0 {
        Err(GronError::Eof)
    } else {
        match spec_fold(JsonSpec::Null, split_stmts(input)) {
            Ok(t) => Ok(crate::pretty::pretty_document(t)),
            Err(e) => Err(e),
        }
    }
}

/// Decode gron statements back into a pretty-printed JSON document.
pub fn ungron(input: &[u8]) -> (r: Result<crate::output::Output, GronError>)
    ensures
        match r {
            Ok(out) => spec_ungron(input@) == Ok::<Seq<u8>, GronError>(out@),
            Err(e) => spec_ungron(input@) == Err::<Seq<u8>, GronError>(e),
        },
{
    if input.len() == 0 {
        return Err(GronError::Eof);
    }
    let stmts = split_statements(input);
    proof {
        lemma_stmts_model_index(stmts@);
        assert(stmts_model(stmts@).subrange(0, stmts@.len() as int) =~= stmts_model(stmts@));
    }
    match fold_statements(&stmts, 0, stmts.len()) {
        Ok(t) => Ok(crate::output::Output::from_bytes(crate::pretty::pretty_print_document(&t))),
        Err(e) => Err(e),
    }
}

} // verus!
