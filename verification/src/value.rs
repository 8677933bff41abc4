//! The JSON document model: an owned tree of values, and its mathematical
//! view as a ghost datatype over `Seq`.

use vstd::prelude::*;

verus! {

/// Mathematical model of a JSON document. Text (string scalars, float
/// literals and object keys) is modelled as its UTF-8 byte sequence.
pub enum JsonSpec {
    Null,
    Bool(bool),
    UInt(u64),
    Int(i64),
    Float(Seq<u8>),
    Str(Seq<u8>),
    Array(Seq<JsonSpec>),
    Object(Seq<(Seq<u8>, JsonSpec)>),
}

/// A JSON document. Numbers are kept as unsigned or signed 64-bit integers
/// where they fit, and otherwise as their literal decimal text; strings and
/// object keys are UTF-8 byte buffers. Object entries keep their order of
/// insertion.
pub enum JsonValue {
    Null,
    Bool(bool),
    UInt(u64),
    Int(i64),
    Float(Vec<u8>),
    Str(Vec<u8>),
    Array(Vec<JsonValue>),
    Object(Vec<(Vec<u8>, JsonValue)>),
}

/// The model of a value: scalars map to their scalar variant, containers to
/// the sequence of the models of their children.
pub open spec fn model_of(v: JsonValue) -> JsonSpec
    decreases v,
{
    match v {
        JsonValue::Null => JsonSpec::Null,
        JsonValue::Bool(b) => JsonSpec::Bool(b),
        JsonValue::UInt(n) => JsonSpec::UInt(n),
        JsonValue::Int(n) => JsonSpec::Int(n),
        JsonValue::Float(t) => JsonSpec::Float(t@),
        JsonValue::Str(s) => JsonSpec::Str(s@),
        JsonValue::Array(items) => JsonSpec::Array(models_of(items@)),
        JsonValue::Object(entries) => JsonSpec::Object(entry_models_of(entries@)),
    }
}

/// Pointwise model of a sequence of array elements.
pub open spec fn models_of(items: Seq<JsonValue>) -> Seq<JsonSpec>
    decreases items,
{
    if items.len() == 0 {
        Seq::empty()
    } else {
        models_of(items.subrange(0, items.len() - 1)).push(model_of(items[items.len() - 1]))
    }
}

/// Pointwise model of a sequence of object entries.
pub open spec fn entry_models_of(entries: Seq<(Vec<u8>, JsonValue)>) -> Seq<(Seq<u8>, JsonSpec)>
    decreases entries,
{
    if entries.len() == 0 {
        Seq::empty()
    } else {
        entry_models_of(entries.subrange(0, entries.len() - 1)).push(
            (entries[entries.len() - 1].0@, model_of(entries[entries.len() - 1].1)),
        )
    }
}

impl View for JsonValue {
    type V = JsonSpec;

    open spec fn view(&self) -> JsonSpec {
        model_of(*self)
    }
}

/// The sequence models are pointwise: entry `i` of the model is the model of
/// entry `i`.
pub proof fn lemma_models_of_index(items: Seq<JsonValue>)
    ensures
        models_of(items).len() == items.len(),
        forall|i: int| 0 <= i < items.len() ==> models_of(items)[i] == model_of(items[i]),
    decreases items,
{
    if items.len() > 0 {
        lemma_models_of_index(items.subrange(0, items.len() - 1));
    }
}

/// The entry models are pointwise: entry `i` of the model is the key of
/// entry `i` with the model of its value.
pub proof fn lemma_entry_models_of_index(entries: Seq<(Vec<u8>, JsonValue)>)
    ensures
        entry_models_of(entries).len() == entries.len(),
        forall|i: int| 0 <= i < entries.len() ==> entry_models_of(entries)[i] == (
        entries[i].0@,
        model_of(entries[i].1),
        ),
    decreases entries,
{
    if entries.len() > 0 {
        lemma_entry_models_of_index(entries.subrange(0, entries.len() - 1));
    }
}

/// Strict lexicographic order on byte sequences.
pub open spec fn lex_lt(a: Seq<u8>, b: Seq<u8>) -> bool
    decreases a.len(),
{
    if b.len() == 0 {
        false
    } else if a.len() == 0 {
        true
    } else if a[0] < b[0] {
        true
    } else if a[0] > b[0] {
        false
    } else {
        lex_lt(a.subrange(1, a.len() as int), b.subrange(1, b.len() as int))
    }
}

/// Insert an entry into a key-sorted entry sequence, after every entry
/// whose key is strictly smaller.
pub open spec fn insert_entry(e: (Seq<u8>, JsonSpec), s: Seq<(Seq<u8>, JsonSpec)>) -> Seq<
    (Seq<u8>, JsonSpec),
>
    decreases s.len(),
{
    if s.len() == 0 {
        seq![e]
    } else if lex_lt(s[0].0, e.0) {
        seq![s[0]] + insert_entry(e, s.subrange(1, s.len() as int))
    } else {
        seq![e] + s
    }
}

/// Insertion sort of object entries by key, in lexicographic byte order.
pub open spec fn sort_entries(s: Seq<(Seq<u8>, JsonSpec)>) -> Seq<(Seq<u8>, JsonSpec)>
    decreases s.len(),
{
    if s.len() == 0 {
        s
    } else {
        insert_entry(s[s.len() - 1], sort_entries(s.subrange(0, s.len() - 1)))
    }
}

/// The canonical form of a document: every object's entries sorted by key,
/// recursively. This is what the encoder walks, and what a decode of the
/// encoder's lines rebuilds.
pub open spec fn normalize_spec(v: JsonSpec) -> JsonSpec
    decreases v, 0int,
{
    match v {
        JsonSpec::Array(items) => JsonSpec::Array(normalize_arr(items)),
        JsonSpec::Object(es) => JsonSpec::Object(sort_entries(normalize_obj(es))),
        _ => v,
    }
}

/// Pointwise normalization of array elements.
pub open spec fn normalize_arr(items: Seq<JsonSpec>) -> Seq<JsonSpec>
    decreases items, 1int,
{
    if items.len() == 0 {
        items
    } else {
        normalize_arr(items.subrange(0, items.len() - 1)).push(
            normalize_spec(items[items.len() - 1]),
        )
    }
}

/// Pointwise normalization of object entry values.
pub open spec fn normalize_obj(es: Seq<(Seq<u8>, JsonSpec)>) -> Seq<(Seq<u8>, JsonSpec)>
    decreases es, 1int,
{
    if es.len() == 0 {
        es
    } else {
        normalize_obj(es.subrange(0, es.len() - 1)).push(
            (es[es.len() - 1].0, normalize_spec(es[es.len() - 1].1)),
        )
    }
}

/// The normalized sequences are pointwise.
pub proof fn lemma_normalize_arr_index(items: Seq<JsonSpec>)
    ensures
        normalize_arr(items).len() == items.len(),
        forall|i: int|
            0 <= i < items.len() ==> normalize_arr(items)[i] == normalize_spec(items[i]),
    decreases items,
{
    if items.len() > 0 {
        lemma_normalize_arr_index(items.subrange(0, items.len() - 1));
    }
}

pub proof fn lemma_normalize_obj_index(es: Seq<(Seq<u8>, JsonSpec)>)
    ensures
        normalize_obj(es).len() == es.len(),
        forall|i: int|
            0 <= i < es.len() ==> normalize_obj(es)[i] == (es[i].0, normalize_spec(es[i].1)),
    decreases es,
{
    if es.len() > 0 {
        lemma_normalize_obj_index(es.subrange(0, es.len() - 1));
    }
}

/// Copy a byte buffer.
pub fn clone_bytes(v: &Vec<u8>) -> (r: Vec<u8>)
    ensures
        r@ == v@,
{
    let mut r: Vec<u8> = Vec::new();
    let mut i: usize = 0;
    while i < v.len()
        invariant
            i <= v@.len(),
            r@ == v@.subrange(0, i as int),
        decreases v@.len() - i,
    {
        r.push(v[i]);
        proof {
            assert(r@ =~= v@.subrange(0, i + 1));
        }
        i = i + 1;
    }
    proof {
        assert(r@ =~= v@);
    }
    r
}

/// Compare two byte buffers in lexicographic order.
pub fn lex_lt_bytes(a: &Vec<u8>, b: &Vec<u8>) -> (r: bool)
    ensures
        r == lex_lt(a@, b@),
{
    proof {
        assert(a@.subrange(0, a@.len() as int) =~= a@);
        assert(b@.subrange(0, b@.len() as int) =~= b@);
    }
    let mut i: usize = 0;
    loop
        invariant
            i <= a@.len(),
            i <= b@.len(),
            forall|j: int| 0 <= j < i ==> a@[j] == b@[j],
            lex_lt(a@, b@) == lex_lt(
                a@.subrange(i as int, a@.len() as int),
                b@.subrange(i as int, b@.len() as int),
            ),
        decreases a@.len() - i,
    {
        proof {
            let ar = a@.subrange(i as int, a@.len() as int);
            let br = b@.subrange(i as int, b@.len() as int);
            if i < a@.len() && i < b@.len() {
                assert(ar[0] == a@[i as int] && br[0] == b@[i as int]);
                assert(ar.subrange(1, ar.len() as int) =~= a@.subrange(
                    i + 1,
                    a@.len() as int,
                ));
                assert(br.subrange(1, br.len() as int) =~= b@.subrange(
                    i + 1,
                    b@.len() as int,
                ));
            }
        }
        if i >= b.len() {
            return false;
        }
        if i >= a.len() {
            return true;
        }
        let x = a[i];
        let y = b[i];
        if x < y {
            return true;
        }
        if x > y {
            return false;
        }
        i = i + 1;
    }
}

/// Where the first `k` entries of `s` have keys strictly below `e`'s key
/// and entry `k` does not, the insertion lands at position `k`.
pub proof fn lemma_insert_entry_at(e: (Seq<u8>, JsonSpec), s: Seq<(Seq<u8>, JsonSpec)>, k: int)
    requires
        0 <= k <= s.len(),
        forall|j: int| 0 <= j < k ==> lex_lt(#[trigger] (s[j]).0, e.0),
        k < s.len() ==> !lex_lt(s[k].0, e.0),
    ensures
        insert_entry(e, s) == s.subrange(0, k) + seq![e] + s.subrange(k, s.len() as int),
    decreases s.len(),
{
    if s.len() == 0 {
        assert(insert_entry(e, s) =~= s.subrange(0, k) + seq![e] + s.subrange(k, s.len() as int));
    } else if k == 0 {
        assert(insert_entry(e, s) =~= s.subrange(0, 0) + seq![e] + s.subrange(0, s.len() as int));
    } else {
        let rest = s.subrange(1, s.len() as int);
        assert(lex_lt(s[0].0, e.0));
        assert(forall|j: int| 0 <= j < k - 1 ==> lex_lt(#[trigger] (rest[j]).0, e.0));
        assert(k - 1 < rest.len() ==> !lex_lt(rest[k - 1].0, e.0));
        lemma_insert_entry_at(e, rest, k - 1);
        assert(insert_entry(e, s) =~= s.subrange(0, k) + seq![e] + s.subrange(k, s.len() as int))
            by {
            assert(rest.subrange(0, k - 1) =~= s.subrange(1, k));
            assert(rest.subrange(k - 1, rest.len() as int) =~= s.subrange(k, s.len() as int));
        }
    }
}

} // verus!
