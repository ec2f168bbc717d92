//! The dynamic value tree that the state codec reads and writes.
//!
//! A value is nil, a boolean, a 64-bit signed integer, a floating number
//! (held as its IEEE-754 bit pattern, since the codec only ever moves the
//! bits), a byte string, or a table: a mapping from values to values with
//! structurally unique keys, kept as a sequence of key/value pairs in
//! insertion order.

use vstd::prelude::*;

verus! {

/// A dynamic value, as the executable codec builds and consumes it.
#[derive(Debug, PartialEq)]
pub enum LuaValue {
    Nil,
    Boolean(bool),
    Integer(i64),
    /// A floating number, as its IEEE-754 binary64 bit pattern.
    Number(u64),
    /// An arbitrary byte sequence; only container text fields demand UTF-8,
    /// codec strings do not.
    Str(Vec<u8>),
    /// Key/value pairs in insertion order; keys are structurally unique.
    Table(Vec<(LuaValue, LuaValue)>),
}

/// The mathematical model of a dynamic value.
#[verifier::ext_equal]
pub enum LuaVal {
    Nil,
    Boolean(bool),
    Integer(i64),
    Number(u64),
    Str(Seq<u8>),
    Table(Seq<(LuaVal, LuaVal)>),
}

/// The model of a sequence of executable pairs, defined element by element.
pub open spec fn pairs_model(es: Seq<(LuaValue, LuaValue)>) -> Seq<(LuaVal, LuaVal)>
    decreases es,
{
    if es.len() == 0 {
        Seq::empty()
    } else {
        seq![(lua_view(es[0].0), lua_view(es[0].1))] + pairs_model(es.subrange(1, es.len() as int))
    }
}

/// The model of an executable value.
pub open spec fn lua_view(v: LuaValue) -> LuaVal
    decreases v,
{
    match v {
        LuaValue::Nil => LuaVal::Nil,
        LuaValue::Boolean(b) => LuaVal::Boolean(b),
        LuaValue::Integer(i) => LuaVal::Integer(i),
        LuaValue::Number(bits) => LuaVal::Number(bits),
        LuaValue::Str(s) => LuaVal::Str(s@),
        LuaValue::Table(es) => LuaVal::Table(pairs_model(es@)),
    }
}

impl View for LuaValue {
    type V = LuaVal;

    open spec fn view(&self) -> LuaVal {
        lua_view(*self)
    }
}

/// The model of a sequence of executable pairs, element-wise.
pub open spec fn entries_view(es: Seq<(LuaValue, LuaValue)>) -> Seq<(LuaVal, LuaVal)> {
    Seq::new(es.len(), |i: int| (lua_view(es[i].0), lua_view(es[i].1)))
}

/// The model of a sequence of executable values, element-wise.
pub open spec fn values_view(vs: Seq<LuaValue>) -> Seq<LuaVal> {
    Seq::new(vs.len(), |i: int| lua_view(vs[i]))
}

/// The recursive pair model and the element-wise one agree.
pub proof fn lemma_pairs_model(es: Seq<(LuaValue, LuaValue)>)
    ensures
        pairs_model(es) == entries_view(es),
    decreases es.len(),
{
    if es.len() > 0 {
        lemma_pairs_model(es.subrange(1, es.len() as int));
        assert(pairs_model(es) =~= entries_view(es));
    } else {
        assert(pairs_model(es) =~= entries_view(es));
    }
}

/// True when the table entries hold no two structurally equal keys.
pub open spec fn unique_keys(es: Seq<(LuaVal, LuaVal)>) -> bool {
    forall|i: int, j: int| 0 <= i < j < es.len() ==> es[i].0 != es[j].0
}

/// True when `k` appears as a key of the entries.
pub open spec fn contains_key(es: Seq<(LuaVal, LuaVal)>, k: LuaVal) -> bool {
    exists|i: int| 0 <= i < es.len() && es[i].0 == k
}

/// Well-formedness of a value: every string fits the 4-byte length prefix the
/// wire format gives it, every table fits the 4-byte signed entry counts, and
/// table keys are unique.
pub open spec fn lua_wf(v: LuaVal) -> bool
    decreases v,
{
    match v {
        LuaVal::Str(s) => s.len() <= u32::MAX,
        LuaVal::Table(es) => {
            &&& es.len() <= i32::MAX
            &&& unique_keys(es)
            &&& pairs_wf(es)
        },
        _ => true,
    }
}

/// Well-formedness of every key and value among table entries.
pub open spec fn pairs_wf(es: Seq<(LuaVal, LuaVal)>) -> bool
    decreases es,
{
    es.len() == 0 || (lua_wf(es[0].0) && lua_wf(es[0].1) && pairs_wf(es.subrange(1, es.len() as int)))
}

/// Entry-wise reading of [`pairs_wf`].
pub proof fn lemma_pairs_wf_index(es: Seq<(LuaVal, LuaVal)>, i: int)
    requires
        pairs_wf(es),
        0 <= i < es.len(),
    ensures
        lua_wf(es[i].0),
        lua_wf(es[i].1),
    decreases i,
{
    if i > 0 {
        lemma_pairs_wf_index(es.subrange(1, es.len() as int), i - 1);
    }
}

/// Entry-wise construction of [`pairs_wf`].
pub proof fn lemma_pairs_wf_build(es: Seq<(LuaVal, LuaVal)>)
    requires
        forall|i: int| 0 <= i < es.len() ==> lua_wf(#[trigger] es[i].0) && lua_wf(es[i].1),
    ensures
        pairs_wf(es),
    decreases es.len(),
{
    if es.len() > 0 {
        let tail = es.subrange(1, es.len() as int);
        assert(forall|i: int| 0 <= i < tail.len() ==> lua_wf(#[trigger] tail[i].0) && lua_wf(tail[i].1)) by {
            assert(forall|i: int| 0 <= i < tail.len() ==> tail[i] == es[i + 1]);
        }
        lemma_pairs_wf_build(tail);
    }
}

/// Structural equality of two values, decided recursively.
///
/// Table keys are compared by this same structural equality, so two distinct
/// decoded tables with equal contents are one key.
pub fn lua_eq(a: &LuaValue, b: &LuaValue) -> (r: bool)
    ensures
        r == (a@ == b@),
    decreases a,
{
    match (a, b) {
        (LuaValue::Nil, LuaValue::Nil) => true,
        (LuaValue::Boolean(x), LuaValue::Boolean(y)) => x == y,
        (LuaValue::Integer(x), LuaValue::Integer(y)) => x == y,
        (LuaValue::Number(x), LuaValue::Number(y)) => x == y,
        (LuaValue::Str(x), LuaValue::Str(y)) => {
            if x.len() != y.len() {
                return false;
            }
            let mut i: usize = 0;
            while i < x.len()
                invariant
                    i <= x@.len(),
                    x@.len() == y@.len(),
                    a@ == LuaVal::Str(x@),
                    b@ == LuaVal::Str(y@),
                    forall|j: int| 0 <= j < i ==> x@[j] == y@[j],
                decreases x@.len() - i,
            {
                let xe = *vstd::slice::slice_index_get(x.as_slice(), i);
                let ye = *vstd::slice::slice_index_get(y.as_slice(), i);
                if xe != ye {
                    return false;
                }
                i = i + 1;
            }
            proof {
                assert(x@ =~= y@);
                assert(a@ =~= b@);
            }
            true
        },
        (LuaValue::Table(x), LuaValue::Table(y)) => {
            proof {
                lemma_pairs_model(x@);
                lemma_pairs_model(y@);
            }
            if x.len() != y.len() {
                proof {
                    assert(a@ != b@) by {
                        if a@ == b@ {
                            assert(entries_view(x@).len() == entries_view(y@).len());
                        }
                    }
                }
                return false;
            }
            let mut i: usize = 0;
            while i < x.len()
                invariant
                    i <= x@.len(),
                    x@.len() == y@.len(),
                    a@ == LuaVal::Table(entries_view(x@)),
                    b@ == LuaVal::Table(entries_view(y@)),
                    a == LuaValue::Table(*x),
                    forall|j: int| 0 <= j < i ==> entries_view(x@)[j] == entries_view(y@)[j],
                decreases x@.len() - i,
            {
                let (xk, xv) = vec_index_pair(x, i);
                let (yk, yv) = vec_index_pair(y, i);
                proof {
                    assert(decreases_to!(a => x@[i as int].0));
                    assert(decreases_to!(a => x@[i as int].1));
                }
                if !lua_eq(xk, yk) {
                    proof {
                        assert(a@ != b@) by {
                            if a@ == b@ {
                                assert(entries_view(x@)[i as int] == entries_view(y@)[i as int]);
                            }
                        }
                    }
                    return false;
                }
                if !lua_eq(xv, yv) {
                    proof {
                        assert(a@ != b@) by {
                            if a@ == b@ {
                                assert(entries_view(x@)[i as int] == entries_view(y@)[i as int]);
                            }
                        }
                    }
                    return false;
                }
                i = i + 1;
            }
            proof {
                assert(entries_view(x@) =~= entries_view(y@));
                assert(a@ =~= b@);
            }
            true
        },
        _ => false,
    }
}

/// Borrows the pair at index `i`.
pub(crate) fn vec_index_pair(es: &Vec<(LuaValue, LuaValue)>, i: usize) -> (r: (&LuaValue, &LuaValue))
    requires
        i < es@.len(),
    ensures
        *r.0 == es@[i as int].0,
        *r.1 == es@[i as int].1,
{
    let pair = vstd::std_specs::vec::vec_index(es, i);
    (&pair.0, &pair.1)
}

/// What setting key `k` to value `v` does to a table's entries: the first
/// structurally equal key is overwritten in place; a new key is appended.
pub open spec fn spec_table_set(es: Seq<(LuaVal, LuaVal)>, k: LuaVal, v: LuaVal) -> Seq<(LuaVal, LuaVal)>
    decreases es.len(),
{
    if es.len() == 0 {
        seq![(k, v)]
    } else if es[0].0 == k {
        seq![(k, v)] + es.subrange(1, es.len() as int)
    } else {
        seq![es[0]] + spec_table_set(es.subrange(1, es.len() as int), k, v)
    }
}

/// Sets key `k` to value `v` in the entries, per [`spec_table_set`].
pub fn table_set(entries: &mut Vec<(LuaValue, LuaValue)>, k: LuaValue, v: LuaValue)
    ensures
        entries_view(final(entries)@) == spec_table_set(entries_view(old(entries)@), k@, v@),
{
    let mut i: usize = 0;
    let n = entries.len();
    while i < n
        invariant
            i <= n,
            n == entries@.len(),
            entries@ == old(entries)@,
            forall|j: int| 0 <= j < i ==> entries_view(entries@)[j].0 != k@,
        decreases n - i,
    {
        let (ek, _ev) = vec_index_pair(entries, i);
        if lua_eq(ek, &k) {
            entries[i] = (k, v);
            proof {
                lemma_table_set_hit(entries_view(old(entries)@), k@, v@, i as int);
                assert(entries_view(entries@) =~=
                    entries_view(old(entries)@).update(i as int, (k@, v@)));
            }
            return;
        }
        i = i + 1;
    }
    entries.push((k, v));
    proof {
        assert(!contains_key(entries_view(old(entries)@), k@));
        lemma_table_set_miss(entries_view(old(entries)@), k@, v@);
        assert(entries_view(entries@) =~= entries_view(old(entries)@).push((k@, v@)));
    }
}

/// When `k` first occurs at index `i`, setting it updates that entry in place.
proof fn lemma_table_set_hit(es: Seq<(LuaVal, LuaVal)>, k: LuaVal, v: LuaVal, i: int)
    requires
        0 <= i < es.len(),
        es[i].0 == k,
        forall|j: int| 0 <= j < i ==> es[j].0 != k,
    ensures
        spec_table_set(es, k, v) == es.update(i, (k, v)),
    decreases es.len(),
{
    if i == 0 {
        assert(spec_table_set(es, k, v) =~= es.update(0, (k, v)));
    } else {
        let tail = es.subrange(1, es.len() as int);
        lemma_table_set_hit(tail, k, v, i - 1);
        assert(spec_table_set(es, k, v) =~= es.update(i, (k, v)));
    }
}

/// When `k` is not a key of the entries, setting it appends a new entry.
pub proof fn lemma_table_set_miss(es: Seq<(LuaVal, LuaVal)>, k: LuaVal, v: LuaVal)
    requires
        !contains_key(es, k),
    ensures
        spec_table_set(es, k, v) == es.push((k, v)),
    decreases es.len(),
{
    if es.len() == 0 {
        assert(spec_table_set(es, k, v) =~= es.push((k, v)));
    } else {
        let tail = es.subrange(1, es.len() as int);
        assert(!contains_key(tail, k)) by {
            if contains_key(tail, k) {
                let i = choose|i: int| 0 <= i < tail.len() && tail[i].0 == k;
                assert(es[i + 1].0 == k);
            }
        }
        lemma_table_set_miss(tail, k, v);
        assert(spec_table_set(es, k, v) =~= es.push((k, v)));
    }
}

} // verus!
