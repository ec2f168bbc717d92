//! The tagged-value state codec: a flat byte stream holding a count byte and
//! that many recursively encoded dynamic values.
//!
//! Each value starts with a one-byte tag. Nil, false and true are the tag
//! alone; a number is the tag plus 8 bytes of an IEEE-754 double; a string is
//! the tag plus a 4-byte length and the raw bytes; a table is the tag plus
//! two 4-byte signed counts — an array part and a hash part, informational
//! only — followed by that many key/value pairs, each two encoded values.
//! Any other tag is a fatal format error.

use vstd::prelude::*;
use vstd::bytes::{spec_u32_from_le_bytes, spec_u32_to_le_bytes, spec_u64_from_le_bytes, spec_u64_to_le_bytes};

use crate::error::SaveError;
use crate::number::{classify_number, integer_to_bits, i64_to_f64_bits, lua_canonical, spec_classify_number};
use crate::read;
use crate::value::{contains_key, entries_view, lua_view, lua_wf, spec_table_set, table_set, unique_keys, values_view, LuaVal, LuaValue};

verus! {

/// Tag byte of a nil value.
pub const LUABINS_CNIL: u8 = 0x2D;

/// Tag byte of a false boolean.
pub const LUABINS_CFALSE: u8 = 0x30;

/// Tag byte of a true boolean.
pub const LUABINS_CTRUE: u8 = 0x31;

/// Tag byte of a number.
pub const LUABINS_CNUMBER: u8 = 0x4E;

/// Tag byte of a string.
pub const LUABINS_CSTRING: u8 = 0x53;

/// Tag byte of a table.
pub const LUABINS_CTABLE: u8 = 0x54;

/// True of the six tag bytes the codec recognizes.
pub open spec fn recognized_tag(tag: u8) -> bool {
    tag == LUABINS_CNIL || tag == LUABINS_CFALSE || tag == LUABINS_CTRUE
        || tag == LUABINS_CNUMBER || tag == LUABINS_CSTRING || tag == LUABINS_CTABLE
}

/// What decoding one value from the front of `b` yields: the value and how
/// many bytes it consumed, or nothing when the bytes are not a valid
/// encoding.
pub open spec fn spec_load_value(b: Seq<u8>) -> Option<(LuaVal, int)>
    decreases b.len(), 0int,
{
    if b.len() < 1 {
        None
    } else {
        let tag = b[0];
        if tag == LUABINS_CNIL {
            Some((LuaVal::Nil, 1))
        } else if tag == LUABINS_CFALSE {
            Some((LuaVal::Boolean(false), 1))
        } else if tag == LUABINS_CTRUE {
            Some((LuaVal::Boolean(true), 1))
        } else if tag == LUABINS_CNUMBER {
            if b.len() < 9 {
                None
            } else {
                Some((spec_classify_number(spec_u64_from_le_bytes(b.subrange(1, 9))), 9))
            }
        } else if tag == LUABINS_CSTRING {
            if b.len() < 5 {
                None
            } else {
                let len = spec_u32_from_le_bytes(b.subrange(1, 5)) as int;
                if b.len() < 5 + len {
                    None
                } else {
                    Some((LuaVal::Str(b.subrange(5, 5 + len)), 5 + len))
                }
            }
        } else if tag == LUABINS_CTABLE {
            if b.len() < 9 {
                None
            } else {
                let arr = spec_u32_from_le_bytes(b.subrange(1, 5)) as i32 as int;
                let hash = spec_u32_from_le_bytes(b.subrange(5, 9)) as i32 as int;
                match spec_load_pairs(b.skip(9), arr + hash, Seq::empty()) {
                    Some((es, n)) => Some((LuaVal::Table(es), 9 + n)),
                    None => None,
                }
            }
        } else {
            None
        }
    }
}

/// Decodes `count` key/value pairs from the front of `b` and sets each into
/// the accumulated table entries, in stream order.
pub open spec fn spec_load_pairs(b: Seq<u8>, count: int, acc: Seq<(LuaVal, LuaVal)>) -> Option<(Seq<(LuaVal, LuaVal)>, int)>
    decreases b.len(), (if count > 0 { count + 1 } else { 0 }),
{
    if count <= 0 {
        Some((acc, 0))
    } else {
        match spec_load_value(b) {
            None => None,
            Some((k, nk)) => {
                if nk < 1 || nk > b.len() {
                    None
                } else {
                    match spec_load_value(b.skip(nk)) {
                        None => None,
                        Some((v, nv)) => {
                            if nv < 1 || nv > b.len() - nk {
                                None
                            } else {
                                match spec_load_pairs(b.skip(nk + nv), count - 1, spec_table_set(acc, k, v)) {
                                    Some((es, n)) => Some((es, nk + nv + n)),
                                    None => None,
                                }
                            }
                        },
                    }
                }
            },
        }
    }
}

/// Decodes `count` values from the front of `b`.
pub open spec fn spec_load_list(b: Seq<u8>, count: int, acc: Seq<LuaVal>) -> Option<(Seq<LuaVal>, int)>
    decreases b.len(), (if count > 0 { count + 1 } else { 0 }),
{
    if count <= 0 {
        Some((acc, 0))
    } else {
        match spec_load_value(b) {
            None => None,
            Some((v, n)) => {
                if n < 1 || n > b.len() {
                    None
                } else {
                    match spec_load_list(b.skip(n), count - 1, acc.push(v)) {
                        Some((vs, m)) => Some((vs, n + m)),
                        None => None,
                    }
                }
            },
        }
    }
}

/// What decoding a whole stream yields: the count byte, then that many
/// values; the result carries the values and the total bytes consumed.
pub open spec fn spec_load(b: Seq<u8>) -> Option<(Seq<LuaVal>, int)> {
    if b.len() < 1 {
        None
    } else {
        match spec_load_list(b.skip(1), b[0] as int, Seq::empty()) {
            Some((vs, n)) => Some((vs, 1 + n)),
            None => None,
        }
    }
}

/// A successful decode consumes at least the tag byte and no more than the
/// whole input.
pub proof fn lemma_load_value_consumed(b: Seq<u8>)
    requires
        spec_load_value(b) is Some,
    ensures
        1 <= spec_load_value(b)->Some_0.1 <= b.len(),
    decreases b.len(), 0int,
{
    let tag = b[0];
    if tag == LUABINS_CTABLE && b.len() >= 9 {
        let arr = spec_u32_from_le_bytes(b.subrange(1, 5)) as i32 as int;
        let hash = spec_u32_from_le_bytes(b.subrange(5, 9)) as i32 as int;
        lemma_load_pairs_consumed(b.skip(9), arr + hash, Seq::empty());
    }
}

/// Pair decoding consumes no more than its input.
pub proof fn lemma_load_pairs_consumed(b: Seq<u8>, count: int, acc: Seq<(LuaVal, LuaVal)>)
    requires
        spec_load_pairs(b, count, acc) is Some,
    ensures
        0 <= spec_load_pairs(b, count, acc)->Some_0.1 <= b.len(),
    decreases b.len(), (if count > 0 { count + 1 } else { 0 }),
{
    if count > 0 {
        let (k, nk) = spec_load_value(b)->Some_0;
        let (v, nv) = spec_load_value(b.skip(nk))->Some_0;
        lemma_load_pairs_consumed(b.skip(nk + nv), count - 1, spec_table_set(acc, k, v));
    }
}

/// List decoding consumes no more than its input.
pub proof fn lemma_load_list_consumed(b: Seq<u8>, count: int, acc: Seq<LuaVal>)
    requires
        spec_load_list(b, count, acc) is Some,
    ensures
        0 <= spec_load_list(b, count, acc)->Some_0.1 <= b.len(),
    decreases b.len(), (if count > 0 { count + 1 } else { 0 }),
{
    if count > 0 {
        let (v, n) = spec_load_value(b)->Some_0;
        lemma_load_list_consumed(b.skip(n), count - 1, acc.push(v));
    }
}

/// The array-like prefix length of table entries, counted from key `j + 1`:
/// how many consecutive integer keys `j + 1, j + 2, ...` the table holds.
pub open spec fn spec_seq_len_from(es: Seq<(LuaVal, LuaVal)>, j: nat) -> nat
    decreases es.len() - j
        when j <= es.len()
{
    if j >= es.len() {
        0
    } else if contains_key(es, LuaVal::Integer((j + 1) as i64)) {
        1 + spec_seq_len_from(es, j + 1)
    } else {
        0
    }
}

/// The array part a table encodes with: the longest run of consecutive
/// integer keys starting at 1, which never exceeds the entry count.
pub open spec fn spec_seq_len(es: Seq<(LuaVal, LuaVal)>) -> nat {
    spec_seq_len_from(es, 0)
}

/// The encoding of one value.
pub open spec fn spec_save_value(v: LuaVal) -> Seq<u8>
    decreases v,
{
    match v {
        LuaVal::Nil => seq![LUABINS_CNIL],
        LuaVal::Boolean(x) => if x { seq![LUABINS_CTRUE] } else { seq![LUABINS_CFALSE] },
        LuaVal::Integer(i) => seq![LUABINS_CNUMBER] + spec_u64_to_le_bytes(i64_to_f64_bits(i)),
        LuaVal::Number(bits) => seq![LUABINS_CNUMBER] + spec_u64_to_le_bytes(bits),
        LuaVal::Str(s) => seq![LUABINS_CSTRING] + spec_u32_to_le_bytes(s.len() as u32) + s,
        LuaVal::Table(es) => {
            let arr = spec_seq_len(es) as int;
            let hash = es.len() - arr;
            seq![LUABINS_CTABLE] + spec_u32_to_le_bytes(arr as u32) + spec_u32_to_le_bytes(hash as u32)
                + spec_save_pairs(es)
        },
    }
}

/// The encoding of table entries, each pair key first.
pub open spec fn spec_save_pairs(es: Seq<(LuaVal, LuaVal)>) -> Seq<u8>
    decreases es,
{
    if es.len() == 0 {
        Seq::empty()
    } else {
        spec_save_value(es[0].0) + spec_save_value(es[0].1)
            + spec_save_pairs(es.subrange(1, es.len() as int))
    }
}

/// The encoding of a sequence of values, in order.
pub open spec fn spec_save_list(vs: Seq<LuaVal>) -> Seq<u8>
    decreases vs,
{
    if vs.len() == 0 {
        Seq::empty()
    } else {
        spec_save_value(vs[0]) + spec_save_list(vs.subrange(1, vs.len() as int))
    }
}

/// The encoding of a whole stream: the count byte, then the values.
pub open spec fn spec_save(vs: Seq<LuaVal>) -> Seq<u8> {
    seq![vs.len() as u8] + spec_save_list(vs)
}

/// Decodes one value starting at `pos`; on success returns it together with
/// the cursor position just past it. Fails exactly when the spec decode
/// fails: with a format error on an unrecognized tag, and a truncation error
/// when bytes run out.
pub fn load_value(data: &[u8], pos: usize) -> (r: Result<(LuaValue, usize), SaveError>)
    requires
        pos <= data@.len(),
    ensures
        (r matches Ok((v, p)) ==> spec_load_value(data@.skip(pos as int)) == Some((v@, p as int - pos as int))
            && pos < p <= data@.len()),
        r is Err ==> spec_load_value(data@.skip(pos as int)) is None,
        (pos < data@.len() && !recognized_tag(data@[pos as int]))
            ==> (r matches Err(SaveError::Format { .. })),
        (r matches Err(e) ==> (e matches SaveError::Format { .. } || e matches SaveError::Truncation { .. })),
        (r matches Err(e) ==> ((e matches SaveError::Format { .. })
            == spec_load_value_tag_fault(data@.skip(pos as int)))),
    decreases data@.len() - pos,
{
    let ghost b = data@.skip(pos as int);
    let (tag, p0) = match read::byte(data, pos, "type") {
        Ok(x) => x,
        Err(e) => {
            return Err(e);
        },
    };
    proof {
        assert(b[0] == data@[pos as int]);
    }
    if tag == LUABINS_CNIL {
        Ok((LuaValue::Nil, p0))
    } else if tag == LUABINS_CFALSE {
        Ok((LuaValue::Boolean(false), p0))
    } else if tag == LUABINS_CTRUE {
        Ok((LuaValue::Boolean(true), p0))
    } else if tag == LUABINS_CNUMBER {
        match read::float_bits(data, p0, "number") {
            Ok((bits, p1)) => {
                proof {
                    assert(data@.subrange(p0 as int, p0 as int + 8) =~= b.subrange(1, 9));
                }
                Ok((classify_number(bits), p1))
            },
            Err(e) => Err(e),
        }
    } else if tag == LUABINS_CSTRING {
        match read::u32(data, p0, "string size") {
            Ok((len, p1)) => {
                proof {
                    assert(data@.subrange(p0 as int, p0 as int + 4) =~= b.subrange(1, 5));
                }
                match read::bytes(data, p1, len as usize, "string") {
                    Ok((chunk, p2)) => {
                        proof {
                            assert(data@.subrange(p1 as int, p1 as int + len as int)
                                =~= b.subrange(5, 5 + len as int));
                        }
                        Ok((LuaValue::Str(vstd::slice::slice_to_vec(chunk)), p2))
                    },
                    Err(e) => Err(e),
                }
            },
            Err(e) => Err(e),
        }
    } else if tag == LUABINS_CTABLE {
        let (arr, p1) = match read::i32(data, p0, "array_size") {
            Ok(x) => x,
            Err(e) => {
                return Err(e);
            },
        };
        let (hash, p2) = match read::i32(data, p1, "hash_size") {
            Ok(x) => x,
            Err(e) => {
                return Err(e);
            },
        };
        proof {
            assert(data@.subrange(p0 as int, p0 as int + 4) =~= b.subrange(1, 5));
            assert(data@.subrange(p1 as int, p1 as int + 4) =~= b.subrange(5, 9));
        }
        let total: i64 = arr as i64 + hash as i64;
        let mut entries: Vec<(LuaValue, LuaValue)> = Vec::new();
        let mut cur: usize = p2;
        let mut remaining: i64 = total;
        proof {
            assert(entries_view(entries@) =~= Seq::<(LuaVal, LuaVal)>::empty());
            assert(b.skip(9) =~= data@.skip(pos + 9));
        }
        while remaining > 0
            invariant
                pos + 9 <= cur <= data@.len(),
                remaining <= total,
                total == arr as int + hash as int,
                b == data@.skip(pos as int),
                b.len() >= 9,
                b[0] == LUABINS_CTABLE,
                spec_u32_from_le_bytes(b.subrange(1, 5)) as i32 == arr,
                spec_u32_from_le_bytes(b.subrange(5, 9)) as i32 == hash,
                spec_load_pairs(b.skip(9), total as int, Seq::empty())
                    == (match spec_load_pairs(data@.skip(cur as int), remaining as int, entries_view(entries@)) {
                        Some((es, n)) => Some((es, cur - (pos + 9) + n)),
                        None => None::<(Seq<(LuaVal, LuaVal)>, int)>,
                    }),
                spec_load_pairs_tag_fault(b.skip(9), total as int, Seq::empty())
                    == spec_load_pairs_tag_fault(data@.skip(cur as int), remaining as int,
                        entries_view(entries@)),
            decreases remaining,
        {
            let ghost cur0 = cur as int;
            let (k, pk) = match load_value(data, cur) {
                Ok(x) => x,
                Err(e) => {
                    return Err(e);
                },
            };
            proof {
                assert(data@.skip(cur0).skip(pk as int - cur0) =~= data@.skip(pk as int));
            }
            let (v, pv) = match load_value(data, pk) {
                Ok(x) => x,
                Err(e) => {
                    return Err(e);
                },
            };
            table_set(&mut entries, k, v);
            proof {
                assert(data@.skip(cur0).skip((pk as int - cur0) + (pv as int - pk as int))
                    =~= data@.skip(pv as int));
            }
            remaining = remaining - 1;
            cur = pv;
        }
        proof {
            assert(spec_load_pairs(data@.skip(cur as int), remaining as int, entries_view(entries@))
                == Some((entries_view(entries@), 0int)));
            crate::value::lemma_pairs_model(entries@);
        }
        Ok((LuaValue::Table(entries), cur))
    } else {
        Err(SaveError::Format { what: "unknown type tag" })
    }
}

/// Decodes a whole state stream: the leading count byte, then that many
/// values. Trailing bytes after the last value are ignored, as the container
/// may pad the stream.
pub fn load(data: &[u8]) -> (r: Result<Vec<LuaValue>, SaveError>)
    ensures
        (r matches Ok(vs) ==> (spec_load(data@) matches Some((models, n)) && values_view(vs@) == models)),
        r is Err ==> spec_load(data@) is None,
        (r matches Err(e) ==> (e matches SaveError::Format { .. } || e matches SaveError::Truncation { .. })),
        (r matches Err(e) ==> ((e matches SaveError::Format { .. }) == spec_load_tag_fault(data@))),
{
    let (num, p0) = match read::byte(data, 0, "num_items") {
        Ok(x) => x,
        Err(e) => {
            return Err(e);
        },
    };
    let mut vec: Vec<LuaValue> = Vec::new();
    let mut cur: usize = p0;
    let mut remaining: u16 = num as u16;
    proof {
        assert(values_view(vec@) =~= Seq::<LuaVal>::empty());
        assert(data@.skip(1) =~= data@.skip(1));
    }
    while remaining > 0
        invariant
            1 <= cur <= data@.len(),
            remaining <= num as u16,
            data@.len() >= 1,
            num == data@[0],
            spec_load_list(data@.skip(1), num as int, Seq::empty())
                == (match spec_load_list(data@.skip(cur as int), remaining as int, values_view(vec@)) {
                    Some((vs, n)) => Some((vs, cur - 1 + n)),
                    None => None::<(Seq<LuaVal>, int)>,
                }),
            spec_load_list_tag_fault(data@.skip(1), num as int, Seq::empty())
                == spec_load_list_tag_fault(data@.skip(cur as int), remaining as int,
                    values_view(vec@)),
        decreases remaining,
    {
        let ghost cur0 = cur as int;
        let ghost acc0 = values_view(vec@);
        let (v, p) = match load_value(data, cur) {
            Ok(x) => x,
            Err(e) => {
                return Err(e);
            },
        };
        vec.push(v);
        proof {
            assert(data@.skip(cur0).skip(p as int - cur0) =~= data@.skip(p as int));
            assert(values_view(vec@) =~= acc0.push(v@));
        }
        remaining = remaining - 1;
        cur = p;
    }
    proof {
        assert(spec_load_list(data@.skip(cur as int), remaining as int, values_view(vec@))
            == Some((values_view(vec@), 0int)));
    }
    Ok(vec)
}

/// The dry-run length probe: walks the same grammar as [`load`] but discards
/// the values, reporting only how many bytes of the input the stream
/// occupies. Used to find the true payload length inside an over-allocated,
/// padded decompression buffer.
pub fn size(data: &[u8]) -> (r: Result<usize, SaveError>)
    ensures
        (r matches Ok(n) ==> (spec_load(data@) matches Some((vs, m)) && m == n && n <= data@.len())),
        r is Err ==> spec_load(data@) is None,
        (r matches Err(e) ==> (e matches SaveError::Format { .. } || e matches SaveError::Truncation { .. })),
        (r matches Err(e) ==> ((e matches SaveError::Format { .. }) == spec_load_tag_fault(data@))),
{
    let (num, p0) = match read::byte(data, 0, "num_items") {
        Ok(x) => x,
        Err(e) => {
            return Err(e);
        },
    };
    let ghost mut acc: Seq<LuaVal> = Seq::empty();
    let mut cur: usize = p0;
    let mut remaining: u16 = num as u16;
    while remaining > 0
        invariant
            1 <= cur <= data@.len(),
            remaining <= num as u16,
            data@.len() >= 1,
            num == data@[0],
            spec_load_list(data@.skip(1), num as int, Seq::empty())
                == (match spec_load_list(data@.skip(cur as int), remaining as int, acc) {
                    Some((vs, n)) => Some((vs, cur - 1 + n)),
                    None => None::<(Seq<LuaVal>, int)>,
                }),
            spec_load_list_tag_fault(data@.skip(1), num as int, Seq::empty())
                == spec_load_list_tag_fault(data@.skip(cur as int), remaining as int, acc),
        decreases remaining,
    {
        let ghost cur0 = cur as int;
        let (v, p) = match load_value(data, cur) {
            Ok(x) => x,
            Err(e) => {
                return Err(e);
            },
        };
        proof {
            assert(data@.skip(cur0).skip(p as int - cur0) =~= data@.skip(p as int));
            acc = acc.push(v@);
        }
        remaining = remaining - 1;
        cur = p;
    }
    proof {
        assert(spec_load_list(data@.skip(cur as int), remaining as int, acc)
            == Some((acc, 0int)));
    }
    Ok(cur)
}

/// Splitting the encoding of a prefix of table entries at its last pair.
proof fn lemma_save_pairs_snoc(es: Seq<(LuaVal, LuaVal)>, i: int)
    requires
        0 <= i < es.len(),
    ensures
        spec_save_pairs(es.take(i + 1))
            == spec_save_pairs(es.take(i)) + spec_save_value(es[i].0) + spec_save_value(es[i].1),
    decreases i,
{
    if i == 0 {
        assert(es.take(1)[0] == es[0]);
        assert(es.take(1).subrange(1, 1) =~= Seq::<(LuaVal, LuaVal)>::empty());
        assert(es.take(0) =~= Seq::<(LuaVal, LuaVal)>::empty());
        assert(spec_save_pairs(es.take(1))
            =~= spec_save_pairs(es.take(0)) + spec_save_value(es[0].0) + spec_save_value(es[0].1));
    } else {
        let tail = es.subrange(1, es.len() as int);
        lemma_save_pairs_snoc(tail, i - 1);
        assert(es.take(i + 1)[0] == es[0]);
        assert(es.take(i)[0] == es[0]);
        assert(es.take(i + 1).subrange(1, i + 1) =~= tail.take(i));
        assert(es.take(i).subrange(1, i) =~= tail.take(i - 1));
        assert(tail[i - 1] == es[i]);
        assert(spec_save_pairs(es.take(i + 1))
            =~= spec_save_pairs(es.take(i)) + spec_save_value(es[i].0) + spec_save_value(es[i].1));
    }
}

/// Splitting the encoding of a prefix of a value list at its last value.
proof fn lemma_save_list_snoc(vs: Seq<LuaVal>, i: int)
    requires
        0 <= i < vs.len(),
    ensures
        spec_save_list(vs.take(i + 1)) == spec_save_list(vs.take(i)) + spec_save_value(vs[i]),
    decreases i,
{
    if i == 0 {
        assert(vs.take(1)[0] == vs[0]);
        assert(vs.take(1).subrange(1, 1) =~= Seq::<LuaVal>::empty());
        assert(vs.take(0) =~= Seq::<LuaVal>::empty());
        assert(spec_save_list(vs.take(1)) =~= spec_save_list(vs.take(0)) + spec_save_value(vs[0]));
    } else {
        let tail = vs.subrange(1, vs.len() as int);
        lemma_save_list_snoc(tail, i - 1);
        assert(vs.take(i + 1)[0] == vs[0]);
        assert(vs.take(i)[0] == vs[0]);
        assert(vs.take(i + 1).subrange(1, i + 1) =~= tail.take(i));
        assert(vs.take(i).subrange(1, i) =~= tail.take(i - 1));
        assert(tail[i - 1] == vs[i]);
        assert(spec_save_list(vs.take(i + 1))
            =~= spec_save_list(vs.take(i)) + spec_save_value(vs[i]));
    }
}

/// Whether the entries hold the integer key `key`.
fn contains_int_key(entries: &Vec<(LuaValue, LuaValue)>, key: i64) -> (r: bool)
    ensures
        r == contains_key(entries_view(entries@), LuaVal::Integer(key)),
{
    let mut i: usize = 0;
    while i < entries.len()
        invariant
            i <= entries@.len(),
            forall|j: int| 0 <= j < i ==> entries_view(entries@)[j].0 != LuaVal::Integer(key),
        decreases entries@.len() - i,
    {
        let (k, _v) = crate::value::vec_index_pair(entries, i);
        match k {
            LuaValue::Integer(x) => {
                if *x == key {
                    proof {
                        assert(entries_view(entries@)[i as int].0 == LuaVal::Integer(key));
                    }
                    return true;
                }
            },
            _ => {},
        }
        i = i + 1;
    }
    proof {
        if contains_key(entries_view(entries@), LuaVal::Integer(key)) {
            let j = choose|j: int|
                0 <= j < entries_view(entries@).len()
                    && entries_view(entries@)[j].0 == LuaVal::Integer(key);
        }
    }
    false
}

/// The array part of the table split: the longest run of consecutive integer
/// keys starting at 1.
fn table_seq_len(entries: &Vec<(LuaValue, LuaValue)>) -> (r: usize)
    requires
        entries@.len() <= i32::MAX,
    ensures
        r == spec_seq_len(entries_view(entries@)),
        r <= entries@.len(),
{
    let ghost ev = entries_view(entries@);
    let mut n: usize = 0;
    let mut stop = false;
    while !stop && n < entries.len()
        invariant
            n <= entries@.len() <= i32::MAX,
            ev == entries_view(entries@),
            spec_seq_len(ev) == n + spec_seq_len_from(ev, n as nat),
            stop ==> spec_seq_len_from(ev, n as nat) == 0,
        decreases entries@.len() - n + (if stop { 0int } else { 1 }),
    {
        if contains_int_key(entries, (n as i64) + 1) {
            proof {
                assert(spec_seq_len_from(ev, n as nat) == 1 + spec_seq_len_from(ev, (n + 1) as nat));
            }
            n = n + 1;
        } else {
            stop = true;
        }
    }
    n
}

/// Table well-formedness gives well-formedness of each entry.
proof fn lemma_wf_table_entry(es: Seq<(LuaVal, LuaVal)>, i: int)
    requires
        lua_wf(LuaVal::Table(es)),
        0 <= i < es.len(),
    ensures
        lua_wf(es[i].0),
        lua_wf(es[i].1),
{
    crate::value::lemma_pairs_wf_index(es, i);
}

/// Appends the encoding of one value, per [`spec_save_value`].
pub fn save_value(savestate: &mut Vec<u8>, value: &LuaValue)
    requires
        lua_wf(value@),
    ensures
        final(savestate)@ == old(savestate)@ + spec_save_value(value@),
    decreases value,
{
    match value {
        LuaValue::Nil => {
            crate::write::byte(savestate, LUABINS_CNIL);
            proof {
                assert(savestate@ =~= old(savestate)@ + spec_save_value(value@));
            }
        },
        LuaValue::Boolean(x) => {
            crate::write::byte(savestate, if *x { LUABINS_CTRUE } else { LUABINS_CFALSE });
            proof {
                assert(savestate@ =~= old(savestate)@ + spec_save_value(value@));
            }
        },
        LuaValue::Integer(i) => {
            let bits = integer_to_bits(*i);
            crate::write::byte(savestate, LUABINS_CNUMBER);
            crate::write::float_bits(savestate, bits);
            proof {
                assert(savestate@ =~= old(savestate)@ + spec_save_value(value@));
            }
        },
        LuaValue::Number(bits) => {
            crate::write::byte(savestate, LUABINS_CNUMBER);
            crate::write::float_bits(savestate, *bits);
            proof {
                assert(savestate@ =~= old(savestate)@ + spec_save_value(value@));
            }
        },
        LuaValue::Str(s) => {
            crate::write::byte(savestate, LUABINS_CSTRING);
            crate::write::u32(savestate, s.len() as u32);
            crate::write::bytes(savestate, s.as_slice());
            proof {
                assert(savestate@ =~= old(savestate)@ + spec_save_value(value@));
            }
        },
        LuaValue::Table(es) => {
            proof {
                crate::value::lemma_pairs_model(es@);
            }
            let ghost ev = entries_view(es@);
            let arr = table_seq_len(es);
            let total = es.len();
            crate::write::byte(savestate, LUABINS_CTABLE);
            crate::write::i32(savestate, arr as i32);
            crate::write::i32(savestate, (total - arr) as i32);
            let ghost header = old(savestate)@ + seq![LUABINS_CTABLE]
                + spec_u32_to_le_bytes(arr as u32)
                + spec_u32_to_le_bytes((total - arr) as u32);
            proof {
                assert(savestate@ =~= header);
                assert(ev.take(0) =~= Seq::<(LuaVal, LuaVal)>::empty());
            }
            let mut i: usize = 0;
            while i < total
                invariant
                    i <= total == es@.len(),
                    value == LuaValue::Table(*es),
                    lua_wf(value@),
                    ev == entries_view(es@),
                    value@ == LuaVal::Table(ev),
                    savestate@ == header + spec_save_pairs(ev.take(i as int)),
                decreases total - i,
            {
                let (k, v) = crate::value::vec_index_pair(es, i);
                proof {
                    assert(decreases_to!(value => es@[i as int].0));
                    assert(decreases_to!(value => es@[i as int].1));
                    assert(ev.len() == es@.len());
                    assert(lua_wf(LuaVal::Table(ev)));
                    lemma_wf_table_entry(ev, i as int);
                    assert(ev[i as int] == (lua_view(es@[i as int].0), lua_view(es@[i as int].1)));
                }
                save_value(savestate, k);
                save_value(savestate, v);
                proof {
                    lemma_save_pairs_snoc(ev, i as int);
                    assert(savestate@ =~= header + spec_save_pairs(ev.take(i as int + 1)));
                }
                i = i + 1;
            }
            proof {
                assert(ev.take(total as int) =~= ev);
                assert(savestate@ =~= old(savestate)@ + spec_save_value(value@));
            }
        },
    }
}

/// Appends the encoding of a whole value forest: the count byte, then each
/// value in order. More than 255 top-level values cannot be represented in
/// the one-byte count and is a caller error; the buffer is then unchanged.
pub fn save(savestate: &mut Vec<u8>, values: &Vec<LuaValue>) -> (r: Result<(), SaveError>)
    requires
        forall|i: int| 0 <= i < values@.len() ==> #[trigger] lua_wf(values@[i]@),
    ensures
        values@.len() <= 255 ==> (r is Ok
            && final(savestate)@ == old(savestate)@ + spec_save(values_view(values@))),
        values@.len() > 255 ==> (r matches Err(SaveError::Caller { .. })
            && final(savestate)@ == old(savestate)@),
{
    if values.len() > 255 {
        return Err(SaveError::Caller { what: "more than 255 top-level values" });
    }
    let ghost vv = values_view(values@);
    crate::write::byte(savestate, values.len() as u8);
    let ghost header = old(savestate)@ + seq![(values@.len() as u8)];
    proof {
        assert(vv.take(0) =~= Seq::<LuaVal>::empty());
        assert(savestate@ =~= header);
    }
    let mut i: usize = 0;
    while i < values.len()
        invariant
            i <= values@.len(),
            vv == values_view(values@),
            forall|j: int| 0 <= j < values@.len() ==> #[trigger] lua_wf(values@[j]@),
            savestate@ == header + spec_save_list(vv.take(i as int)),
        decreases values@.len() - i,
    {
        let v = vstd::std_specs::vec::vec_index(values, i);
        save_value(savestate, v);
        proof {
            lemma_save_list_snoc(vv, i as int);
            assert(savestate@ =~= header + spec_save_list(vv.take(i as int + 1)));
        }
        i = i + 1;
    }
    proof {
        assert(vv.take(values@.len() as int) =~= vv);
        assert(savestate@ =~= old(savestate)@ + spec_save(vv));
    }
    Ok(())
}

/// Every encoded value takes at least its tag byte.
proof fn lemma_save_value_len(v: LuaVal)
    ensures
        spec_save_value(v).len() >= 1,
{
}

/// Decoding one value reads only the bytes it consumes: any continuation of
/// that consumed prefix decodes to the same value and length.
pub proof fn lemma_load_value_prefix(b1: Seq<u8>, b2: Seq<u8>)
    requires
        spec_load_value(b1) is Some,
        b2.len() >= spec_load_value(b1)->Some_0.1,
        b2.take(spec_load_value(b1)->Some_0.1) == b1.take(spec_load_value(b1)->Some_0.1),
    ensures
        spec_load_value(b2) == spec_load_value(b1),
    decreases b1.len(), 0int,
{
    lemma_load_value_consumed(b1);
    let n = spec_load_value(b1)->Some_0.1;
    assert(b2[0] == b1[0]) by {
        assert(b2.take(n)[0] == b1.take(n)[0]);
    }
    assert forall|j: int| 0 <= j < n implies b2[j] == b1[j] by {
        assert(b2.take(n)[j] == b1.take(n)[j]);
        assert(b2.take(n)[j] == b2[j]);
        assert(b1.take(n)[j] == b1[j]);
    }
    let tag = b1[0];
    if tag == LUABINS_CNUMBER {
        assert(b2.subrange(1, 9) =~= b1.subrange(1, 9));
    } else if tag == LUABINS_CSTRING {
        assert(b2.subrange(1, 5) =~= b1.subrange(1, 5));
        let len = spec_u32_from_le_bytes(b1.subrange(1, 5)) as int;
        assert(b2.subrange(5, 5 + len) =~= b1.subrange(5, 5 + len));
    } else if tag == LUABINS_CTABLE {
        let arr = spec_u32_from_le_bytes(b1.subrange(1, 5)) as i32 as int;
        let hash = spec_u32_from_le_bytes(b1.subrange(5, 9)) as i32 as int;
        lemma_load_pairs_consumed(b1.skip(9), arr + hash, Seq::empty());
        let m = spec_load_pairs(b1.skip(9), arr + hash, Seq::empty())->Some_0.1;
        assert(b2.subrange(1, 5) =~= b1.subrange(1, 5));
        assert(b2.subrange(5, 9) =~= b1.subrange(5, 9));
        assert(b2.skip(9).take(m) =~= b1.skip(9).take(m));
        lemma_load_pairs_prefix(b1.skip(9), b2.skip(9), arr + hash, Seq::empty());
    }
}

/// Pair decoding reads only the bytes it consumes.
pub proof fn lemma_load_pairs_prefix(b1: Seq<u8>, b2: Seq<u8>, count: int, acc: Seq<(LuaVal, LuaVal)>)
    requires
        spec_load_pairs(b1, count, acc) is Some,
        b2.len() >= spec_load_pairs(b1, count, acc)->Some_0.1,
        b2.take(spec_load_pairs(b1, count, acc)->Some_0.1)
            == b1.take(spec_load_pairs(b1, count, acc)->Some_0.1),
    ensures
        spec_load_pairs(b2, count, acc) == spec_load_pairs(b1, count, acc),
    decreases b1.len(), (if count > 0 { count + 1 } else { 0 }),
{
    if count > 0 {
        lemma_load_pairs_consumed(b1, count, acc);
        let n = spec_load_pairs(b1, count, acc)->Some_0.1;
        let (k, nk) = spec_load_value(b1)->Some_0;
        lemma_load_value_consumed(b1);
        let (v, nv) = spec_load_value(b1.skip(nk))->Some_0;
        lemma_load_value_consumed(b1.skip(nk));
        let acc2 = spec_table_set(acc, k, v);
        lemma_load_pairs_consumed(b1.skip(nk + nv), count - 1, acc2);
        let m = spec_load_pairs(b1.skip(nk + nv), count - 1, acc2)->Some_0.1;
        assert(n == nk + nv + m);
        assert forall|j: int| 0 <= j < n implies b2[j] == b1[j] by {
            assert(b2.take(n)[j] == b1.take(n)[j]);
            assert(b2.take(n)[j] == b2[j]);
            assert(b1.take(n)[j] == b1[j]);
        }
        assert(b2.take(nk) =~= b1.take(nk));
        lemma_load_value_prefix(b1, b2);
        assert(b2.skip(nk).take(nv) =~= b1.skip(nk).take(nv));
        assert(b2.skip(nk).len() >= nv);
        lemma_load_value_prefix(b1.skip(nk), b2.skip(nk));
        assert(b2.skip(nk + nv).take(m) =~= b1.skip(nk + nv).take(m));
        lemma_load_pairs_prefix(b1.skip(nk + nv), b2.skip(nk + nv), count - 1, acc2);
    }
}

/// List decoding reads only the bytes it consumes.
pub proof fn lemma_load_list_prefix(b1: Seq<u8>, b2: Seq<u8>, count: int, acc: Seq<LuaVal>)
    requires
        spec_load_list(b1, count, acc) is Some,
        b2.len() >= spec_load_list(b1, count, acc)->Some_0.1,
        b2.take(spec_load_list(b1, count, acc)->Some_0.1)
            == b1.take(spec_load_list(b1, count, acc)->Some_0.1),
    ensures
        spec_load_list(b2, count, acc) == spec_load_list(b1, count, acc),
    decreases b1.len(), (if count > 0 { count + 1 } else { 0 }),
{
    if count > 0 {
        lemma_load_list_consumed(b1, count, acc);
        let n = spec_load_list(b1, count, acc)->Some_0.1;
        let (v, nv) = spec_load_value(b1)->Some_0;
        lemma_load_value_consumed(b1);
        lemma_load_list_consumed(b1.skip(nv), count - 1, acc.push(v));
        let m = spec_load_list(b1.skip(nv), count - 1, acc.push(v))->Some_0.1;
        assert forall|j: int| 0 <= j < n implies b2[j] == b1[j] by {
            assert(b2.take(n)[j] == b1.take(n)[j]);
            assert(b2.take(n)[j] == b2[j]);
            assert(b1.take(n)[j] == b1[j]);
        }
        assert(b2.take(nv) =~= b1.take(nv));
        lemma_load_value_prefix(b1, b2);
        assert(b2.skip(nv).take(m) =~= b1.skip(nv).take(m));
        lemma_load_list_prefix(b1.skip(nv), b2.skip(nv), count - 1, acc.push(v));
    }
}

/// The dry-run probe is accurate: when a stream decodes to values consuming
/// `n` bytes out of a longer, padded buffer, trimming the buffer to exactly
/// `n` bytes and decoding again yields the same values, consuming all of the
/// trimmed buffer.
pub proof fn lemma_probe_trim(b: Seq<u8>)
    requires
        spec_load(b) is Some,
    ensures
        1 <= spec_load(b)->Some_0.1 <= b.len(),
        spec_load(b.take(spec_load(b)->Some_0.1)) == spec_load(b),
{
    let (vs, n) = spec_load(b)->Some_0;
    lemma_load_list_consumed(b.skip(1), b[0] as int, Seq::empty());
    let t = b.take(n);
    assert(t[0] == b[0]);
    let m = spec_load_list(b.skip(1), b[0] as int, Seq::empty())->Some_0.1;
    assert(t.skip(1).take(m) =~= b.skip(1).take(m));
    lemma_load_list_prefix(b.skip(1), t.skip(1), b[0] as int, Seq::empty());
}

/// Decoding an encoded value from the front of any stream yields the value
/// back, consuming exactly its encoding, provided the value is well formed
/// and canonical.
pub proof fn lemma_save_load_value(v: LuaVal, rest: Seq<u8>)
    requires
        lua_wf(v),
        lua_canonical(v),
    ensures
        spec_load_value(spec_save_value(v) + rest)
            == Some((v, spec_save_value(v).len() as int)),
    decreases v, 0int,
{
    let enc = spec_save_value(v);
    let b = enc + rest;
    vstd::bytes::lemma_auto_spec_u32_to_from_le_bytes();
    vstd::bytes::lemma_auto_spec_u64_to_from_le_bytes();
    match v {
        LuaVal::Nil => {},
        LuaVal::Boolean(_) => {},
        LuaVal::Integer(i) => {
            assert(b.subrange(1, 9) =~= spec_u64_to_le_bytes(i64_to_f64_bits(i)));
            crate::number::lemma_classify_to_bits(i);
        },
        LuaVal::Number(bits) => {
            assert(b.subrange(1, 9) =~= spec_u64_to_le_bytes(bits));
        },
        LuaVal::Str(s) => {
            assert(b.subrange(1, 5) =~= spec_u32_to_le_bytes(s.len() as u32));
            assert(spec_u32_from_le_bytes(b.subrange(1, 5)) == s.len());
            assert(b.subrange(5, 5 + s.len() as int) =~= s);
        },
        LuaVal::Table(es) => {
            let arr = spec_seq_len(es) as int;
            let hash = es.len() - arr;
            lemma_seq_len_le(es, 0);
            assert(b.subrange(1, 5) =~= spec_u32_to_le_bytes(arr as u32));
            assert(b.subrange(5, 9) =~= spec_u32_to_le_bytes(hash as u32));
            assert(spec_u32_from_le_bytes(b.subrange(1, 5)) as i32 as int == arr);
            assert(spec_u32_from_le_bytes(b.subrange(5, 9)) as i32 as int == hash);
            assert(b.skip(9) =~= spec_save_pairs(es) + rest);
            assert(forall|j: int| 0 <= j < es.len()
                ==> !contains_key(Seq::<(LuaVal, LuaVal)>::empty(), #[trigger] es[j].0));
            lemma_save_load_pairs(es, Seq::empty(), rest);
            assert(Seq::<(LuaVal, LuaVal)>::empty() + es =~= es);
        },
    }
}

/// Decoding `es.len()` encoded pairs appends exactly those entries to the
/// accumulator, consuming exactly their encoding, provided keys are unique
/// and none is already present.
proof fn lemma_save_load_pairs(es: Seq<(LuaVal, LuaVal)>, acc: Seq<(LuaVal, LuaVal)>, rest: Seq<u8>)
    requires
        crate::value::pairs_wf(es),
        crate::number::pairs_canonical(es),
        unique_keys(es),
        forall|j: int| 0 <= j < es.len() ==> !contains_key(acc, #[trigger] es[j].0),
    ensures
        spec_load_pairs(spec_save_pairs(es) + rest, es.len() as int, acc)
            == Some((acc + es, spec_save_pairs(es).len() as int)),
    decreases es, 1int,
{
    if es.len() == 0 {
        assert(acc + es =~= acc);
    } else {
        let k = es[0].0;
        let v = es[0].1;
        let tail = es.subrange(1, es.len() as int);
        let ek = spec_save_value(k);
        let ev = spec_save_value(v);
        let et = spec_save_pairs(tail);
        let b = spec_save_pairs(es) + rest;
        lemma_save_value_len(k);
        lemma_save_value_len(v);
        assert(b =~= ek + (ev + (et + rest)));
        lemma_save_load_value(k, ev + (et + rest));
        assert(spec_load_value(b) == Some((k, ek.len() as int)));
        assert(b.skip(ek.len() as int) =~= ev + (et + rest));
        lemma_save_load_value(v, et + rest);
        assert(spec_load_value(b.skip(ek.len() as int)) == Some((v, ev.len() as int)));
        assert(b.skip(ek.len() as int).skip(ev.len() as int) =~= et + rest);
        crate::value::lemma_table_set_miss(acc, k, v);
        let acc2 = acc.push((k, v));
        assert(forall|j: int| 0 <= j < tail.len() ==> tail[j] == es[j + 1]);
        assert(forall|j: int| 0 <= j < tail.len() ==> !contains_key(acc2, #[trigger] tail[j].0)) by {
            assert(forall|j: int| 0 <= j < tail.len() ==> tail[j].0 != k);
            assert(forall|l: int| 0 <= l < acc.len() ==> #[trigger] acc2[l] == acc[l]);
            assert forall|j: int| 0 <= j < tail.len()
                implies !contains_key(acc2, #[trigger] tail[j].0) by {
                if contains_key(acc2, tail[j].0) {
                    let l = choose|l: int| 0 <= l < acc2.len() && acc2[l].0 == tail[j].0;
                    if l < acc.len() {
                        assert(acc[l].0 == tail[j].0);
                    } else {
                        assert(acc2[l] == (k, v));
                    }
                }
            }
        }
        assert(unique_keys(tail));
        lemma_save_load_pairs(tail, acc2, rest);
        assert(b.skip(ek.len() as int).skip(ev.len() as int)
            =~= spec_save_pairs(tail) + rest);
        assert(b.skip((ek.len() + ev.len()) as int) =~= b.skip(ek.len() as int).skip(ev.len() as int));
        assert(acc2 + tail =~= acc + es);
    }
}

/// The array part never exceeds the number of entries left.
proof fn lemma_seq_len_le(es: Seq<(LuaVal, LuaVal)>, j: nat)
    requires
        j <= es.len(),
    ensures
        spec_seq_len_from(es, j) <= es.len() - j,
    decreases es.len() - j,
{
    if j < es.len() && contains_key(es, LuaVal::Integer((j + 1) as i64)) {
        lemma_seq_len_le(es, j + 1);
    }
}

/// Decoding an encoded list of values from the front of any stream yields
/// the values back.
proof fn lemma_save_load_list(vs: Seq<LuaVal>, acc: Seq<LuaVal>, rest: Seq<u8>)
    requires
        forall|j: int| 0 <= j < vs.len() ==> lua_wf(#[trigger] vs[j]) && lua_canonical(vs[j]),
    ensures
        spec_load_list(spec_save_list(vs) + rest, vs.len() as int, acc)
            == Some((acc + vs, spec_save_list(vs).len() as int)),
    decreases vs,
{
    if vs.len() == 0 {
        assert(acc + vs =~= acc);
    } else {
        let v = vs[0];
        let tail = vs.subrange(1, vs.len() as int);
        let ev = spec_save_value(v);
        let et = spec_save_list(tail);
        let b = spec_save_list(vs) + rest;
        lemma_save_value_len(v);
        assert(b =~= ev + (et + rest));
        lemma_save_load_value(v, et + rest);
        assert(spec_load_value(b) == Some((v, ev.len() as int)));
        assert(b.skip(ev.len() as int) =~= et + rest);
        assert(forall|j: int| 0 <= j < tail.len() ==> tail[j] == vs[j + 1]);
        lemma_save_load_list(tail, acc.push(v), rest);
        assert(acc.push(v) + tail =~= acc + vs);
    }
}

/// Round trip of the state codec: decoding an encoded forest of at most 255
/// well-formed, canonical values yields exactly those values and consumes
/// exactly the encoding. Canonical rules out what the format itself cannot
/// keep: whole-valued floating numbers, which decode as integers, and
/// integers beyond the 53-bit significand, which round.
pub proof fn lemma_save_load(vs: Seq<LuaVal>)
    requires
        vs.len() <= 255,
        forall|j: int| 0 <= j < vs.len() ==> lua_wf(#[trigger] vs[j]) && lua_canonical(vs[j]),
    ensures
        spec_load(spec_save(vs)) == Some((vs, spec_save(vs).len() as int)),
{
    let b = spec_save(vs);
    assert(b[0] == vs.len() as u8);
    assert(b.skip(1) =~= spec_save_list(vs) + Seq::<u8>::empty());
    lemma_save_load_list(vs, Seq::empty(), Seq::empty());
    assert(Seq::<LuaVal>::empty() + vs =~= vs);
    assert(spec_save_list(vs) + Seq::<u8>::empty() =~= spec_save_list(vs));
}

/// The table split always accounts for every entry: the array part is at
/// most the entry count, and the array and hash parts sum to it exactly.
pub proof fn lemma_table_split_sums(es: Seq<(LuaVal, LuaVal)>)
    ensures
        spec_seq_len(es) <= es.len(),
        spec_seq_len(es) as int + (es.len() - spec_seq_len(es)) == es.len(),
{
    lemma_seq_len_le(es, 0);
}

/// True when a failing value decode stops on an unrecognized tag; a failing
/// decode that never meets a bad tag ran out of bytes instead.
pub open spec fn spec_load_value_tag_fault(b: Seq<u8>) -> bool
    decreases b.len(), 0int,
{
    if b.len() < 1 {
        false
    } else {
        let tag = b[0];
        if tag == LUABINS_CNIL || tag == LUABINS_CFALSE || tag == LUABINS_CTRUE
            || tag == LUABINS_CNUMBER || tag == LUABINS_CSTRING {
            false
        } else if tag == LUABINS_CTABLE {
            if b.len() < 9 {
                false
            } else {
                let arr = spec_u32_from_le_bytes(b.subrange(1, 5)) as i32 as int;
                let hash = spec_u32_from_le_bytes(b.subrange(5, 9)) as i32 as int;
                spec_load_pairs_tag_fault(b.skip(9), arr + hash, Seq::empty())
            }
        } else {
            true
        }
    }
}

/// Where a failing pair decode stops: on a bad tag, or on missing bytes.
pub open spec fn spec_load_pairs_tag_fault(b: Seq<u8>, count: int, acc: Seq<(LuaVal, LuaVal)>) -> bool
    decreases b.len(), (if count > 0 { count + 1 } else { 0 }),
{
    if count <= 0 {
        false
    } else {
        match spec_load_value(b) {
            None => spec_load_value_tag_fault(b),
            Some((k, nk)) => {
                if nk < 1 || nk > b.len() {
                    false
                } else {
                    match spec_load_value(b.skip(nk)) {
                        None => spec_load_value_tag_fault(b.skip(nk)),
                        Some((v, nv)) => {
                            if nv < 1 || nv > b.len() - nk {
                                false
                            } else {
                                spec_load_pairs_tag_fault(b.skip(nk + nv), count - 1,
                                    spec_table_set(acc, k, v))
                            }
                        },
                    }
                }
            },
        }
    }
}

/// Where a failing list decode stops: on a bad tag, or on missing bytes.
pub open spec fn spec_load_list_tag_fault(b: Seq<u8>, count: int, acc: Seq<LuaVal>) -> bool
    decreases b.len(), (if count > 0 { count + 1 } else { 0 }),
{
    if count <= 0 {
        false
    } else {
        match spec_load_value(b) {
            None => spec_load_value_tag_fault(b),
            Some((v, n)) => {
                if n < 1 || n > b.len() {
                    false
                } else {
                    spec_load_list_tag_fault(b.skip(n), count - 1, acc.push(v))
                }
            },
        }
    }
}

/// Where a failing stream decode stops: on a bad tag, or on missing bytes.
pub open spec fn spec_load_tag_fault(b: Seq<u8>) -> bool {
    if b.len() < 1 {
        false
    } else {
        spec_load_list_tag_fault(b.skip(1), b[0] as int, Seq::empty())
    }
}

} // verus!
