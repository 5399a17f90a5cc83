//! The record format: each record is a 4-byte little-endian payload
//! length followed by the payload, the binary encoding of one
//! [`Mutation`]. Values, maps and structs are laid out field by field
//! with the primitives of [`crate::wire`]; an enum is its variant index
//! (a variable-length `u32`) followed by the variant's fields, and a map
//! or list is its length followed by its entries.
//!
//! Each encoder has a spec function that gives its exact output, each
//! decoder a spec function that gives its exact result on any input, and
//! the `lemma_*_round_trip` proofs show that decoding an encoding gives
//! back the model of what was encoded.

use vstd::prelude::*;
use crate::wire::{
    DecodeError, u32_le, u64_le, read_u32, read_u64, holds_at, lemma_holds_at_concat, lemma_read_u32,
    lemma_read_u64, put_u32_le, put_u64_le, get_u32_le, varint, dec_u64, dec_u32, lemma_dec_u64,
    lemma_dec_u32, put_varint, get_u64, get_u32, zigzag, lemma_zigzag, dec_i64, put_i64, get_i64,
    bool_byte, dec_bool, put_bool, get_bool, str_bytes, str_fits, dec_str, lemma_dec_str, put_str,
    get_str, dec_f64_bits, get_f64_bits,
};
use crate::value::{Value, ValueModel, values_view, lemma_values_view};
use crate::strmap::{StrMap, entries_map};
use crate::graph::{Properties, PropsModel, Node, NodeModel, Edge, EdgeModel};
use crate::sync::mutation::{ActorId, Mutation, MutationModel, MutationOp, OpModel};
use crate::schema::{PropertyType, TableKind, TableSchema, TableModel, Schema, SchemaModel};

verus! {

// ---------- values ----------

/// The encoding of a value.
pub open spec fn enc_value(v: ValueModel) -> Seq<u8>
    decreases v, 0nat,
{
    match v {
        ValueModel::Null => varint(0),
        ValueModel::Bool(x) => varint(1) + bool_byte(x),
        ValueModel::I64(i) => varint(2) + varint(zigzag(i)),
        ValueModel::F64(bits) => varint(3) + u64_le(bits),
        ValueModel::Str(s) => varint(4) + str_bytes(s),
        ValueModel::Timestamp(t) => varint(5) + varint(zigzag(t)),
        ValueModel::List(items) => varint(6) + varint(items.len() as u64) + enc_values(
            items,
            items.len(),
        ),
    }
}

/// The encodings of the first `n` values of `s`, one after another.
pub open spec fn enc_values(s: Seq<ValueModel>, n: nat) -> Seq<u8>
    decreases s, n,
{
    if n == 0 || n > s.len() {
        Seq::empty()
    } else {
        enc_values(s, (n - 1) as nat) + enc_value(s[n - 1])
    }
}

/// Every string and list of the value has a length the format can carry.
pub open spec fn value_fits(v: ValueModel) -> bool
    decreases v, 0nat,
{
    match v {
        ValueModel::Str(s) => str_fits(s),
        ValueModel::List(items) => items.len() <= u64::MAX && values_fit(items, items.len()),
        _ => true,
    }
}

pub open spec fn values_fit(s: Seq<ValueModel>, n: nat) -> bool
    decreases s, n,
{
    if n == 0 || n > s.len() {
        true
    } else {
        values_fit(s, (n - 1) as nat) && value_fits(s[n - 1])
    }
}

/// What decoding a value at `p` gives: the value and the position after it.
pub open spec fn dec_value(b: Seq<u8>, p: int) -> Option<(ValueModel, int)>
    decreases b.len() - p, 0int,
{
    if p < 0 || p >= b.len() {
        None
    } else {
        match dec_u32(b, p) {
            None => None,
            Some((tag, q)) => if tag == 0 {
                Some((ValueModel::Null, q))
            } else if tag == 1 {
                match dec_bool(b, q) {
                    Some((x, r)) => Some((ValueModel::Bool(x), r)),
                    None => None,
                }
            } else if tag == 2 {
                match dec_i64(b, q) {
                    Some((x, r)) => Some((ValueModel::I64(x), r)),
                    None => None,
                }
            } else if tag == 3 {
                match dec_f64_bits(b, q) {
                    Some((x, r)) => Some((ValueModel::F64(x), r)),
                    None => None,
                }
            } else if tag == 4 {
                match dec_str(b, q) {
                    Some((x, r)) => Some((ValueModel::Str(x), r)),
                    None => None,
                }
            } else if tag == 5 {
                match dec_i64(b, q) {
                    Some((x, r)) => Some((ValueModel::Timestamp(x), r)),
                    None => None,
                }
            } else if tag == 6 {
                match dec_u64(b, q) {
                    Some((n, r)) => match dec_list(b, r, n as nat, Seq::empty()) {
                        Some((items, e)) => Some((ValueModel::List(items), e)),
                        None => None,
                    },
                    None => None,
                }
            } else {
                None
            },
        }
    }
}

/// Decodes `n` more values at `p` after those already in `acc`.
pub open spec fn dec_list(b: Seq<u8>, p: int, n: nat, acc: Seq<ValueModel>) -> Option<
    (Seq<ValueModel>, int),
>
    decreases b.len() - p, n + 1,
{
    if n == 0 {
        Some((acc, p))
    } else if p < 0 || p >= b.len() {
        None
    } else {
        match dec_value(b, p) {
            Some((v, q)) => if q <= p || q > b.len() {
                None
            } else {
                dec_list(b, q, (n - 1) as nat, acc.push(v))
            },
            None => None,
        }
    }
}

pub proof fn lemma_values_fit(s: Seq<ValueModel>, n: nat, k: int)
    requires
        values_fit(s, n),
        n <= s.len(),
        0 <= k < n,
    ensures
        value_fits(s[k]),
    decreases n,
{
    if k < n - 1 {
        lemma_values_fit(s, (n - 1) as nat, k);
    }
}

pub proof fn lemma_enc_values_prefix(b: Seq<u8>, p: int, s: Seq<ValueModel>, n: nat, j: nat)
    requires
        holds_at(b, p, enc_values(s, n)),
        j <= n <= s.len(),
    ensures
        holds_at(b, p, enc_values(s, j)),
    decreases n,
{
    if j < n {
        lemma_holds_at_concat(b, p, enc_values(s, (n - 1) as nat), enc_value(s[n - 1]));
        lemma_enc_values_prefix(b, p, s, (n - 1) as nat, j);
    }
}

/// Decoding the encoding of a value gives the value back.
pub proof fn lemma_value_round_trip(b: Seq<u8>, p: int, v: ValueModel)
    requires
        value_fits(v),
        holds_at(b, p, enc_value(v)),
    ensures
        dec_value(b, p) == Some((v, p + enc_value(v).len())),
    decreases v, 0nat,
{
    let e = enc_value(v);
    match v {
        ValueModel::Null => {
            lemma_dec_u32(b, p, 0);
            assert(varint(0).len() == 1);
            assert(dec_u32(b, p) == Some((0u32, p + 1)));
        },
        ValueModel::Bool(x) => {
            lemma_holds_at_concat(b, p, varint(1), bool_byte(x));
            lemma_dec_u32(b, p, 1);
            assert(b.subrange(p + 1, p + 2)[0] == b[p + 1]);
        },
        ValueModel::I64(i) => {
            lemma_holds_at_concat(b, p, varint(2), varint(zigzag(i)));
            lemma_dec_u32(b, p, 2);
            lemma_dec_u64(b, p + 1, zigzag(i));
            lemma_zigzag(i);
        },
        ValueModel::F64(bits) => {
            lemma_holds_at_concat(b, p, varint(3), u64_le(bits));
            lemma_dec_u32(b, p, 3);
            lemma_read_u64(b, p + 1, bits);
        },
        ValueModel::Str(x) => {
            lemma_holds_at_concat(b, p, varint(4), str_bytes(x));
            lemma_dec_u32(b, p, 4);
            lemma_dec_str(b, p + 1, x);
        },
        ValueModel::Timestamp(t) => {
            lemma_holds_at_concat(b, p, varint(5), varint(zigzag(t)));
            lemma_dec_u32(b, p, 5);
            lemma_dec_u64(b, p + 1, zigzag(t));
            lemma_zigzag(t);
        },
        ValueModel::List(items) => {
            let n = items.len() as u64;
            let body = enc_values(items, items.len());
            assert(e == (varint(6) + varint(n)) + body);
            lemma_holds_at_concat(b, p, varint(6) + varint(n), body);
            lemma_holds_at_concat(b, p, varint(6), varint(n));
            lemma_dec_u32(b, p, 6);
            lemma_dec_u64(b, p + 1, n);
            let r = p + 1 + varint(n).len();
            assert(items.subrange(0, 0) =~= Seq::<ValueModel>::empty());
            lemma_list_round_trip(b, r, items, 0);
        },
    }
}

/// Decoding the encodings of the values of `s`, from the `k`-th on, after
/// the first `k` gives `s` back.
pub proof fn lemma_list_round_trip(b: Seq<u8>, start: int, s: Seq<ValueModel>, k: nat)
    requires
        s.len() <= u64::MAX,
        values_fit(s, s.len()),
        holds_at(b, start, enc_values(s, s.len())),
        k <= s.len(),
    ensures
        dec_list(b, start + enc_values(s, k).len(), (s.len() - k) as nat, s.subrange(0, k as int))
            == Some((s, start + enc_values(s, s.len()).len())),
    decreases s, s.len() - k + 1,
{
    let pos = start + enc_values(s, k).len();
    if k == s.len() {
        assert(s.subrange(0, k as int) =~= s);
    } else {
        lemma_enc_values_prefix(b, start, s, s.len(), k + 1);
        lemma_holds_at_concat(b, start, enc_values(s, k), enc_value(s[k as int]));
        lemma_values_fit(s, s.len(), k as int);
        assert(decreases_to!(s => s[k as int]));
        lemma_value_round_trip(b, pos, s[k as int]);
        assert(s.subrange(0, k as int).push(s[k as int]) =~= s.subrange(0, k + 1 as int));
        lemma_list_round_trip(b, start, s, k + 1);
    }
}

/// Appends the encoding of `v`.
#[verifier::loop_isolation(false)]
pub fn put_value(out: &mut Vec<u8>, v: &Value)
    ensures
        final(out)@ == old(out)@ + enc_value(v@),
        value_fits(v@),
    decreases v,
{
    match v {
        Value::Null => {
            put_varint(out, 0);
        },
        Value::Bool(x) => {
            put_varint(out, 1);
            put_bool(out, *x);
            assert(final(out)@ =~= old(out)@ + enc_value(v@));
        },
        Value::I64(i) => {
            put_varint(out, 2);
            put_i64(out, *i);
            assert(final(out)@ =~= old(out)@ + enc_value(v@));
        },
        Value::F64(bits) => {
            put_varint(out, 3);
            put_u64_le(out, *bits);
            assert(final(out)@ =~= old(out)@ + enc_value(v@));
        },
        Value::String(x) => {
            put_varint(out, 4);
            put_str(out, x.as_str());
            assert(final(out)@ =~= old(out)@ + enc_value(v@));
        },
        Value::Timestamp(t) => {
            put_varint(out, 5);
            put_i64(out, *t);
            assert(final(out)@ =~= old(out)@ + enc_value(v@));
        },
        Value::List(items) => {
            let ghost vs = values_view(items@);
            proof {
                lemma_values_view(items@);
            }
            put_varint(out, 6);
            put_varint(out, items.len() as u64);
            let ghost mid = out@;
            let mut i: usize = 0;
            while i < items.len()
                invariant
                    i <= items@.len(),
                    vs.len() == items@.len(),
                    out@ == mid + enc_values(vs, i as nat),
                    values_fit(vs, i as nat),
                decreases items@.len() - i,
            {
                proof {
                    assert(decreases_to!(v => items));
                    assert(decreases_to!(items => items@));
                    assert(decreases_to!(items@ => items@[i as int]));
                }
                put_value(out, &items[i]);
                proof {
                    assert(vs[i as int] == items@[i as int]@);
                    assert(enc_values(vs, (i + 1) as nat) == enc_values(vs, i as nat) + enc_value(
                        vs[i as int],
                    ));
                }
                i = i + 1;
            }
            assert(final(out)@ =~= old(out)@ + enc_value(v@));
        },
    }
}

/// Decodes a value at `p`.
#[verifier::loop_isolation(false)]
pub fn get_value(b: &[u8], p: usize) -> (r: Result<(Value, usize), DecodeError>)
    ensures
        r is Ok <==> dec_value(b@, p as int) is Some,
        r matches Ok((v, q)) ==> dec_value(b@, p as int) == Some((v@, q as int)) && p < q <= b@.len(),
    decreases b@.len() - p,
{
    if p >= b.len() {
        return Err(DecodeError::UnexpectedEnd);
    }
    let (tag, q) = get_u32(b, p)?;
    if tag == 0 {
        Ok((Value::Null, q))
    } else if tag == 1 {
        let (x, r) = get_bool(b, q)?;
        Ok((Value::Bool(x), r))
    } else if tag == 2 {
        let (x, r) = get_i64(b, q)?;
        Ok((Value::I64(x), r))
    } else if tag == 3 {
        let (x, r) = get_f64_bits(b, q)?;
        Ok((Value::F64(x), r))
    } else if tag == 4 {
        let (x, r) = get_str(b, q)?;
        Ok((Value::String(x), r))
    } else if tag == 5 {
        let (x, r) = get_i64(b, q)?;
        Ok((Value::Timestamp(x), r))
    } else if tag == 6 {
        let (n, r) = get_u64(b, q)?;
        let mut items: Vec<Value> = Vec::new();
        let mut cur = r;
        let mut i: u64 = 0;
        while i < n
            invariant
                p < r <= cur <= b@.len(),
                i <= n,
                dec_u32(b@, p as int) == Some((6u32, q as int)),
                dec_u64(b@, q as int) == Some((n, r as int)),
                dec_list(b@, r as int, n as nat, Seq::empty()) == dec_list(
                    b@,
                    cur as int,
                    (n - i) as nat,
                    values_view(items@),
                ),
            decreases n - i,
        {
            if cur >= b.len() {
                return Err(DecodeError::UnexpectedEnd);
            }
            let (v, next) = get_value(b, cur)?;
            proof {
                let s = items@.push(v);
                assert(s.drop_last() == items@);
                assert(values_view(s) == values_view(items@).push(v@));
            }
            items.push(v);
            cur = next;
            i = i + 1;
        }
        Ok((Value::List(items), cur))
    } else {
        Err(DecodeError::UnexpectedVariant)
    }
}

// ---------- property maps ----------

/// The encodings of the first `n` entries of a property map, one after
/// another: each key, then its value.
pub open spec fn enc_props(ps: Seq<(String, Value)>, n: nat) -> Seq<u8>
    decreases n,
{
    if n == 0 || n > ps.len() {
        Seq::empty()
    } else {
        enc_props(ps, (n - 1) as nat) + str_bytes(ps[n - 1].0@) + enc_value(ps[n - 1].1@)
    }
}

/// A property map: its entry count, then its entries in order.
pub open spec fn enc_props_map(m: Properties) -> Seq<u8> {
    varint(m.pairs().len() as u64) + enc_props(m.pairs(), m.pairs().len())
}

pub open spec fn props_fit(m: Properties) -> bool {
    &&& m.pairs().len() <= u64::MAX
    &&& forall|i: int|
        0 <= i < m.pairs().len() ==> str_fits((#[trigger] m.pairs()[i]).0@) && value_fits(
            m.pairs()[i].1@,
        )
}

/// Decodes `n` more entries at `p` into `acc`; a repeated key keeps the
/// later value.
pub open spec fn dec_props(b: Seq<u8>, p: int, n: nat, acc: PropsModel) -> Option<(PropsModel, int)>
    decreases n,
{
    if n == 0 {
        Some((acc, p))
    } else {
        match dec_str(b, p) {
            Some((k, q)) => match dec_value(b, q) {
                Some((v, r)) => dec_props(b, r, (n - 1) as nat, acc.insert(k, v)),
                None => None,
            },
            None => None,
        }
    }
}

pub open spec fn dec_props_map(b: Seq<u8>, p: int) -> Option<(PropsModel, int)> {
    match dec_u64(b, p) {
        Some((n, q)) => dec_props(b, q, n as nat, Map::empty()),
        None => None,
    }
}

pub proof fn lemma_enc_props_prefix(b: Seq<u8>, p: int, ps: Seq<(String, Value)>, n: nat, j: nat)
    requires
        holds_at(b, p, enc_props(ps, n)),
        j <= n <= ps.len(),
    ensures
        holds_at(b, p, enc_props(ps, j)),
    decreases n,
{
    if j < n {
        let k = n - 1;
        lemma_holds_at_concat(
            b,
            p,
            enc_props(ps, k as nat) + str_bytes(ps[k].0@),
            enc_value(ps[k].1@),
        );
        lemma_holds_at_concat(b, p, enc_props(ps, k as nat), str_bytes(ps[k].0@));
        lemma_enc_props_prefix(b, p, ps, k as nat, j);
    }
}

pub proof fn lemma_props_round_trip(b: Seq<u8>, start: int, m: Properties, k: nat)
    requires
        props_fit(m),
        holds_at(b, start, enc_props(m.pairs(), m.pairs().len())),
        k <= m.pairs().len(),
    ensures
        dec_props(
            b,
            start + enc_props(m.pairs(), k).len(),
            (m.pairs().len() - k) as nat,
            entries_map(m.pairs().subrange(0, k as int)),
        ) == Some((m@, start + enc_props(m.pairs(), m.pairs().len()).len())),
    decreases m.pairs().len() - k,
{
    let ps = m.pairs();
    let pos = start + enc_props(ps, k).len();
    m.lemma_pairs_view();
    if k == ps.len() {
        assert(ps.subrange(0, k as int) =~= ps);
    } else {
        lemma_enc_props_prefix(b, start, ps, ps.len(), k + 1);
        lemma_holds_at_concat(b, start, enc_props(ps, k) + str_bytes(ps[k as int].0@), enc_value(ps[k as int].1@));
        lemma_holds_at_concat(b, start, enc_props(ps, k), str_bytes(ps[k as int].0@));
        assert(str_fits(ps[k as int].0@));
        lemma_dec_str(b, pos, ps[k as int].0@);
        lemma_value_round_trip(b, pos + str_bytes(ps[k as int].0@).len(), ps[k as int].1@);
        let sub = ps.subrange(0, k + 1 as int);
        assert(sub.drop_last() =~= ps.subrange(0, k as int));
        assert(sub.last() == ps[k as int]);
        lemma_props_round_trip(b, start, m, k + 1);
    }
}

/// Decoding the encoding of a property map gives its model back.
pub proof fn lemma_props_map_round_trip(b: Seq<u8>, p: int, m: Properties)
    requires
        props_fit(m),
        holds_at(b, p, enc_props_map(m)),
    ensures
        dec_props_map(b, p) == Some((m@, p + enc_props_map(m).len())),
{
    let n = m.pairs().len() as u64;
    lemma_holds_at_concat(b, p, varint(n), enc_props(m.pairs(), m.pairs().len()));
    lemma_dec_u64(b, p, n);
    assert(m.pairs().subrange(0, 0) =~= Seq::<(String, Value)>::empty());
    lemma_props_round_trip(b, p + varint(n).len(), m, 0);
}

pub fn put_props(out: &mut Vec<u8>, m: &Properties)
    requires
        m.wf(),
    ensures
        final(out)@ == old(out)@ + enc_props_map(*m),
        props_fit(*m),
{
    let n = m.len();
    put_varint(out, n as u64);
    let ghost mid = out@;
    let mut i: usize = 0;
    while i < n
        invariant
            n == m.pairs().len(),
            i <= n,
            out@ == mid + enc_props(m.pairs(), i as nat),
            forall|j: int|
                0 <= j < i ==> str_fits((#[trigger] m.pairs()[j]).0@) && value_fits(
                    m.pairs()[j].1@,
                ),
        decreases n - i,
    {
        let (k, v) = m.entry(i);
        put_str(out, k.as_str());
        put_value(out, v);
        assert(out@ =~= mid + enc_props(m.pairs(), (i + 1) as nat));
        i = i + 1;
    }
    assert(final(out)@ =~= old(out)@ + enc_props_map(*m));
}

pub fn get_props(b: &[u8], p: usize) -> (r: Result<(Properties, usize), DecodeError>)
    ensures
        r is Ok <==> dec_props_map(b@, p as int) is Some,
        r matches Ok((m, q)) ==> dec_props_map(b@, p as int) == Some((m@, q as int)) && q <= b@.len()
            && m.wf(),
{
    let (n, q) = get_u64(b, p)?;
    let mut m: Properties = StrMap::new();
    let mut cur = q;
    let mut i: u64 = 0;
    while i < n
        invariant
            q <= cur <= b@.len(),
            i <= n,
            m.wf(),
            dec_u64(b@, p as int) == Some((n, q as int)),
            dec_props(b@, q as int, n as nat, Map::empty()) == dec_props(
                b@,
                cur as int,
                (n - i) as nat,
                m@,
            ),
        decreases n - i,
    {
        let (k, r) = get_str(b, cur)?;
        let (v, e) = get_value(b, r)?;
        m.insert(k, v);
        cur = e;
        i = i + 1;
    }
    Ok((m, cur))
}

// ---------- schemas ----------

pub open spec fn ptype_index(t: PropertyType) -> u32 {
    match t {
        PropertyType::Bool => 0,
        PropertyType::I64 => 1,
        PropertyType::F64 => 2,
        PropertyType::String => 3,
        PropertyType::Timestamp => 4,
        PropertyType::List => 5,
    }
}

pub open spec fn ptype_of_index(i: u32) -> Option<PropertyType> {
    if i == 0 {
        Some(PropertyType::Bool)
    } else if i == 1 {
        Some(PropertyType::I64)
    } else if i == 2 {
        Some(PropertyType::F64)
    } else if i == 3 {
        Some(PropertyType::String)
    } else if i == 4 {
        Some(PropertyType::Timestamp)
    } else if i == 5 {
        Some(PropertyType::List)
    } else {
        None
    }
}

pub open spec fn kind_index(k: TableKind) -> u32 {
    match k {
        TableKind::Node => 0,
        TableKind::Edge => 1,
    }
}

pub open spec fn kind_of_index(i: u32) -> Option<TableKind> {
    if i == 0 {
        Some(TableKind::Node)
    } else if i == 1 {
        Some(TableKind::Edge)
    } else {
        None
    }
}

pub open spec fn dec_ptype(b: Seq<u8>, p: int) -> Option<(PropertyType, int)> {
    match dec_u32(b, p) {
        Some((i, q)) => match ptype_of_index(i) {
            Some(t) => Some((t, q)),
            None => None,
        },
        None => None,
    }
}

pub open spec fn dec_kind(b: Seq<u8>, p: int) -> Option<(TableKind, int)> {
    match dec_u32(b, p) {
        Some((i, q)) => match kind_of_index(i) {
            Some(t) => Some((t, q)),
            None => None,
        },
        None => None,
    }
}

fn put_ptype(out: &mut Vec<u8>, t: PropertyType)
    ensures
        final(out)@ == old(out)@ + varint(ptype_index(t) as u64),
{
    let i: u64 = match t {
        PropertyType::Bool => 0,
        PropertyType::I64 => 1,
        PropertyType::F64 => 2,
        PropertyType::String => 3,
        PropertyType::Timestamp => 4,
        PropertyType::List => 5,
    };
    put_varint(out, i);
}

fn get_ptype(b: &[u8], p: usize) -> (r: Result<(PropertyType, usize), DecodeError>)
    ensures
        r is Ok <==> dec_ptype(b@, p as int) is Some,
        r matches Ok((t, q)) ==> dec_ptype(b@, p as int) == Some((t, q as int)) && q <= b@.len(),
{
    let (i, q) = get_u32(b, p)?;
    let t = if i == 0 {
        PropertyType::Bool
    } else if i == 1 {
        PropertyType::I64
    } else if i == 2 {
        PropertyType::F64
    } else if i == 3 {
        PropertyType::String
    } else if i == 4 {
        PropertyType::Timestamp
    } else if i == 5 {
        PropertyType::List
    } else {
        return Err(DecodeError::UnexpectedVariant);
    };
    Ok((t, q))
}

fn put_kind(out: &mut Vec<u8>, k: TableKind)
    ensures
        final(out)@ == old(out)@ + varint(kind_index(k) as u64),
{
    let i: u64 = match k {
        TableKind::Node => 0,
        TableKind::Edge => 1,
    };
    put_varint(out, i);
}

fn get_kind(b: &[u8], p: usize) -> (r: Result<(TableKind, usize), DecodeError>)
    ensures
        r is Ok <==> dec_kind(b@, p as int) is Some,
        r matches Ok((t, q)) ==> dec_kind(b@, p as int) == Some((t, q as int)) && q <= b@.len(),
{
    let (i, q) = get_u32(b, p)?;
    if i == 0 {
        Ok((TableKind::Node, q))
    } else if i == 1 {
        Ok((TableKind::Edge, q))
    } else {
        Err(DecodeError::UnexpectedVariant)
    }
}

pub open spec fn enc_ptypes(ps: Seq<(String, PropertyType)>, n: nat) -> Seq<u8>
    decreases n,
{
    if n == 0 || n > ps.len() {
        Seq::empty()
    } else {
        enc_ptypes(ps, (n - 1) as nat) + str_bytes(ps[n - 1].0@) + varint(
            ptype_index(ps[n - 1].1) as u64,
        )
    }
}

pub open spec fn enc_ptypes_map(m: StrMap<PropertyType>) -> Seq<u8> {
    varint(m.pairs().len() as u64) + enc_ptypes(m.pairs(), m.pairs().len())
}

pub open spec fn ptypes_fit(m: StrMap<PropertyType>) -> bool {
    &&& m.pairs().len() <= u64::MAX
    &&& forall|i: int| 0 <= i < m.pairs().len() ==> str_fits((#[trigger] m.pairs()[i]).0@)
}

pub open spec fn dec_ptypes(b: Seq<u8>, p: int, n: nat, acc: Map<Seq<char>, PropertyType>) -> Option<
    (Map<Seq<char>, PropertyType>, int),
>
    decreases n,
{
    if n == 0 {
        Some((acc, p))
    } else {
        match dec_str(b, p) {
            Some((k, q)) => match dec_ptype(b, q) {
                Some((v, r)) => dec_ptypes(b, r, (n - 1) as nat, acc.insert(k, v)),
                None => None,
            },
            None => None,
        }
    }
}

pub open spec fn dec_ptypes_map(b: Seq<u8>, p: int) -> Option<(Map<Seq<char>, PropertyType>, int)> {
    match dec_u64(b, p) {
        Some((n, q)) => dec_ptypes(b, q, n as nat, Map::empty()),
        None => None,
    }
}

pub proof fn lemma_ptypes_round_trip(b: Seq<u8>, start: int, m: StrMap<PropertyType>, k: nat)
    requires
        ptypes_fit(m),
        holds_at(b, start, enc_ptypes(m.pairs(), m.pairs().len())),
        k <= m.pairs().len(),
    ensures
        dec_ptypes(
            b,
            start + enc_ptypes(m.pairs(), k).len(),
            (m.pairs().len() - k) as nat,
            entries_map(m.pairs().subrange(0, k as int)),
        ) == Some((m@, start + enc_ptypes(m.pairs(), m.pairs().len()).len())),
    decreases m.pairs().len() - k,
{
    let ps = m.pairs();
    let pos = start + enc_ptypes(ps, k).len();
    m.lemma_pairs_view();
    if k == ps.len() {
        assert(ps.subrange(0, k as int) =~= ps);
    } else {
        lemma_enc_ptypes_prefix(b, start, ps, ps.len(), k + 1);
        let t = ps[k as int].1;
        lemma_holds_at_concat(b, start, enc_ptypes(ps, k) + str_bytes(ps[k as int].0@), varint(ptype_index(t) as u64));
        lemma_holds_at_concat(b, start, enc_ptypes(ps, k), str_bytes(ps[k as int].0@));
        lemma_dec_str(b, pos, ps[k as int].0@);
        lemma_dec_u32(b, pos + str_bytes(ps[k as int].0@).len(), ptype_index(t));
        let sub = ps.subrange(0, k + 1 as int);
        assert(sub.drop_last() =~= ps.subrange(0, k as int));
        assert(sub.last() == ps[k as int]);
        lemma_ptypes_round_trip(b, start, m, k + 1);
    }
}

pub proof fn lemma_enc_ptypes_prefix(b: Seq<u8>, p: int, ps: Seq<(String, PropertyType)>, n: nat, j: nat)
    requires
        holds_at(b, p, enc_ptypes(ps, n)),
        j <= n <= ps.len(),
    ensures
        holds_at(b, p, enc_ptypes(ps, j)),
    decreases n,
{
    if j < n {
        let k = n - 1;
        lemma_holds_at_concat(
            b,
            p,
            enc_ptypes(ps, k as nat) + str_bytes(ps[k].0@),
            varint(ptype_index(ps[k].1) as u64),
        );
        lemma_holds_at_concat(b, p, enc_ptypes(ps, k as nat), str_bytes(ps[k].0@));
        lemma_enc_ptypes_prefix(b, p, ps, k as nat, j);
    }
}

fn put_ptypes(out: &mut Vec<u8>, m: &StrMap<PropertyType>)
    requires
        m.wf(),
    ensures
        final(out)@ == old(out)@ + enc_ptypes_map(*m),
        ptypes_fit(*m),
{
    let n = m.len();
    put_varint(out, n as u64);
    let ghost mid = out@;
    let mut i: usize = 0;
    while i < n
        invariant
            n == m.pairs().len(),
            i <= n,
            out@ == mid + enc_ptypes(m.pairs(), i as nat),
            forall|j: int| 0 <= j < i ==> str_fits((#[trigger] m.pairs()[j]).0@),
        decreases n - i,
    {
        let (k, v) = m.entry(i);
        put_str(out, k.as_str());
        put_ptype(out, *v);
        assert(out@ =~= mid + enc_ptypes(m.pairs(), (i + 1) as nat));
        i = i + 1;
    }
    assert(final(out)@ =~= old(out)@ + enc_ptypes_map(*m));
}

fn get_ptypes(b: &[u8], p: usize) -> (r: Result<(StrMap<PropertyType>, usize), DecodeError>)
    ensures
        r is Ok <==> dec_ptypes_map(b@, p as int) is Some,
        r matches Ok((m, q)) ==> dec_ptypes_map(b@, p as int) == Some((m@, q as int)) && q
            <= b@.len() && m.wf(),
{
    let (n, q) = get_u64(b, p)?;
    let mut m: StrMap<PropertyType> = StrMap::new();
    let mut cur = q;
    let mut i: u64 = 0;
    while i < n
        invariant
            q <= cur <= b@.len(),
            i <= n,
            m.wf(),
            dec_u64(b@, p as int) == Some((n, q as int)),
            dec_ptypes(b@, q as int, n as nat, Map::empty()) == dec_ptypes(
                b@,
                cur as int,
                (n - i) as nat,
                m@,
            ),
        decreases n - i,
    {
        let (k, r) = get_str(b, cur)?;
        let (v, e) = get_ptype(b, r)?;
        m.insert(k, v);
        cur = e;
        i = i + 1;
    }
    Ok((m, cur))
}

pub open spec fn enc_table(t: TableSchema) -> Seq<u8> {
    str_bytes(t.label@) + varint(kind_index(t.kind) as u64) + enc_ptypes_map(t.properties)
}

pub open spec fn table_fits(t: TableSchema) -> bool {
    str_fits(t.label@) && ptypes_fit(t.properties)
}

pub open spec fn dec_table(b: Seq<u8>, p: int) -> Option<(TableModel, int)> {
    match dec_str(b, p) {
        Some((label, q)) => match dec_kind(b, q) {
            Some((kind, r)) => match dec_ptypes_map(b, r) {
                Some((properties, e)) => Some((TableModel { label, kind, properties }, e)),
                None => None,
            },
            None => None,
        },
        None => None,
    }
}

pub proof fn lemma_table_round_trip(b: Seq<u8>, p: int, t: TableSchema)
    requires
        table_fits(t),
        holds_at(b, p, enc_table(t)),
    ensures
        dec_table(b, p) == Some((t@, p + enc_table(t).len())),
{
    let a = str_bytes(t.label@);
    let k = varint(kind_index(t.kind) as u64);
    let m = enc_ptypes_map(t.properties);
    lemma_holds_at_concat(b, p, a + k, m);
    lemma_holds_at_concat(b, p, a, k);
    lemma_dec_str(b, p, t.label@);
    lemma_dec_u32(b, p + a.len(), kind_index(t.kind));
    let n = t.properties.pairs().len() as u64;
    let r = p + a.len() + k.len();
    lemma_holds_at_concat(b, r, varint(n), enc_ptypes(t.properties.pairs(), t.properties.pairs().len()));
    lemma_dec_u64(b, r, n);
    assert(t.properties.pairs().subrange(0, 0) =~= Seq::<(String, PropertyType)>::empty());
    lemma_ptypes_round_trip(b, r + varint(n).len(), t.properties, 0);
}

fn put_table(out: &mut Vec<u8>, t: &TableSchema)
    requires
        t.wf(),
    ensures
        final(out)@ == old(out)@ + enc_table(*t),
        table_fits(*t),
{
    put_str(out, t.label.as_str());
    put_kind(out, t.kind);
    put_ptypes(out, &t.properties);
    assert(final(out)@ =~= old(out)@ + enc_table(*t));
}

fn get_table(b: &[u8], p: usize) -> (r: Result<(TableSchema, usize), DecodeError>)
    ensures
        r is Ok <==> dec_table(b@, p as int) is Some,
        r matches Ok((t, q)) ==> dec_table(b@, p as int) == Some((t@, q as int)) && q <= b@.len()
            && t.wf(),
{
    let (label, q) = get_str(b, p)?;
    let (kind, r) = get_kind(b, q)?;
    let (properties, e) = get_ptypes(b, r)?;
    Ok((TableSchema { label, kind, properties }, e))
}

pub open spec fn enc_tables(ps: Seq<(String, TableSchema)>, n: nat) -> Seq<u8>
    decreases n,
{
    if n == 0 || n > ps.len() {
        Seq::empty()
    } else {
        enc_tables(ps, (n - 1) as nat) + str_bytes(ps[n - 1].0@) + enc_table(ps[n - 1].1)
    }
}

pub open spec fn enc_schema(s: Schema) -> Seq<u8> {
    varint(s.version) + varint(s.tables.pairs().len() as u64) + enc_tables(
        s.tables.pairs(),
        s.tables.pairs().len(),
    )
}

pub open spec fn schema_fits(s: Schema) -> bool {
    &&& s.tables.pairs().len() <= u64::MAX
    &&& forall|i: int|
        0 <= i < s.tables.pairs().len() ==> str_fits((#[trigger] s.tables.pairs()[i]).0@)
            && table_fits(s.tables.pairs()[i].1)
}

pub open spec fn dec_tables(b: Seq<u8>, p: int, n: nat, acc: Map<Seq<char>, TableModel>) -> Option<
    (Map<Seq<char>, TableModel>, int),
>
    decreases n,
{
    if n == 0 {
        Some((acc, p))
    } else {
        match dec_str(b, p) {
            Some((k, q)) => match dec_table(b, q) {
                Some((v, r)) => dec_tables(b, r, (n - 1) as nat, acc.insert(k, v)),
                None => None,
            },
            None => None,
        }
    }
}

pub open spec fn dec_schema(b: Seq<u8>, p: int) -> Option<(SchemaModel, int)> {
    match dec_u64(b, p) {
        Some((version, q)) => match dec_u64(b, q) {
            Some((n, r)) => match dec_tables(b, r, n as nat, Map::empty()) {
                Some((tables, e)) => Some((SchemaModel { version, tables }, e)),
                None => None,
            },
            None => None,
        },
        None => None,
    }
}

pub proof fn lemma_enc_tables_prefix(b: Seq<u8>, p: int, ps: Seq<(String, TableSchema)>, n: nat, j: nat)
    requires
        holds_at(b, p, enc_tables(ps, n)),
        j <= n <= ps.len(),
    ensures
        holds_at(b, p, enc_tables(ps, j)),
    decreases n,
{
    if j < n {
        let k = n - 1;
        lemma_holds_at_concat(b, p, enc_tables(ps, k as nat) + str_bytes(ps[k].0@), enc_table(ps[k].1));
        lemma_holds_at_concat(b, p, enc_tables(ps, k as nat), str_bytes(ps[k].0@));
        lemma_enc_tables_prefix(b, p, ps, k as nat, j);
    }
}

pub proof fn lemma_tables_round_trip(b: Seq<u8>, start: int, s: Schema, k: nat)
    requires
        schema_fits(s),
        holds_at(b, start, enc_tables(s.tables.pairs(), s.tables.pairs().len())),
        k <= s.tables.pairs().len(),
    ensures
        dec_tables(
            b,
            start + enc_tables(s.tables.pairs(), k).len(),
            (s.tables.pairs().len() - k) as nat,
            entries_map(s.tables.pairs().subrange(0, k as int)),
        ) == Some((s.tables@, start + enc_tables(s.tables.pairs(), s.tables.pairs().len()).len())),
    decreases s.tables.pairs().len() - k,
{
    let ps = s.tables.pairs();
    let pos = start + enc_tables(ps, k).len();
    s.tables.lemma_pairs_view();
    if k == ps.len() {
        assert(ps.subrange(0, k as int) =~= ps);
    } else {
        lemma_enc_tables_prefix(b, start, ps, ps.len(), k + 1);
        lemma_holds_at_concat(b, start, enc_tables(ps, k) + str_bytes(ps[k as int].0@), enc_table(ps[k as int].1));
        lemma_holds_at_concat(b, start, enc_tables(ps, k), str_bytes(ps[k as int].0@));
        assert(str_fits(ps[k as int].0@) && table_fits(ps[k as int].1));
        lemma_dec_str(b, pos, ps[k as int].0@);
        lemma_table_round_trip(b, pos + str_bytes(ps[k as int].0@).len(), ps[k as int].1);
        let sub = ps.subrange(0, k + 1 as int);
        assert(sub.drop_last() =~= ps.subrange(0, k as int));
        assert(sub.last() == ps[k as int]);
        lemma_tables_round_trip(b, start, s, k + 1);
    }
}

/// Decoding the encoding of a schema gives its model back.
pub proof fn lemma_schema_round_trip(b: Seq<u8>, p: int, s: Schema)
    requires
        schema_fits(s),
        holds_at(b, p, enc_schema(s)),
    ensures
        dec_schema(b, p) == Some((s@, p + enc_schema(s).len())),
{
    let n = s.tables.pairs().len() as u64;
    let body = enc_tables(s.tables.pairs(), s.tables.pairs().len());
    lemma_holds_at_concat(b, p, varint(s.version) + varint(n), body);
    lemma_holds_at_concat(b, p, varint(s.version), varint(n));
    lemma_dec_u64(b, p, s.version);
    lemma_dec_u64(b, p + varint(s.version).len(), n);
    assert(s.tables.pairs().subrange(0, 0) =~= Seq::<(String, TableSchema)>::empty());
    lemma_tables_round_trip(b, p + varint(s.version).len() + varint(n).len(), s, 0);
}

pub fn put_schema(out: &mut Vec<u8>, s: &Schema)
    requires
        s.wf(),
    ensures
        final(out)@ == old(out)@ + enc_schema(*s),
        schema_fits(*s),
{
    put_varint(out, s.version);
    let n = s.tables.len();
    put_varint(out, n as u64);
    let ghost mid = out@;
    let mut i: usize = 0;
    while i < n
        invariant
            s.wf(),
            n == s.tables.pairs().len(),
            i <= n,
            out@ == mid + enc_tables(s.tables.pairs(), i as nat),
            forall|j: int|
                0 <= j < i ==> str_fits((#[trigger] s.tables.pairs()[j]).0@) && table_fits(
                    s.tables.pairs()[j].1,
                ),
        decreases n - i,
    {
        let (k, t) = s.tables.entry(i);
        assert(s.tables.pairs()[i as int].1.wf());
        put_str(out, k.as_str());
        put_table(out, t);
        assert(out@ =~= mid + enc_tables(s.tables.pairs(), (i + 1) as nat));
        i = i + 1;
    }
    assert(final(out)@ =~= old(out)@ + enc_schema(*s));
}

pub fn get_schema(b: &[u8], p: usize) -> (r: Result<(Schema, usize), DecodeError>)
    ensures
        r is Ok <==> dec_schema(b@, p as int) is Some,
        r matches Ok((s, q)) ==> dec_schema(b@, p as int) == Some((s@, q as int)) && q <= b@.len()
            && s.wf(),
{
    let (version, q0) = get_u64(b, p)?;
    let (n, q) = get_u64(b, q0)?;
    let mut m: StrMap<TableSchema> = StrMap::new();
    let mut cur = q;
    let mut i: u64 = 0;
    while i < n
        invariant
            cur <= b@.len(),
            i <= n,
            m.wf(),
            forall|j: int| 0 <= j < m.pairs().len() ==> (#[trigger] m.pairs()[j]).1.wf(),
            dec_u64(b@, p as int) == Some((version, q0 as int)),
            dec_u64(b@, q0 as int) == Some((n, q as int)),
            dec_tables(b@, q as int, n as nat, Map::empty()) == dec_tables(
                b@,
                cur as int,
                (n - i) as nat,
                m@,
            ),
        decreases n - i,
    {
        let (k, r) = get_str(b, cur)?;
        let (v, e) = get_table(b, r)?;
        let ghost old_m = m;
        let ghost vv = v;
        m.insert(k, v);
        assert forall|j: int| 0 <= j < m.pairs().len() implies (#[trigger] m.pairs()[j]).1.wf() by {
            if j < old_m.pairs().len() && m.pairs()[j] == old_m.pairs()[j] {
            } else {
                assert(m.pairs()[j].1 == vv);
            }
        }
        cur = e;
        i = i + 1;
    }
    Ok((Schema { version, tables: m }, cur))
}

// ---------- nodes, edges and mutations ----------

pub open spec fn enc_node(n: Node) -> Seq<u8> {
    str_bytes(n.id@) + str_bytes(n.label@) + enc_props_map(n.properties)
}

pub open spec fn node_fits(n: Node) -> bool {
    str_fits(n.id@) && str_fits(n.label@) && props_fit(n.properties)
}

pub open spec fn dec_node(b: Seq<u8>, p: int) -> Option<(NodeModel, int)> {
    match dec_str(b, p) {
        Some((id, q)) => match dec_str(b, q) {
            Some((label, r)) => match dec_props_map(b, r) {
                Some((properties, e)) => Some((NodeModel { id, label, properties }, e)),
                None => None,
            },
            None => None,
        },
        None => None,
    }
}

pub open spec fn enc_edge(e: Edge) -> Seq<u8> {
    str_bytes(e.id@) + str_bytes(e.label@) + str_bytes(e.from@) + str_bytes(e.to@)
        + enc_props_map(e.properties)
}

pub open spec fn edge_fits(e: Edge) -> bool {
    str_fits(e.id@) && str_fits(e.label@) && str_fits(e.from@) && str_fits(e.to@) && props_fit(
        e.properties,
    )
}

pub open spec fn dec_edge(b: Seq<u8>, p: int) -> Option<(EdgeModel, int)> {
    match dec_str(b, p) {
        Some((id, q1)) => match dec_str(b, q1) {
            Some((label, q2)) => match dec_str(b, q2) {
                Some((from, q3)) => match dec_str(b, q3) {
                    Some((to, q4)) => match dec_props_map(b, q4) {
                        Some((properties, e)) => Some(
                            (EdgeModel { id, label, from, to, properties }, e),
                        ),
                        None => None,
                    },
                    None => None,
                },
                None => None,
            },
            None => None,
        },
        None => None,
    }
}

pub proof fn lemma_node_round_trip(b: Seq<u8>, p: int, n: Node)
    requires
        node_fits(n),
        holds_at(b, p, enc_node(n)),
    ensures
        dec_node(b, p) == Some((n@, p + enc_node(n).len())),
{
    let a = str_bytes(n.id@);
    let l = str_bytes(n.label@);
    lemma_holds_at_concat(b, p, a + l, enc_props_map(n.properties));
    lemma_holds_at_concat(b, p, a, l);
    lemma_dec_str(b, p, n.id@);
    lemma_dec_str(b, p + a.len(), n.label@);
    lemma_props_map_round_trip(b, p + a.len() + l.len(), n.properties);
}

pub proof fn lemma_edge_round_trip(b: Seq<u8>, p: int, e: Edge)
    requires
        edge_fits(e),
        holds_at(b, p, enc_edge(e)),
    ensures
        dec_edge(b, p) == Some((e@, p + enc_edge(e).len())),
{
    let a = str_bytes(e.id@);
    let l = str_bytes(e.label@);
    let f = str_bytes(e.from@);
    let t = str_bytes(e.to@);
    lemma_holds_at_concat(b, p, a + l + f + t, enc_props_map(e.properties));
    lemma_holds_at_concat(b, p, a + l + f, t);
    lemma_holds_at_concat(b, p, a + l, f);
    lemma_holds_at_concat(b, p, a, l);
    lemma_dec_str(b, p, e.id@);
    lemma_dec_str(b, p + a.len(), e.label@);
    lemma_dec_str(b, p + a.len() + l.len(), e.from@);
    lemma_dec_str(b, p + a.len() + l.len() + f.len(), e.to@);
    lemma_props_map_round_trip(b, p + a.len() + l.len() + f.len() + t.len(), e.properties);
}

pub fn put_node(out: &mut Vec<u8>, n: &Node)
    requires
        n.wf(),
    ensures
        final(out)@ == old(out)@ + enc_node(*n),
        node_fits(*n),
{
    put_str(out, n.id.as_str());
    put_str(out, n.label.as_str());
    put_props(out, &n.properties);
    assert(final(out)@ =~= old(out)@ + enc_node(*n));
}

pub fn get_node(b: &[u8], p: usize) -> (r: Result<(Node, usize), DecodeError>)
    ensures
        r is Ok <==> dec_node(b@, p as int) is Some,
        r matches Ok((n, q)) ==> dec_node(b@, p as int) == Some((n@, q as int)) && q <= b@.len()
            && n.wf(),
{
    let (id, q) = get_str(b, p)?;
    let (label, r) = get_str(b, q)?;
    let (properties, e) = get_props(b, r)?;
    Ok((Node { id, label, properties }, e))
}

pub fn put_edge(out: &mut Vec<u8>, e: &Edge)
    requires
        e.wf(),
    ensures
        final(out)@ == old(out)@ + enc_edge(*e),
        edge_fits(*e),
{
    put_str(out, e.id.as_str());
    put_str(out, e.label.as_str());
    put_str(out, e.from.as_str());
    put_str(out, e.to.as_str());
    put_props(out, &e.properties);
    assert(final(out)@ =~= old(out)@ + enc_edge(*e));
}

pub fn get_edge(b: &[u8], p: usize) -> (r: Result<(Edge, usize), DecodeError>)
    ensures
        r is Ok <==> dec_edge(b@, p as int) is Some,
        r matches Ok((x, q)) ==> dec_edge(b@, p as int) == Some((x@, q as int)) && q <= b@.len()
            && x.wf(),
{
    let (id, q1) = get_str(b, p)?;
    let (label, q2) = get_str(b, q1)?;
    let (from, q3) = get_str(b, q2)?;
    let (to, q4) = get_str(b, q3)?;
    let (properties, e) = get_props(b, q4)?;
    Ok((Edge { id, label, from, to, properties }, e))
}

pub open spec fn enc_op(op: MutationOp) -> Seq<u8> {
    match op {
        MutationOp::NodeInsert(n) => varint(0) + enc_node(n),
        MutationOp::EdgeInsert(e) => varint(1) + enc_edge(e),
        MutationOp::NodeDelete(id) => varint(2) + str_bytes(id@),
        MutationOp::EdgeDelete(id) => varint(3) + str_bytes(id@),
        MutationOp::SchemaApply(s) => varint(4) + enc_schema(s),
    }
}

pub open spec fn op_fits(op: MutationOp) -> bool {
    match op {
        MutationOp::NodeInsert(n) => node_fits(n),
        MutationOp::EdgeInsert(e) => edge_fits(e),
        MutationOp::NodeDelete(id) => str_fits(id@),
        MutationOp::EdgeDelete(id) => str_fits(id@),
        MutationOp::SchemaApply(s) => schema_fits(s),
    }
}

pub open spec fn dec_op(b: Seq<u8>, p: int) -> Option<(OpModel, int)> {
    match dec_u32(b, p) {
        Some((tag, q)) => if tag == 0 {
            match dec_node(b, q) {
                Some((n, r)) => Some((OpModel::NodeInsert(n), r)),
                None => None,
            }
        } else if tag == 1 {
            match dec_edge(b, q) {
                Some((e, r)) => Some((OpModel::EdgeInsert(e), r)),
                None => None,
            }
        } else if tag == 2 {
            match dec_str(b, q) {
                Some((id, r)) => Some((OpModel::NodeDelete(id), r)),
                None => None,
            }
        } else if tag == 3 {
            match dec_str(b, q) {
                Some((id, r)) => Some((OpModel::EdgeDelete(id), r)),
                None => None,
            }
        } else if tag == 4 {
            match dec_schema(b, q) {
                Some((s, r)) => Some((OpModel::SchemaApply(s), r)),
                None => None,
            }
        } else {
            None
        },
        None => None,
    }
}

/// The payload of a record: the sequence number, the actor's user and
/// device ids, the foreshadow flag, then the operation.
#[verifier::opaque]
pub open spec fn enc_mutation(m: Mutation) -> Seq<u8> {
    varint(m.local_seq) + str_bytes(m.actor.user_id@) + str_bytes(m.actor.device_id@) + bool_byte(
        m.foreshadow,
    ) + enc_op(m.op)
}

#[verifier::opaque]
pub open spec fn mutation_fits(m: Mutation) -> bool {
    str_fits(m.actor.user_id@) && str_fits(m.actor.device_id@) && op_fits(m.op)
}

#[verifier::opaque]
pub open spec fn dec_mutation(b: Seq<u8>, p: int) -> Option<(MutationModel, int)> {
    match dec_u64(b, p) {
        Some((local_seq, q1)) => match dec_str(b, q1) {
            Some((user_id, q2)) => match dec_str(b, q2) {
                Some((device_id, q3)) => match dec_bool(b, q3) {
                    Some((foreshadow, q4)) => match dec_op(b, q4) {
                        Some((op, e)) => Some(
                            (MutationModel { local_seq, user_id, device_id, foreshadow, op }, e),
                        ),
                        None => None,
                    },
                    None => None,
                },
                None => None,
            },
            None => None,
        },
        None => None,
    }
}

#[verifier::rlimit(40)]
pub proof fn lemma_op_round_trip(b: Seq<u8>, p: int, op: MutationOp)
    requires
        op_fits(op),
        holds_at(b, p, enc_op(op)),
    ensures
        dec_op(b, p) == Some((op@, p + enc_op(op).len())),
{
    match op {
        MutationOp::NodeInsert(n) => {
            lemma_holds_at_concat(b, p, varint(0), enc_node(n));
            lemma_dec_u32(b, p, 0);
            lemma_node_round_trip(b, p + 1, n);
        },
        MutationOp::EdgeInsert(e) => {
            lemma_holds_at_concat(b, p, varint(1), enc_edge(e));
            lemma_dec_u32(b, p, 1);
            lemma_edge_round_trip(b, p + 1, e);
        },
        MutationOp::NodeDelete(id) => {
            lemma_holds_at_concat(b, p, varint(2), str_bytes(id@));
            lemma_dec_u32(b, p, 2);
            lemma_dec_str(b, p + 1, id@);
        },
        MutationOp::EdgeDelete(id) => {
            lemma_holds_at_concat(b, p, varint(3), str_bytes(id@));
            lemma_dec_u32(b, p, 3);
            lemma_dec_str(b, p + 1, id@);
        },
        MutationOp::SchemaApply(s) => {
            lemma_holds_at_concat(b, p, varint(4), enc_schema(s));
            lemma_dec_u32(b, p, 4);
            lemma_schema_round_trip(b, p + 1, s);
        },
    }
}

/// Decoding the payload of a mutation gives the mutation's model back.
pub proof fn lemma_mutation_round_trip(b: Seq<u8>, p: int, m: Mutation)
    requires
        mutation_fits(m),
        holds_at(b, p, enc_mutation(m)),
    ensures
        dec_mutation(b, p) == Some((m@, p + enc_mutation(m).len())),
{
    reveal(enc_mutation);
    reveal(dec_mutation);
    reveal(mutation_fits);
    let a = varint(m.local_seq);
    let u = str_bytes(m.actor.user_id@);
    let d = str_bytes(m.actor.device_id@);
    let f = bool_byte(m.foreshadow);
    lemma_holds_at_concat(b, p, a + u + d + f, enc_op(m.op));
    lemma_holds_at_concat(b, p, a + u + d, f);
    lemma_holds_at_concat(b, p, a + u, d);
    lemma_holds_at_concat(b, p, a, u);
    lemma_dec_u64(b, p, m.local_seq);
    lemma_dec_str(b, p + a.len(), m.actor.user_id@);
    lemma_dec_str(b, p + a.len() + u.len(), m.actor.device_id@);
    let q3 = p + a.len() + u.len() + d.len();
    assert(b.subrange(q3, q3 + 1)[0] == b[q3]);
    lemma_op_round_trip(b, q3 + 1, m.op);
}

pub fn put_op(out: &mut Vec<u8>, op: &MutationOp)
    requires
        op.wf(),
    ensures
        final(out)@ == old(out)@ + enc_op(*op),
        op_fits(*op),
{
    match op {
        MutationOp::NodeInsert(n) => {
            put_varint(out, 0);
            put_node(out, n);
        },
        MutationOp::EdgeInsert(e) => {
            put_varint(out, 1);
            put_edge(out, e);
        },
        MutationOp::NodeDelete(id) => {
            put_varint(out, 2);
            put_str(out, id.as_str());
        },
        MutationOp::EdgeDelete(id) => {
            put_varint(out, 3);
            put_str(out, id.as_str());
        },
        MutationOp::SchemaApply(s) => {
            put_varint(out, 4);
            put_schema(out, s);
        },
    }
    assert(final(out)@ =~= old(out)@ + enc_op(*op));
}

pub fn get_op(b: &[u8], p: usize) -> (r: Result<(MutationOp, usize), DecodeError>)
    ensures
        r is Ok <==> dec_op(b@, p as int) is Some,
        r matches Ok((op, q)) ==> dec_op(b@, p as int) == Some((op@, q as int)) && q <= b@.len()
            && op.wf(),
{
    let (tag, q) = get_u32(b, p)?;
    if tag == 0 {
        let (n, r) = get_node(b, q)?;
        Ok((MutationOp::NodeInsert(n), r))
    } else if tag == 1 {
        let (e, r) = get_edge(b, q)?;
        Ok((MutationOp::EdgeInsert(e), r))
    } else if tag == 2 {
        let (id, r) = get_str(b, q)?;
        Ok((MutationOp::NodeDelete(id), r))
    } else if tag == 3 {
        let (id, r) = get_str(b, q)?;
        Ok((MutationOp::EdgeDelete(id), r))
    } else if tag == 4 {
        let (s, r) = get_schema(b, q)?;
        Ok((MutationOp::SchemaApply(s), r))
    } else {
        Err(DecodeError::UnexpectedVariant)
    }
}

pub fn put_mutation(out: &mut Vec<u8>, m: &Mutation)
    requires
        m.wf(),
    ensures
        final(out)@ == old(out)@ + enc_mutation(*m),
        mutation_fits(*m),
{
    put_varint(out, m.local_seq);
    put_str(out, m.actor.user_id.as_str());
    put_str(out, m.actor.device_id.as_str());
    put_bool(out, m.foreshadow);
    put_op(out, &m.op);
    proof {
        reveal(enc_mutation);
        reveal(mutation_fits);
    }
    assert(final(out)@ =~= old(out)@ + enc_mutation(*m));
}

pub fn get_mutation(b: &[u8], p: usize) -> (r: Result<(Mutation, usize), DecodeError>)
    ensures
        r is Ok <==> dec_mutation(b@, p as int) is Some,
        r matches Ok((m, q)) ==> dec_mutation(b@, p as int) == Some((m@, q as int)) && q
            <= b@.len() && m.wf(),
{
    proof {
        reveal(dec_mutation);
    }
    let (local_seq, q1) = get_u64(b, p)?;
    let (user_id, q2) = get_str(b, q1)?;
    let (device_id, q3) = get_str(b, q2)?;
    let (foreshadow, q4) = get_bool(b, q3)?;
    let (op, e) = get_op(b, q4)?;
    Ok((Mutation { local_seq, actor: ActorId { user_id, device_id }, foreshadow, op }, e))
}

// ---------- framing ----------

/// Length of the little-endian payload-length prefix of a record.
pub const LEN_PREFIX_BYTES: usize = 4;

/// Why a record could not be framed or unframed.
#[derive(Debug)]
pub enum RecordError {
    /// The payload is longer than a 4-byte length can say.
    LengthOverflow(usize),
    /// The bytes are not a whole, well-formed record.
    Decode(DecodeError),
}

/// A record: the payload's length as 4 little-endian bytes, then the
/// payload.
pub open spec fn frame(payload: Seq<u8>) -> Seq<u8> {
    u32_le(payload.len() as u32) + payload
}

/// What [`decode_framed`] makes of `b`: `None` for an error, `Some(None)`
/// for empty input, else the mutation of the first record and the
/// record's length. Bytes after the record, and payload bytes after the
/// mutation, are not read.
pub open spec fn unframe(b: Seq<u8>) -> Option<Option<(MutationModel, int)>> {
    if b.len() == 0 {
        Some(None)
    } else if b.len() < 4 {
        None
    } else {
        let n = read_u32(b, 0) as int;
        if b.len() < 4 + n {
            None
        } else {
            match dec_mutation(b.subrange(4, 4 + n), 0) {
                Some((m, _)) => Some(Some((m, 4 + n))),
                None => None,
            }
        }
    }
}

/// Encodes `m` as a record ready to append.
pub fn encode_framed(m: &Mutation) -> (r: Result<Vec<u8>, RecordError>)
    requires
        m.wf(),
    ensures
        mutation_fits(*m),
        enc_mutation(*m).len() <= u32::MAX ==> (r matches Ok(v) && v@ == frame(enc_mutation(*m))),
        enc_mutation(*m).len() > u32::MAX ==> (r matches Err(RecordError::LengthOverflow(n)) && n
            == enc_mutation(*m).len()),
{
    let mut payload: Vec<u8> = Vec::new();
    put_mutation(&mut payload, m);
    assert(payload@ =~= enc_mutation(*m));
    let n = payload.len();
    if n > 0xffff_ffff {
        return Err(RecordError::LengthOverflow(n));
    }
    let mut out: Vec<u8> = Vec::new();
    put_u32_le(&mut out, n as u32);
    let mut i: usize = 0;
    while i < n
        invariant
            n == payload@.len(),
            i <= n,
            out@ == u32_le(n as u32) + payload@.subrange(0, i as int),
        decreases n - i,
    {
        out.push(payload[i]);
        assert(payload@.subrange(0, i + 1 as int) =~= payload@.subrange(0, i as int).push(payload@[i as int]));
        i = i + 1;
    }
    assert(payload@.subrange(0, n as int) =~= payload@);
    Ok(out)
}

/// Decodes the record at the start of `bytes`: `Ok(None)` on empty
/// input, else the mutation and the record's length. A short length
/// prefix, a short payload or a payload that is not a mutation is a
/// `Decode` error.
pub fn decode_framed(bytes: &[u8]) -> (r: Result<Option<(Mutation, usize)>, RecordError>)
    ensures
        r is Ok <==> unframe(bytes@) is Some,
        r matches Ok(None) ==> unframe(bytes@) == Some(None::<(MutationModel, int)>),
        r matches Ok(Some((m, n))) ==> unframe(bytes@) == Some(Some((m@, n as int))) && m.wf(),
        r matches Err(e) ==> e is Decode,
{
    if bytes.len() == 0 {
        return Ok(None);
    }
    if bytes.len() < LEN_PREFIX_BYTES {
        return Err(RecordError::Decode(DecodeError::UnexpectedEnd));
    }
    let n = get_u32_le(bytes, 0) as usize;
    if bytes.len() - LEN_PREFIX_BYTES < n {
        return Err(RecordError::Decode(DecodeError::UnexpectedEnd));
    }
    let total = LEN_PREFIX_BYTES + n;
    let payload = vstd::slice::slice_subrange(bytes, LEN_PREFIX_BYTES, total);
    match get_mutation(payload, 0) {
        Ok((m, _)) => Ok(Some((m, total))),
        Err(e) => Err(RecordError::Decode(e)),
    }
}

/// Unframing a record, whatever follows it, gives back the mutation that
/// was framed and the record's length.
pub proof fn lemma_framed_round_trip(m: Mutation, rest: Seq<u8>)
    requires
        mutation_fits(m),
        enc_mutation(m).len() <= u32::MAX,
    ensures
        unframe(frame(enc_mutation(m)) + rest) == Some(
            Some((m@, frame(enc_mutation(m)).len() as int)),
        ),
        read_u32(frame(enc_mutation(m)), 0) == enc_mutation(m).len(),
        dec_mutation(
            frame(enc_mutation(m)).subrange(4, frame(enc_mutation(m)).len() as int),
            0,
        ) == Some((m@, enc_mutation(m).len() as int)),
{
    let e = enc_mutation(m);
    let b = frame(e) + rest;
    let n = e.len() as u32;
    assert(holds_at(b, 0, u32_le(n))) by {
        assert(b.subrange(0, 4) =~= u32_le(n));
    }
    lemma_read_u32(b, 0, n);
    let payload = b.subrange(4, 4 + n as int);
    assert(payload =~= e);
    assert(holds_at(payload, 0, e)) by {
        assert(payload.subrange(0, e.len() as int) =~= e);
    }
    lemma_mutation_round_trip(payload, 0, m);
    let f = frame(e);
    assert(holds_at(f, 0, u32_le(n))) by {
        assert(f.subrange(0, 4) =~= u32_le(n));
    }
    lemma_read_u32(f, 0, n);
    assert(f.subrange(4, f.len() as int) =~= e);
}

} // verus!
