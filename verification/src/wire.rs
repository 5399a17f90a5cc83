//! Primitive encodings of the record format: little-endian fixed-width
//! integers, the variable-length integer scheme (one byte up to 250, else
//! a marker 251/252/253 followed by 2/4/8 little-endian bytes), zig-zag
//! signed integers, booleans as one byte, and strings as a length followed
//! by their UTF-8 bytes. Each encoder appends to a buffer; each decoder
//! reads at a position and returns the value with the next position.

use vstd::prelude::*;
use vstd::utf8::*;
use crate::text::utf8_str;

verus! {

broadcast use vstd::utf8::group_utf8_lib;

/// Why a byte string failed to decode.
#[derive(Debug, Clone, Copy, PartialEq, Eq, Structural)]
pub enum DecodeError {
    /// Input ended early.
    UnexpectedEnd,
    /// An integer marker byte that the target width does not accept.
    InvalidIntegerType,
    /// A boolean byte other than 0 or 1.
    InvalidBooleanValue,
    /// An enum discriminant out of range.
    UnexpectedVariant,
    /// String bytes that are not UTF-8.
    Utf8,
    /// A length that does not fit in memory.
    LengthOverflow,
}

// ---------- fixed-width little endian ----------

pub open spec fn u16_le(v: u16) -> Seq<u8> {
    seq![v as u8, (v >> 8u16) as u8]
}

pub open spec fn u32_le(v: u32) -> Seq<u8> {
    seq![v as u8, (v >> 8u32) as u8, (v >> 16u32) as u8, (v >> 24u32) as u8]
}

pub open spec fn u64_le(v: u64) -> Seq<u8> {
    seq![
        v as u8,
        (v >> 8u64) as u8,
        (v >> 16u64) as u8,
        (v >> 24u64) as u8,
        (v >> 32u64) as u8,
        (v >> 40u64) as u8,
        (v >> 48u64) as u8,
        (v >> 56u64) as u8,
    ]
}

pub open spec fn read_u16(b: Seq<u8>, p: int) -> u16 {
    (b[p] as u16) | ((b[p + 1] as u16) << 8u16)
}

pub open spec fn read_u32(b: Seq<u8>, p: int) -> u32 {
    (b[p] as u32) | ((b[p + 1] as u32) << 8u32) | ((b[p + 2] as u32) << 16u32) | ((b[p + 3] as u32)
        << 24u32)
}

pub open spec fn read_u64(b: Seq<u8>, p: int) -> u64 {
    (b[p] as u64) | ((b[p + 1] as u64) << 8u64) | ((b[p + 2] as u64) << 16u64) | ((b[p + 3] as u64)
        << 24u64) | ((b[p + 4] as u64) << 32u64) | ((b[p + 5] as u64) << 40u64) | ((b[p + 6] as u64)
        << 48u64) | ((b[p + 7] as u64) << 56u64)
}

proof fn lemma_u16_bits(v: u16)
    ensures
        ((v as u8) as u16) | ((((v >> 8u16) as u8) as u16) << 8u16) == v,
{
    assert(((v as u8) as u16) | ((((v >> 8u16) as u8) as u16) << 8u16) == v) by (bit_vector);
}

proof fn lemma_u32_bits(v: u32)
    ensures
        ((v as u8) as u32) | ((((v >> 8u32) as u8) as u32) << 8u32) | ((((v >> 16u32) as u8) as u32)
            << 16u32) | ((((v >> 24u32) as u8) as u32) << 24u32) == v,
{
    assert(((v as u8) as u32) | ((((v >> 8u32) as u8) as u32) << 8u32) | ((((v >> 16u32) as u8) as u32)
        << 16u32) | ((((v >> 24u32) as u8) as u32) << 24u32) == v) by (bit_vector);
}

proof fn lemma_u64_bits(v: u64)
    ensures
        ((v as u8) as u64) | ((((v >> 8u64) as u8) as u64) << 8u64) | ((((v >> 16u64) as u8) as u64)
            << 16u64) | ((((v >> 24u64) as u8) as u64) << 24u64) | ((((v >> 32u64) as u8) as u64)
            << 32u64) | ((((v >> 40u64) as u8) as u64) << 40u64) | ((((v >> 48u64) as u8) as u64)
            << 48u64) | ((((v >> 56u64) as u8) as u64) << 56u64) == v,
{
    assert(((v as u8) as u64) | ((((v >> 8u64) as u8) as u64) << 8u64) | ((((v >> 16u64) as u8) as u64)
        << 16u64) | ((((v >> 24u64) as u8) as u64) << 24u64) | ((((v >> 32u64) as u8) as u64)
        << 32u64) | ((((v >> 40u64) as u8) as u64) << 40u64) | ((((v >> 48u64) as u8) as u64)
        << 48u64) | ((((v >> 56u64) as u8) as u64) << 56u64) == v) by (bit_vector);
}

/// `b` holds `e` at position `p`.
pub open spec fn holds_at(b: Seq<u8>, p: int, e: Seq<u8>) -> bool {
    0 <= p && p + e.len() <= b.len() && b.subrange(p, p + e.len()) == e
}

pub proof fn lemma_holds_at_concat(b: Seq<u8>, p: int, e1: Seq<u8>, e2: Seq<u8>)
    requires
        holds_at(b, p, e1 + e2),
    ensures
        holds_at(b, p, e1),
        holds_at(b, p + e1.len(), e2),
{
    let e = e1 + e2;
    assert forall|i: int| 0 <= i < e1.len() implies b.subrange(p, p + e1.len())[i] == e1[i] by {
        assert(b.subrange(p, p + e.len())[i] == e[i]);
    }
    assert(b.subrange(p, p + e1.len()) =~= e1);
    assert forall|i: int| 0 <= i < e2.len() implies b.subrange(
        p + e1.len(),
        p + e1.len() + e2.len(),
    )[i] == e2[i] by {
        assert(b.subrange(p, p + e.len())[e1.len() + i] == e[e1.len() + i]);
    }
    assert(b.subrange(p + e1.len(), p + e1.len() + e2.len()) =~= e2);
}

pub proof fn lemma_read_u16(b: Seq<u8>, p: int, v: u16)
    requires
        holds_at(b, p, u16_le(v)),
    ensures
        read_u16(b, p) == v,
{
    assert(b[p] == u16_le(v)[0]);
    assert(b[p + 1] == u16_le(v)[1]);
    lemma_u16_bits(v);
}

pub proof fn lemma_read_u32(b: Seq<u8>, p: int, v: u32)
    requires
        holds_at(b, p, u32_le(v)),
    ensures
        read_u32(b, p) == v,
{
    assert(b[p] == u32_le(v)[0]);
    assert(b[p + 1] == u32_le(v)[1]);
    assert(b[p + 2] == u32_le(v)[2]);
    assert(b[p + 3] == u32_le(v)[3]);
    lemma_u32_bits(v);
}

pub proof fn lemma_read_u64(b: Seq<u8>, p: int, v: u64)
    requires
        holds_at(b, p, u64_le(v)),
    ensures
        read_u64(b, p) == v,
{
    assert forall|k: int| 0 <= k < 8 implies b[p + k] == #[trigger] u64_le(v)[k] by {
        assert(b.subrange(p, p + 8)[k] == b[p + k]);
    }
    lemma_u64_bits(v);
}

pub fn put_u32_le(out: &mut Vec<u8>, v: u32)
    ensures
        final(out)@ == old(out)@ + u32_le(v),
{
    out.push(v as u8);
    out.push((v >> 8u32) as u8);
    out.push((v >> 16u32) as u8);
    out.push((v >> 24u32) as u8);
    assert(final(out)@ =~= old(out)@ + u32_le(v));
}

pub fn put_u64_le(out: &mut Vec<u8>, v: u64)
    ensures
        final(out)@ == old(out)@ + u64_le(v),
{
    out.push(v as u8);
    out.push((v >> 8u64) as u8);
    out.push((v >> 16u64) as u8);
    out.push((v >> 24u64) as u8);
    out.push((v >> 32u64) as u8);
    out.push((v >> 40u64) as u8);
    out.push((v >> 48u64) as u8);
    out.push((v >> 56u64) as u8);
    assert(final(out)@ =~= old(out)@ + u64_le(v));
}

pub fn get_u32_le(b: &[u8], p: usize) -> (r: u32)
    requires
        p + 4 <= b@.len(),
    ensures
        r == read_u32(b@, p as int),
{
    (b[p] as u32) | ((b[p + 1] as u32) << 8u32) | ((b[p + 2] as u32) << 16u32) | ((b[p + 3] as u32)
        << 24u32)
}

fn get_u16_le(b: &[u8], p: usize) -> (r: u16)
    requires
        p + 2 <= b@.len(),
    ensures
        r == read_u16(b@, p as int),
{
    (b[p] as u16) | ((b[p + 1] as u16) << 8u16)
}

pub fn get_u64_le(b: &[u8], p: usize) -> (r: u64)
    requires
        p + 8 <= b@.len(),
    ensures
        r == read_u64(b@, p as int),
{
    (b[p] as u64) | ((b[p + 1] as u64) << 8u64) | ((b[p + 2] as u64) << 16u64) | ((b[p + 3] as u64)
        << 24u64) | ((b[p + 4] as u64) << 32u64) | ((b[p + 5] as u64) << 40u64) | ((b[p + 6] as u64)
        << 48u64) | ((b[p + 7] as u64) << 56u64)
}

// ---------- variable-length integers ----------

pub open spec fn varint(v: u64) -> Seq<u8> {
    if v <= 250 {
        seq![v as u8]
    } else if v <= 0xffff {
        seq![251u8] + u16_le(v as u16)
    } else if v <= 0xffff_ffff {
        seq![252u8] + u32_le(v as u32)
    } else {
        seq![253u8] + u64_le(v)
    }
}

pub open spec fn dec_u64(b: Seq<u8>, p: int) -> Option<(u64, int)> {
    if p < 0 || p >= b.len() {
        None
    } else if b[p] <= 250 {
        Some((b[p] as u64, p + 1))
    } else if b[p] == 251 {
        if p + 3 <= b.len() {
            Some((read_u16(b, p + 1) as u64, p + 3))
        } else {
            None
        }
    } else if b[p] == 252 {
        if p + 5 <= b.len() {
            Some((read_u32(b, p + 1) as u64, p + 5))
        } else {
            None
        }
    } else if b[p] == 253 {
        if p + 9 <= b.len() {
            Some((read_u64(b, p + 1), p + 9))
        } else {
            None
        }
    } else {
        None
    }
}

pub open spec fn dec_u32(b: Seq<u8>, p: int) -> Option<(u32, int)> {
    if p < 0 || p >= b.len() {
        None
    } else if b[p] <= 250 {
        Some((b[p] as u32, p + 1))
    } else if b[p] == 251 {
        if p + 3 <= b.len() {
            Some((read_u16(b, p + 1) as u32, p + 3))
        } else {
            None
        }
    } else if b[p] == 252 {
        if p + 5 <= b.len() {
            Some((read_u32(b, p + 1), p + 5))
        } else {
            None
        }
    } else {
        None
    }
}

pub proof fn lemma_dec_u64(b: Seq<u8>, p: int, v: u64)
    requires
        holds_at(b, p, varint(v)),
    ensures
        dec_u64(b, p) == Some((v, p + varint(v).len())),
{
    let e = varint(v);
    assert(b[p] == e[0]);
    if v <= 250 {
    } else if v <= 0xffff {
        lemma_holds_at_concat(b, p, seq![251u8], u16_le(v as u16));
        lemma_read_u16(b, p + 1, v as u16);
    } else if v <= 0xffff_ffff {
        lemma_holds_at_concat(b, p, seq![252u8], u32_le(v as u32));
        lemma_read_u32(b, p + 1, v as u32);
    } else {
        lemma_holds_at_concat(b, p, seq![253u8], u64_le(v));
        lemma_read_u64(b, p + 1, v);
    }
}

pub proof fn lemma_dec_u32(b: Seq<u8>, p: int, v: u32)
    requires
        holds_at(b, p, varint(v as u64)),
    ensures
        dec_u32(b, p) == Some((v, p + varint(v as u64).len())),
{
    let e = varint(v as u64);
    assert(b[p] == e[0]);
    if v <= 250 {
    } else if v <= 0xffff {
        lemma_holds_at_concat(b, p, seq![251u8], u16_le(v as u16));
        lemma_read_u16(b, p + 1, v as u16);
    } else {
        lemma_holds_at_concat(b, p, seq![252u8], u32_le(v as u32));
        lemma_read_u32(b, p + 1, v as u32);
    }
}

pub fn put_varint(out: &mut Vec<u8>, v: u64)
    ensures
        final(out)@ == old(out)@ + varint(v),
{
    if v <= 250 {
        out.push(v as u8);
        assert(final(out)@ =~= old(out)@ + varint(v));
    } else if v <= 0xffff {
        out.push(251u8);
        let w = v as u16;
        out.push(w as u8);
        out.push((w >> 8u16) as u8);
        assert(final(out)@ =~= old(out)@ + varint(v));
    } else if v <= 0xffff_ffff {
        out.push(252u8);
        put_u32_le(out, v as u32);
        assert(final(out)@ =~= old(out)@ + varint(v));
    } else {
        out.push(253u8);
        put_u64_le(out, v);
        assert(final(out)@ =~= old(out)@ + varint(v));
    }
}

pub fn get_u64(b: &[u8], p: usize) -> (r: Result<(u64, usize), DecodeError>)
    ensures
        r is Ok <==> dec_u64(b@, p as int) is Some,
        r matches Ok((v, q)) ==> dec_u64(b@, p as int) == Some((v, q as int)) && q <= b@.len(),
{
    if p >= b.len() {
        return Err(DecodeError::UnexpectedEnd);
    }
    let t = b[p];
    if t <= 250 {
        Ok((t as u64, p + 1))
    } else if t == 251 {
        if b.len() - p < 3 {
            return Err(DecodeError::UnexpectedEnd);
        }
        Ok((get_u16_le(b, p + 1) as u64, p + 3))
    } else if t == 252 {
        if b.len() - p < 5 {
            return Err(DecodeError::UnexpectedEnd);
        }
        Ok((get_u32_le(b, p + 1) as u64, p + 5))
    } else if t == 253 {
        if b.len() - p < 9 {
            return Err(DecodeError::UnexpectedEnd);
        }
        Ok((get_u64_le(b, p + 1), p + 9))
    } else {
        Err(DecodeError::InvalidIntegerType)
    }
}

pub fn get_u32(b: &[u8], p: usize) -> (r: Result<(u32, usize), DecodeError>)
    ensures
        r is Ok <==> dec_u32(b@, p as int) is Some,
        r matches Ok((v, q)) ==> dec_u32(b@, p as int) == Some((v, q as int)) && q <= b@.len(),
{
    if p >= b.len() {
        return Err(DecodeError::UnexpectedEnd);
    }
    let t = b[p];
    if t <= 250 {
        Ok((t as u32, p + 1))
    } else if t == 251 {
        if b.len() - p < 3 {
            return Err(DecodeError::UnexpectedEnd);
        }
        Ok((get_u16_le(b, p + 1) as u32, p + 3))
    } else if t == 252 {
        if b.len() - p < 5 {
            return Err(DecodeError::UnexpectedEnd);
        }
        Ok((get_u32_le(b, p + 1), p + 5))
    } else {
        Err(DecodeError::InvalidIntegerType)
    }
}

// ---------- zig-zag signed integers ----------

pub open spec fn zigzag(i: i64) -> u64 {
    if i >= 0 {
        (2 * i) as u64
    } else {
        (-2 * i - 1) as u64
    }
}

pub open spec fn unzigzag(n: u64) -> i64 {
    if n % 2 == 0 {
        (n / 2) as i64
    } else {
        (-((n / 2) as int) - 1) as i64
    }
}

pub proof fn lemma_zigzag(i: i64)
    ensures
        unzigzag(zigzag(i)) == i,
{
}

pub open spec fn dec_i64(b: Seq<u8>, p: int) -> Option<(i64, int)> {
    match dec_u64(b, p) {
        Some((n, q)) => Some((unzigzag(n), q)),
        None => None,
    }
}

pub fn put_i64(out: &mut Vec<u8>, i: i64)
    ensures
        final(out)@ == old(out)@ + varint(zigzag(i)),
{
    let n: u64 = if i >= 0 {
        (i as u64) * 2
    } else {
        ((-(i + 1)) as u64) * 2 + 1
    };
    put_varint(out, n);
}

pub fn get_i64(b: &[u8], p: usize) -> (r: Result<(i64, usize), DecodeError>)
    ensures
        r is Ok <==> dec_i64(b@, p as int) is Some,
        r matches Ok((v, q)) ==> dec_i64(b@, p as int) == Some((v, q as int)) && q <= b@.len(),
{
    let (n, q) = get_u64(b, p)?;
    let v: i64 = if n % 2 == 0 {
        (n / 2) as i64
    } else {
        -((n / 2) as i64) - 1
    };
    Ok((v, q))
}

// ---------- booleans ----------

pub open spec fn bool_byte(x: bool) -> Seq<u8> {
    if x {
        seq![1u8]
    } else {
        seq![0u8]
    }
}

pub open spec fn dec_bool(b: Seq<u8>, p: int) -> Option<(bool, int)> {
    if 0 <= p < b.len() && b[p] <= 1 {
        Some((b[p] == 1, p + 1))
    } else {
        None
    }
}

pub fn put_bool(out: &mut Vec<u8>, x: bool)
    ensures
        final(out)@ == old(out)@ + bool_byte(x),
{
    out.push(if x {
        1u8
    } else {
        0u8
    });
    assert(final(out)@ =~= old(out)@ + bool_byte(x));
}

pub fn get_bool(b: &[u8], p: usize) -> (r: Result<(bool, usize), DecodeError>)
    ensures
        r is Ok <==> dec_bool(b@, p as int) is Some,
        r matches Ok((v, q)) ==> dec_bool(b@, p as int) == Some((v, q as int)) && q <= b@.len(),
{
    if p >= b.len() {
        return Err(DecodeError::UnexpectedEnd);
    }
    let t = b[p];
    if t == 0 {
        Ok((false, p + 1))
    } else if t == 1 {
        Ok((true, p + 1))
    } else {
        Err(DecodeError::InvalidBooleanValue)
    }
}

// ---------- strings ----------

/// A string: the byte length of its UTF-8 form, then those bytes.
pub open spec fn str_bytes(s: Seq<char>) -> Seq<u8> {
    varint(encode_utf8(s).len() as u64) + encode_utf8(s)
}

/// A string length the format can carry.
pub open spec fn str_fits(s: Seq<char>) -> bool {
    encode_utf8(s).len() <= u64::MAX
}

pub open spec fn dec_str(b: Seq<u8>, p: int) -> Option<(Seq<char>, int)> {
    match dec_u64(b, p) {
        Some((n, q)) => if q + n <= b.len() && valid_utf8(b.subrange(q, q + n)) {
            Some((decode_utf8(b.subrange(q, q + n)), q + n))
        } else {
            None
        },
        None => None,
    }
}

pub proof fn lemma_dec_str(b: Seq<u8>, p: int, s: Seq<char>)
    requires
        str_fits(s),
        holds_at(b, p, str_bytes(s)),
    ensures
        dec_str(b, p) == Some((s, p + str_bytes(s).len())),
{
    let u = encode_utf8(s);
    let n = u.len() as u64;
    lemma_holds_at_concat(b, p, varint(n), u);
    lemma_dec_u64(b, p, n);
    let q = p + varint(n).len();
    assert(b.subrange(q, q + n) == u);
}

pub fn put_str(out: &mut Vec<u8>, s: &str)
    ensures
        final(out)@ == old(out)@ + str_bytes(s@),
        str_fits(s@),
{
    let bytes = s.as_bytes();
    let n = bytes.len();
    put_varint(out, n as u64);
    let ghost mid = out@;
    let mut i: usize = 0;
    while i < n
        invariant
            n == bytes@.len(),
            i <= n,
            out@ == mid + bytes@.subrange(0, i as int),
        decreases n - i,
    {
        out.push(bytes[i]);
        proof {
            assert(bytes@.subrange(0, i + 1) =~= bytes@.subrange(0, i as int).push(bytes@[i as int]));
        }
        i = i + 1;
    }
    assert(bytes@.subrange(0, n as int) =~= bytes@);
}

pub fn get_str(b: &[u8], p: usize) -> (r: Result<(String, usize), DecodeError>)
    ensures
        r is Ok <==> dec_str(b@, p as int) is Some,
        r matches Ok((v, q)) ==> dec_str(b@, p as int) == Some((v@, q as int)) && q <= b@.len(),
{
    let (n, q) = get_u64(b, p)?;
    if n > (b.len() - q) as u64 {
        return Err(DecodeError::UnexpectedEnd);
    }
    let n = n as usize;
    let slice = vstd::slice::slice_subrange(b, q, q + n);
    match utf8_str(slice) {
        Some(s) => Ok((s.to_owned(), q + n)),
        None => Err(DecodeError::Utf8),
    }
}

// ---------- doubles ----------

pub open spec fn dec_f64_bits(b: Seq<u8>, p: int) -> Option<(u64, int)> {
    if 0 <= p && p + 8 <= b.len() {
        Some((read_u64(b, p), p + 8))
    } else {
        None
    }
}

pub fn get_f64_bits(b: &[u8], p: usize) -> (r: Result<(u64, usize), DecodeError>)
    ensures
        r is Ok <==> dec_f64_bits(b@, p as int) is Some,
        r matches Ok((v, q)) ==> dec_f64_bits(b@, p as int) == Some((v, q as int)) && q <= b@.len(),
{
    if p > b.len() || b.len() - p < 8 {
        return Err(DecodeError::UnexpectedEnd);
    }
    Ok((get_u64_le(b, p), p + 8))
}

} // verus!
