//! Byte- and character-level helpers shared by the codec, the lexer and
//! the id-keyed maps.

use vstd::prelude::*;
use vstd::utf8::*;

verus! {

broadcast use vstd::utf8::group_utf8_lib;

/// Appends one character to a `String`, as `String::push` documents.
pub assume_specification[ std::string::String::push ](s: &mut std::string::String, ch: char)
    ensures
        final(s)@ == old(s)@.push(ch),
;

/// Appends a string slice to a `String`, as `String::push_str` documents.
pub assume_specification[ std::string::String::push_str ](s: &mut std::string::String, other: &str)
    ensures
        final(s)@ == old(s)@ + other@,
;

/// `core::str::from_utf8` accepts exactly the well-formed UTF-8 byte
/// sequences and then holds the characters they encode; the error case
/// carries no value the library reads.
#[verifier::external_body]
pub(crate) fn utf8_str(bytes: &[u8]) -> (r: Option<&str>)
    ensures
        r is Some <==> valid_utf8(bytes@),
        r matches Some(s) ==> s@ == decode_utf8(bytes@),
{
    core::str::from_utf8(bytes).ok()
}

/// Byte-wise equality of two byte slices.
pub fn bytes_eq(a: &[u8], b: &[u8]) -> (r: bool)
    ensures
        r == (a@ == b@),
{
    if a.len() != b.len() {
        return false;
    }
    let mut i: usize = 0;
    while i < a.len()
        invariant
            a@.len() == b@.len(),
            i <= a@.len(),
            forall|j: int| 0 <= j < i ==> a@[j] == b@[j],
        decreases a.len() - i,
    {
        if a[i] != b[i] {
            return false;
        }
        i = i + 1;
    }
    assert(a@ =~= b@);
    true
}

/// Character-sequence equality of two string slices.
pub fn str_eq(a: &str, b: &str) -> (r: bool)
    ensures
        r == (a@ == b@),
{
    let ab = a.as_bytes();
    let bb = b.as_bytes();
    let r = bytes_eq(ab, bb);
    proof {
        if r {
            assert(decode_utf8(encode_utf8(a@)) == a@);
            assert(decode_utf8(encode_utf8(b@)) == b@);
        }
    }
    r
}

/// An owned copy of a string slice.
pub fn own(s: &str) -> (r: String)
    ensures
        r@ == s@,
{
    s.to_owned()
}

/// The owned string of a byte sequence in which every byte stands for the
/// character with the same number (bytes below 0x80 are plain ASCII).
pub fn latin1_string(bytes: &[u8], start: usize, end: usize) -> (r: String)
    requires
        start <= end <= bytes@.len(),
    ensures
        r@ == latin1_chars(bytes@.subrange(start as int, end as int)),
{
    let mut out = String::new();
    let mut i = start;
    while i < end
        invariant
            start <= i <= end <= bytes@.len(),
            out@ == latin1_chars(bytes@.subrange(start as int, i as int)),
        decreases end - i,
    {
        out.push(bytes[i] as char);
        proof {
            assert(bytes@.subrange(start as int, i + 1).drop_last() =~= bytes@.subrange(
                start as int,
                i as int,
            ));
        }
        i = i + 1;
    }
    out
}

/// The character of decimal digit `d` (`'0'` to `'9'`).
pub open spec fn digit_char(d: u8) -> char
    recommends
        d < 10,
{
    ((d + 48) as u32) as char
}

/// `n` written in decimal, without leading zeros (`"0"` for zero).
pub open spec fn nat_text(n: nat) -> Seq<char>
    decreases n,
{
    if n < 10 {
        seq![digit_char(n as u8)]
    } else {
        nat_text(n / 10).push(digit_char((n % 10) as u8))
    }
}

/// `i` written in decimal, with a leading `-` when it is negative.
pub open spec fn int_text(i: int) -> Seq<char> {
    if i < 0 {
        seq!['-'] + nat_text((-i) as nat)
    } else {
        nat_text(i as nat)
    }
}

/// Appends `n` in decimal to `s`.
pub fn push_decimal(s: &mut String, n: u64)
    ensures
        final(s)@ == old(s)@ + nat_text(n as nat),
    decreases n,
{
    if n >= 10 {
        push_decimal(s, n / 10);
    }
    let ghost mid = s@;
    let d: u8 = (n % 10) as u8;
    s.push((d + 48) as char);
    proof {
        if n >= 10 {
            assert(mid == old(s)@ + nat_text((n / 10) as nat));
            assert(nat_text(n as nat) == nat_text((n as nat) / 10).push(digit_char(d)));
        } else {
            assert(nat_text(n as nat) == seq![digit_char(d)]);
        }
        assert(s@ =~= old(s)@ + nat_text(n as nat));
    }
}

/// Appends `i` in decimal to `s`, with a leading `-` when it is negative.
pub fn push_int(s: &mut String, i: i64)
    ensures
        final(s)@ == old(s)@ + int_text(i as int),
{
    if i < 0 {
        s.push('-');
        let m: u64 = (-(i as i128)) as u64;
        push_decimal(s, m);
        proof {
            assert(s@ =~= old(s)@ + int_text(i as int));
        }
    } else {
        push_decimal(s, i as u64);
    }
}

/// Each byte read as the character with the same number.
pub open spec fn latin1_chars(bytes: Seq<u8>) -> Seq<char>
    decreases bytes.len(),
{
    if bytes.len() == 0 {
        Seq::empty()
    } else {
        latin1_chars(bytes.drop_last()).push((bytes.last() as u32) as char)
    }
}

pub proof fn lemma_latin1_len(bytes: Seq<u8>)
    ensures
        latin1_chars(bytes).len() == bytes.len(),
    decreases bytes.len(),
{
    if bytes.len() > 0 {
        lemma_latin1_len(bytes.drop_last());
    }
}

} // verus!
