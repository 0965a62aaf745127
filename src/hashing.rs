//! Leaf and node digests, and the byte encoding of a leaf.

use vstd::prelude::*;
use vstd::utf8::{encode_scalar, encode_utf8};
use sha2::Digest;

verus! {

/// The SHA-256 digest of a byte string.
pub uninterp spec fn sha256(data: Seq<u8>) -> Seq<u8>;

/// Relies on `sha2::Sha256::digest`: the 32-byte SHA-256 digest of the input.
#[verifier::external_body]
fn sha256_digest(data: &Vec<u8>) -> (r: Vec<u8>)
    ensures
        r@ == sha256(data@),
        r@.len() == 32,
{
    sha2::Sha256::digest(data.as_slice()).to_vec()
}

/// Decimal digits of a natural number, most significant first.
pub open spec fn digits(n: nat) -> Seq<u8>
    decreases n,
{
    if n < 10 {
        seq![(48 + n) as u8]
    } else {
        digits(n / 10).push((48 + n % 10) as u8)
    }
}

/// Decimal text of an integer, with a leading `-` when negative.
pub open spec fn decimal(n: int) -> Seq<u8> {
    if n < 0 {
        seq![45u8] + digits((-n) as nat)
    } else {
        digits(n as nat)
    }
}

/// The bytes that a leaf's digest is taken over: the key in decimal,
/// followed by the UTF-8 encoding of the value.
pub open spec fn leaf_message(key: i32, value: char) -> Seq<u8> {
    decimal(key as int) + encode_utf8(seq![value])
}

/// Digest of a leaf.
pub open spec fn leaf_digest(key: i32, value: char) -> Seq<u8> {
    sha256(leaf_message(key, value))
}

/// Digest of an internal node: the hash of the left digest followed by the right one.
pub open spec fn node_digest(left: Seq<u8>, right: Seq<u8>) -> Seq<u8> {
    sha256(left + right)
}

fn push_digits(n: u64, out: &mut Vec<u8>)
    ensures
        final(out)@ == old(out)@ + digits(n as nat),
    decreases n,
{
    if n >= 10 {
        push_digits(n / 10, out);
    }
    out.push((48 + n % 10) as u8);
    proof {
        if n >= 10 {
            assert(old(out)@ + digits(n as nat) =~= old(out)@ + digits((n / 10) as nat) + seq![
                (48 + n % 10) as u8,
            ]);
        }
    }
    assert(final(out)@ =~= old(out)@ + digits(n as nat));
}

fn push_utf8(c: char, out: &mut Vec<u8>)
    ensures
        final(out)@ == old(out)@ + encode_utf8(seq![c]),
{
    let v = c as u32;
    if v <= 0x7F {
        out.push((v & 0x7F) as u8);
    } else if 0x80 <= v && v <= 0x7FF {
        out.push(0xC0 | ((v >> 6) & 0x1F) as u8);
        out.push(0x80 | (v & 0x3F) as u8);
    } else if 0x800 <= v && v <= 0xFFFF && !(0xD800 <= v && v <= 0xDFFF) {
        out.push(0xE0 | ((v >> 12) & 0x0F) as u8);
        out.push(0x80 | ((v >> 6) & 0x3F) as u8);
        out.push(0x80 | (v & 0x3F) as u8);
    } else {
        out.push(0xF0 | ((v >> 18) & 0x7) as u8);
        out.push(0x80 | ((v >> 12) & 0x3F) as u8);
        out.push(0x80 | ((v >> 6) & 0x3F) as u8);
        out.push(0x80 | (v & 0x3F) as u8);
    }
    assert(seq![c].drop_first() =~= Seq::<char>::empty());
    assert(encode_utf8(Seq::<char>::empty()) =~= Seq::<u8>::empty());
    assert(encode_utf8(seq![c]) =~= encode_scalar(v));
    assert(final(out)@ =~= old(out)@ + encode_utf8(seq![c]));
}

/// The bytes a leaf's digest is taken over.
pub fn leaf_bytes(key: i32, value: char) -> (r: Vec<u8>)
    ensures
        r@ == leaf_message(key, value),
{
    let mut out: Vec<u8> = Vec::new();
    if key < 0 {
        out.push(45u8);
    }
    let magnitude: u64 = if key < 0 {
        (-(key as i64)) as u64
    } else {
        key as u64
    };
    push_digits(magnitude, &mut out);
    push_utf8(value, &mut out);
    proof {
        if key < 0 {
            assert(decimal(key as int) =~= seq![45u8] + digits(magnitude as nat));
        }
    }
    out
}

/// Digest of the leaf holding `value` at `key`.
pub fn leaf_hash(key: i32, value: char) -> (r: Vec<u8>)
    ensures
        r@ == leaf_digest(key, value),
        r@.len() == 32,
{
    let data = leaf_bytes(key, value);
    sha256_digest(&data)
}

/// Digest of the internal node whose children have digests `left` and `right`.
pub fn node_hash(left: &Vec<u8>, right: &Vec<u8>) -> (r: Vec<u8>)
    ensures
        r@ == node_digest(left@, right@),
        r@.len() == 32,
{
    let mut data: Vec<u8> = left.clone();
    let mut other: Vec<u8> = right.clone();
    data.append(&mut other);
    assert(data@ =~= left@ + right@);
    sha256_digest(&data)
}

} // verus!
