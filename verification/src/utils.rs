use vstd::prelude::*;
use vstd::utf8::{encode_utf8, is_char_boundary, valid_utf8};

verus! {

/// XOR of every byte of `s`, folded from the first byte to the last
/// (the checksum of the serial protocol).
pub open spec fn xor_all(s: Seq<u8>) -> u8
    decreases s.len(),
{
    if s.len() == 0 {
        0
    } else {
        xor_all(s.drop_last()) ^ s.last()
    }
}

/// The checksum of the first `n` bytes of `data`.
pub fn checksum_prefix(data: &Vec<u8>, n: usize) -> (c: u8)
    requires
        n <= data@.len(),
    ensures
        c == xor_all(data@.take(n as int)),
{
    let mut checksum: u8 = 0;
    let mut i: usize = 0;
    while i < n
        invariant
            i <= n,
            n <= data@.len(),
            checksum == xor_all(data@.take(i as int)),
        decreases n - i,
    {
        assert(data@.take(i + 1).drop_last() =~= data@.take(i as int));
        checksum = checksum ^ data[i];
        i = i + 1;
    }
    checksum
}

/// The XOR checksum of all of `data`.
pub fn calc_checksum(data: &Vec<u8>) -> (c: u8)
    ensures
        c == xor_all(data@),
{
    let c = checksum_prefix(data, data.len());
    assert(data@.take(data@.len() as int) =~= data@);
    c
}

/// The bytes of `data` from `start` up to `end`, in a new vector.
pub fn subvec(data: &Vec<u8>, start: usize, end: usize) -> (r: Vec<u8>)
    requires
        start <= end <= data@.len(),
    ensures
        r@ == data@.subrange(start as int, end as int),
{
    let mut r: Vec<u8> = Vec::new();
    let mut i: usize = start;
    while i < end
        invariant
            start <= i <= end,
            end <= data@.len(),
            r@ =~= data@.subrange(start as int, i as int),
        decreases end - i,
    {
        r.push(data[i]);
        i = i + 1;
    }
    r
}

/// Appends the bytes of `b` to `s`.
pub fn append_bytes(s: &mut Vec<u8>, b: &[u8])
    ensures
        final(s)@ == old(s)@ + b@,
{
    let mut i: usize = 0;
    while i < b.len()
        invariant
            i <= b@.len(),
            s@ =~= old(s)@ + b@.take(i as int),
        decreases b@.len() - i,
    {
        s.push(b[i]);
        i = i + 1;
    }
    assert(b@.take(b@.len() as int) =~= b@);
}

/// `std::str::from_utf8`: the bytes as a string slice if they are valid
/// UTF-8, else nothing; the slice's bytes are the given bytes.
#[verifier::external_body]
fn str_from_utf8(v: &[u8]) -> (r: Option<&str>)
    ensures
        r is Some <==> valid_utf8(v@),
        r matches Some(s) ==> encode_utf8(s@) == v@,
{
    std::str::from_utf8(v).ok()
}

/// The version text at the start of a version answer: the string of its
/// first six bytes, if the whole answer is UTF-8 text and its sixth byte ends
/// a character; nothing otherwise.
pub fn version_prefix(data: &Vec<u8>) -> (r: Option<String>)
    ensures
        r is Some <==> valid_utf8(data@) && is_char_boundary(data@, 6),
        r matches Some(s) ==> encode_utf8(s@) == data@.take(6),
{
    match str_from_utf8(data.as_slice()) {
        None => None,
        Some(text) => {
            if text.is_char_boundary(6) {
                let (head, _) = text.split_at(6);
                let s = head.to_string();
                Some(s)
            } else {
                None
            }
        },
    }
}

/// `v` after `copy_into(v, position, data)`: from `position` on, as many bytes
/// of `data` as fit before the end of `v` replace those of `v`.
pub open spec fn copied_into(v: Seq<u8>, position: int, data: Seq<u8>) -> Seq<u8> {
    let n = if data.len() <= v.len() - position { data.len() as int } else { v.len() - position };
    v.take(position) + data.take(n) + v.skip(position + n)
}

/// Copies `data` into `v` from `position` on, cut at the end of `v`.
pub fn copy_into(v: &mut Vec<u8>, position: usize, data: &[u8])
    requires
        position <= old(v)@.len(),
    ensures
        final(v)@ == copied_into(old(v)@, position as int, data@),
        final(v)@.len() == old(v)@.len(),
{
    let room = v.len() - position;
    let len = if data.len() < room { data.len() } else { room };
    let mut i: usize = 0;
    while i < len
        invariant
            i <= len,
            len <= data@.len(),
            position + len <= v.len(),
            v@.len() == old(v)@.len(),
            v@ =~= old(v)@.take(position as int) + data@.take(i as int) + old(v)@.skip(
                position + i,
            ),
        decreases len - i,
    {
        v.set(position + i, data[i]);
        i = i + 1;
    }
}

/// The checksum of a sequence with one more byte is the former checksum
/// combined with that byte.
pub proof fn lemma_xor_all_push(s: Seq<u8>, b: u8)
    ensures
        xor_all(s.push(b)) == xor_all(s) ^ b,
{
    assert(s.push(b).drop_last() =~= s);
}

/// The checksum of a concatenation is the XOR of the checksums of its parts.
pub proof fn lemma_xor_all_concat(a: Seq<u8>, b: Seq<u8>)
    ensures
        xor_all(a + b) == xor_all(a) ^ xor_all(b),
    decreases b.len(),
{
    if b.len() == 0 {
        assert(a + b =~= a);
        let x = xor_all(a);
        assert(x ^ 0u8 == x) by (bit_vector);
    } else {
        lemma_xor_all_concat(a, b.drop_last());
        assert((a + b).drop_last() =~= a + b.drop_last());
        let x = xor_all(a);
        let y = xor_all(b.drop_last());
        let z = b.last();
        assert((x ^ y) ^ z == x ^ (y ^ z)) by (bit_vector);
    }
}

/// Taking one byte out of a sequence takes it out of the checksum.
pub proof fn lemma_xor_all_remove(s: Seq<u8>, i: int)
    requires
        0 <= i < s.len(),
    ensures
        xor_all(s) == xor_all(s.remove(i)) ^ s[i],
{
    let a = s.take(i);
    let b = s.skip(i + 1);
    assert(s =~= a + seq![s[i]] + b);
    assert(s.remove(i) =~= a + b);
    lemma_xor_all_concat(a + seq![s[i]], b);
    lemma_xor_all_concat(a, seq![s[i]]);
    lemma_xor_all_concat(a, b);
    let x = xor_all(a);
    let y = xor_all(b);
    let z = s[i];
    lemma_xor_all_push(Seq::<u8>::empty(), z);
    assert(seq![z] =~= Seq::<u8>::empty().push(z));
    assert(xor_all(Seq::<u8>::empty()) == 0u8);
    assert(xor_all(seq![z]) == 0u8 ^ z);
    assert(xor_all(a + seq![z]) == x ^ (0u8 ^ z));
    assert(xor_all(s) == (x ^ (0u8 ^ z)) ^ y);
    assert(xor_all(s.remove(i)) == x ^ y);
    assert((x ^ (0u8 ^ z)) ^ y == (x ^ y) ^ z) by (bit_vector);
}

/// The checksum does not depend on the order of the bytes: sequences that
/// hold the same bytes, as many times each, have the same checksum.
pub proof fn lemma_xor_all_permutation(d: Seq<u8>, e: Seq<u8>)
    requires
        d.to_multiset() == e.to_multiset(),
    ensures
        xor_all(d) == xor_all(e),
    decreases d.len(),
{
    broadcast use vstd::seq_lib::group_to_multiset_ensures;

    if d.len() == 0 {
        assert(d.to_multiset().len() == 0);
        assert(e.to_multiset().len() == 0);
        assert(e.len() == 0);
    } else {
        let x = d.last();
        assert(d.contains(x)) by {
            assert(d[d.len() - 1] == x);
        }
        assert(e.to_multiset().count(x) > 0);
        assert(e.contains(x));
        let i = choose|i: int| 0 <= i < e.len() && e[i] == x;
        let d1 = d.drop_last();
        let e1 = e.remove(i);
        assert(d1 =~= d.remove(d.len() - 1));
        assert(d1.to_multiset() == d.to_multiset().remove(x));
        assert(e1.to_multiset() == e.to_multiset().remove(x));
        lemma_xor_all_permutation(d1, e1);
        lemma_xor_all_remove(e, i);
    }
}

/// Appending the checksum of a sequence to it gives a sequence whose
/// checksum is zero.
pub proof fn lemma_xor_all_with_checksum(s: Seq<u8>)
    ensures
        xor_all(s.push(xor_all(s))) == 0,
{
    lemma_xor_all_push(s, xor_all(s));
    let x = xor_all(s);
    assert(x ^ x == 0u8) by (bit_vector);
}

} // verus!
