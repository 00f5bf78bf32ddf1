//! Big-endian sequence numbers and the end-of-spool merge rule.

use vstd::prelude::*;

verus! {

/// The four big-endian bytes of `n`.
pub open spec fn be32(n: u32) -> Seq<u8> {
    seq![(n >> 24u32) as u8, (n >> 16u32) as u8, (n >> 8u32) as u8, n as u8]
}

/// The number that four big-endian bytes stand for.
pub open spec fn be32_value(b: Seq<u8>) -> int {
    b[0] as int * 0x1000000 + b[1] as int * 0x10000 + b[2] as int * 0x100 + b[3] as int
}

/// Distinct numbers have distinct encodings.
pub proof fn lemma_be32_injective(a: u32, b: u32)
    ensures
        be32(a) == be32(b) <==> a == b,
{
    if be32(a) == be32(b) {
        assert(be32(a)[0] == be32(b)[0]);
        assert(be32(a)[1] == be32(b)[1]);
        assert(be32(a)[2] == be32(b)[2]);
        assert(be32(a)[3] == be32(b)[3]);
        assert(((a >> 24u32) as u8 == (b >> 24u32) as u8 && (a >> 16u32) as u8 == (b >> 16u32) as u8
            && (a >> 8u32) as u8 == (b >> 8u32) as u8 && a as u8 == b as u8) ==> a == b)
            by (bit_vector);
    }
}

/// Decoding an encoding gives the number back.
pub proof fn lemma_be32_value(n: u32)
    ensures
        be32_value(be32(n)) == n as int,
        be32(n).len() == 4,
{
    let b0 = (n >> 24u32) as u8;
    let b1 = (n >> 16u32) as u8;
    let b2 = (n >> 8u32) as u8;
    let b3 = n as u8;
    assert(n == (b0 as u32) * 0x1000000 + (b1 as u32) * 0x10000 + (b2 as u32) * 0x100 + (b3 as u32))
        by (bit_vector)
        requires
            b0 == (n >> 24u32) as u8,
            b1 == (n >> 16u32) as u8,
            b2 == (n >> 8u32) as u8,
            b3 == n as u8,
    ;
}

/// Every four-byte string is the encoding of its value.
pub proof fn lemma_be32_of_value(b: Seq<u8>)
    requires
        b.len() == 4,
    ensures
        0 <= be32_value(b) <= u32::MAX,
        be32(be32_value(b) as u32) == b,
{
    let (b0, b1, b2, b3) = (b[0], b[1], b[2], b[3]);
    let n: u32 = ((b0 as u32) * 0x1000000 + (b1 as u32) * 0x10000 + (b2 as u32) * 0x100 + (b3 as u32)) as u32;
    assert(n == (b0 as u32) * 0x1000000 + (b1 as u32) * 0x10000 + (b2 as u32) * 0x100 + (b3 as u32)
        && (n >> 24u32) as u8 == b0 && (n >> 16u32) as u8 == b1 && (n >> 8u32) as u8 == b2
        && n as u8 == b3) by (bit_vector)
        requires
            n == ((b0 as u32) * 0x1000000 + (b1 as u32) * 0x10000 + (b2 as u32) * 0x100 + (b3 as u32)) as u32,
    ;
    assert(be32(n) =~= b);
}

/// Writes `n` as four big-endian bytes.
pub fn encode_be32(n: u32) -> (r: [u8; 4])
    ensures
        r@ == be32(n),
{
    let r: [u8; 4] = [(n >> 24u32) as u8, (n >> 16u32) as u8, (n >> 8u32) as u8, n as u8];
    assert(r@ =~= be32(n));
    r
}

/// Reads four big-endian bytes as a number.
pub fn decode_be32(b: &[u8]) -> (r: u32)
    requires
        b@.len() == 4,
    ensures
        be32(r) == b@,
        r as int == be32_value(b@),
{
    proof {
        lemma_be32_of_value(b@);
    }
    let r: u32 = (b[0] as u32) * 0x1000000 + (b[1] as u32) * 0x10000 + (b[2] as u32) * 0x100 + (b[3] as u32);
    r
}

/// The value that the end-of-spool marker keeps when `new` is merged into
/// `old`: the marker never moves backwards. A marker that is not four bytes
/// long cannot hold back a new one.
pub open spec fn end_marker_merge(old: Option<Seq<u8>>, new: Seq<u8>) -> Seq<u8> {
    match old {
        Some(o) => if o.len() == 4 && new.len() == 4 && be32_value(o) >= be32_value(new) {
            o
        } else {
            new
        },
        None => new,
    }
}

fn copy_bytes(b: &[u8]) -> (r: Vec<u8>)
    ensures
        r@ == b@,
{
    let mut r: Vec<u8> = Vec::with_capacity(b.len());
    let mut i: usize = 0;
    while i < b.len()
        invariant
            i <= b@.len(),
            r@ == b@.subrange(0, i as int),
        decreases b@.len() - i,
    {
        r.push(b[i]);
        i += 1;
        assert(r@ =~= b@.subrange(0, i as int));
    }
    assert(r@ =~= b@);
    r
}

/// The merge operator of the end-of-spool marker: of the stored and the
/// proposed sequence number, the larger one stays.
pub fn increment_merge(_key: &[u8], old_value: Option<&[u8]>, new_value: &[u8]) -> (r: Option<Vec<u8>>)
    ensures
        r matches Some(v) && v@ == end_marker_merge(
            match old_value {
                Some(o) => Some(o@),
                None => None,
            },
            new_value@,
        ),
{
    match old_value {
        Some(old_bytes) => {
            if old_bytes.len() == 4 && new_value.len() == 4 {
                let old: u32 = decode_be32(old_bytes);
                let new: u32 = decode_be32(new_value);
                if old >= new {
                    return Some(copy_bytes(old_bytes));
                }
            }
            Some(copy_bytes(new_value))
        },
        None => Some(copy_bytes(new_value)),
    }
}

/// Copies `N` bytes into an array.
pub fn to_array<const N: usize>(v: &[u8]) -> (r: [u8; N])
    requires
        v@.len() == N,
    ensures
        r@ == v@,
{
    let mut a: [u8; N] = [0u8; N];
    let mut i: usize = 0;
    while i < N
        invariant
            i <= N,
            a@.len() == N,
            v@.len() == N,
            forall|j: int| 0 <= j < i ==> a@[j] == v@[j],
        decreases N - i,
    {
        a[i] = v[i];
        i += 1;
    }
    assert(a@ =~= v@);
    a
}

} // verus!
