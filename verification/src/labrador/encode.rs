//! Byte encodings of ring data absorbed into the transcript: every integer
//! as 8 (or, for `i128`, 16) little-endian bytes, ring elements coefficient
//! by coefficient, vectors and matrices with length prefixes.
use crate::labrador::transcript::{le64, u64_le_bytes};
use crate::modring::poly::{RingElem, D};
use vstd::prelude::*;

verus! {

/// The sixteen little-endian (two's complement) bytes of `x`.
pub open spec fn le128(x: i128) -> Seq<u8> {
    Seq::new(16, |i: int| (((x as u128) >> (8 * i) as u128) & 0xff) as u8)
}

/// `x.to_le_bytes()` for `i128`.
pub fn i128_le_bytes(x: i128) -> (b: [u8; 16])
    ensures
        b@ == le128(x),
{
    let u = x as u128;
    let mut b = [0u8; 16];
    for i in 0..16usize
        invariant
            u == x as u128,
            forall|j: int| 0 <= j < i ==> #[trigger] b[j] == ((u >> (8 * j) as u128) & 0xff) as u8,
    {
        b[i] = ((u >> (8 * i) as u128) & 0xff) as u8;
    }
    assert(b@ =~= le128(x));
    b
}

/// The bytes of the first `k` coefficients of `e`.
pub open spec fn coeff_bytes(e: RingElem, k: nat) -> Seq<u8>
    decreases k,
{
    if k == 0 {
        Seq::empty()
    } else {
        coeff_bytes(e, (k - 1) as nat) + le64(e.c[k - 1])
    }
}

/// The bytes of a ring element: its 64 coefficients.
pub open spec fn elem_bytes(e: RingElem) -> Seq<u8> {
    coeff_bytes(e, D as nat)
}

/// The bytes of the first `n` elements of `v`, without a length prefix.
pub open spec fn elems_bytes(v: Seq<RingElem>, n: nat) -> Seq<u8>
    decreases n,
{
    if n == 0 {
        Seq::empty()
    } else {
        elems_bytes(v, (n - 1) as nat) + elem_bytes(v[n - 1])
    }
}

/// A ring vector: its length, then its elements.
pub open spec fn vec_bytes(v: Seq<RingElem>) -> Seq<u8> {
    le64(v.len() as u64) + elems_bytes(v, v.len())
}

/// The rows `0..n` of a matrix, each length-prefixed.
pub open spec fn rows_bytes(m: Seq<Seq<RingElem>>, n: nat) -> Seq<u8>
    decreases n,
{
    if n == 0 {
        Seq::empty()
    } else {
        rows_bytes(m, (n - 1) as nat) + vec_bytes(m[n - 1])
    }
}

/// A ring matrix: its number of rows, then each row with its length.
pub open spec fn matrix_bytes(m: Seq<Seq<RingElem>>) -> Seq<u8> {
    le64(m.len() as u64) + rows_bytes(m, m.len())
}

/// Append the bytes of `e` to `buf`.
pub fn push_elem_bytes(buf: &mut Vec<u8>, e: &RingElem)
    ensures
        final(buf)@ == old(buf)@ + elem_bytes(*e),
{
    for k in 0..D
        invariant
            buf@ == old(buf)@ + coeff_bytes(*e, k as nat),
    {
        buf.extend_from_slice(&u64_le_bytes(e.c[k]));
        assert(buf@ =~= old(buf)@ + coeff_bytes(*e, (k + 1) as nat));
    }
}

/// Append the bytes of the elements of `v` (no length prefix) to `buf`.
pub fn push_elems_bytes(buf: &mut Vec<u8>, v: &[RingElem])
    ensures
        final(buf)@ == old(buf)@ + elems_bytes(v@, v@.len()),
{
    for i in 0..v.len()
        invariant
            buf@ == old(buf)@ + elems_bytes(v@, i as nat),
    {
        push_elem_bytes(buf, &v[i]);
        assert(buf@ =~= old(buf)@ + elems_bytes(v@, (i + 1) as nat));
    }
}

/// The encoding of a ring vector.
pub fn ring_vec_bytes(v: &[RingElem]) -> (buf: Vec<u8>)
    ensures
        buf@ == vec_bytes(v@),
{
    let mut buf: Vec<u8> = Vec::new();
    buf.extend_from_slice(&u64_le_bytes(v.len() as u64));
    push_elems_bytes(&mut buf, v);
    assert(buf@ =~= vec_bytes(v@));
    buf
}

/// The rows of a matrix of vectors as sequences.
pub open spec fn mrows(m: Seq<Vec<RingElem>>) -> Seq<Seq<RingElem>> {
    m.map_values(|v: Vec<RingElem>| v@)
}

/// The encoding of a ring matrix.
pub fn ring_matrix_bytes(m: &[Vec<RingElem>]) -> (buf: Vec<u8>)
    ensures
        buf@ == matrix_bytes(mrows(m@)),
{
    let ghost rs = mrows(m@);
    let mut buf: Vec<u8> = Vec::new();
    buf.extend_from_slice(&u64_le_bytes(m.len() as u64));
    for i in 0..m.len()
        invariant
            rs == mrows(m@),
            buf@ == le64(m@.len() as u64) + rows_bytes(rs, i as nat),
    {
        let row = &m[i];
        assert(rs[i as int] == row@);
        buf.extend_from_slice(&u64_le_bytes(row.len() as u64));
        push_elems_bytes(&mut buf, row);
        assert(buf@ =~= le64(m@.len() as u64) + rows_bytes(rs, (i + 1) as nat));
    }
    assert(buf@ =~= matrix_bytes(rs));
    buf
}

} // verus!
