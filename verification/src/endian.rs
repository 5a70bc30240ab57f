//! Big-endian conversions between fixed-width integers and byte arrays.

use vstd::prelude::*;

verus! {

/// The big-endian value of a 16-byte sequence.
pub open spec fn u128_from_be(b: Seq<u8>) -> u128 {
    (b[0] as u128) << 120u128 | (b[1] as u128) << 112u128 | (b[2] as u128) << 104u128
        | (b[3] as u128) << 96u128 | (b[4] as u128) << 88u128 | (b[5] as u128) << 80u128
        | (b[6] as u128) << 72u128 | (b[7] as u128) << 64u128 | (b[8] as u128) << 56u128
        | (b[9] as u128) << 48u128 | (b[10] as u128) << 40u128 | (b[11] as u128) << 32u128
        | (b[12] as u128) << 24u128 | (b[13] as u128) << 16u128 | (b[14] as u128) << 8u128
        | (b[15] as u128)
}

/// The 16 big-endian bytes of a `u128`.
pub open spec fn u128_to_be(x: u128) -> Seq<u8> {
    seq![
        (x >> 120u128) as u8, (x >> 112u128) as u8, (x >> 104u128) as u8, (x >> 96u128) as u8,
        (x >> 88u128) as u8, (x >> 80u128) as u8, (x >> 72u128) as u8, (x >> 64u128) as u8,
        (x >> 56u128) as u8, (x >> 48u128) as u8, (x >> 40u128) as u8, (x >> 32u128) as u8,
        (x >> 24u128) as u8, (x >> 16u128) as u8, (x >> 8u128) as u8, x as u8,
    ]
}

/// The big-endian value of an 8-byte sequence.
pub open spec fn u64_from_be(b: Seq<u8>) -> u64 {
    (b[0] as u64) << 56u64 | (b[1] as u64) << 48u64 | (b[2] as u64) << 40u64
        | (b[3] as u64) << 32u64 | (b[4] as u64) << 24u64 | (b[5] as u64) << 16u64
        | (b[6] as u64) << 8u64 | (b[7] as u64)
}

/// The 8 big-endian bytes of a `u64`.
pub open spec fn u64_to_be(x: u64) -> Seq<u8> {
    seq![
        (x >> 56u64) as u8, (x >> 48u64) as u8, (x >> 40u64) as u8, (x >> 32u64) as u8,
        (x >> 24u64) as u8, (x >> 16u64) as u8, (x >> 8u64) as u8, x as u8,
    ]
}

/// The 8 big-endian two's complement bytes of an `i64`.
pub open spec fn i64_to_be(x: i64) -> Seq<u8> {
    u64_to_be(x as u64)
}

/// The `i64` whose two's complement big-endian bytes are `b`.
pub open spec fn i64_from_be(b: Seq<u8>) -> i64 {
    u64_from_be(b) as i64
}

/// Reading back the bytes of a `u128` gives the `u128`.
pub proof fn lemma_u128_value_roundtrip(x: u128)
    ensures
        u128_from_be(u128_to_be(x)) == x,
{
    let b = u128_to_be(x);
    assert(((x >> 120u128) as u8 as u128) << 120u128 | ((x >> 112u128) as u8 as u128) << 112u128
        | ((x >> 104u128) as u8 as u128) << 104u128 | ((x >> 96u128) as u8 as u128) << 96u128
        | ((x >> 88u128) as u8 as u128) << 88u128 | ((x >> 80u128) as u8 as u128) << 80u128
        | ((x >> 72u128) as u8 as u128) << 72u128 | ((x >> 64u128) as u8 as u128) << 64u128
        | ((x >> 56u128) as u8 as u128) << 56u128 | ((x >> 48u128) as u8 as u128) << 48u128
        | ((x >> 40u128) as u8 as u128) << 40u128 | ((x >> 32u128) as u8 as u128) << 32u128
        | ((x >> 24u128) as u8 as u128) << 24u128 | ((x >> 16u128) as u8 as u128) << 16u128
        | ((x >> 8u128) as u8 as u128) << 8u128 | (x as u8 as u128) == x) by (bit_vector);
}

/// Writing the value of 16 bytes gives back the bytes.
pub proof fn lemma_u128_bytes_roundtrip(b: Seq<u8>)
    requires
        b.len() == 16,
    ensures
        u128_to_be(u128_from_be(b)) == b,
{
    let (b0, b1, b2, b3, b4, b5, b6, b7) = (b[0], b[1], b[2], b[3], b[4], b[5], b[6], b[7]);
    let (b8, b9, b10, b11, b12, b13, b14, b15) = (
        b[8],
        b[9],
        b[10],
        b[11],
        b[12],
        b[13],
        b[14],
        b[15],
    );
    let x = u128_from_be(b);
    assert(x == (b0 as u128) << 120u128 | (b1 as u128) << 112u128 | (b2 as u128) << 104u128
        | (b3 as u128) << 96u128 | (b4 as u128) << 88u128 | (b5 as u128) << 80u128
        | (b6 as u128) << 72u128 | (b7 as u128) << 64u128 | (b8 as u128) << 56u128
        | (b9 as u128) << 48u128 | (b10 as u128) << 40u128 | (b11 as u128) << 32u128
        | (b12 as u128) << 24u128 | (b13 as u128) << 16u128 | (b14 as u128) << 8u128
        | (b15 as u128));
    assert(
        (x == (b0 as u128) << 120u128 | (b1 as u128) << 112u128 | (b2 as u128) << 104u128
        | (b3 as u128) << 96u128 | (b4 as u128) << 88u128 | (b5 as u128) << 80u128
        | (b6 as u128) << 72u128 | (b7 as u128) << 64u128 | (b8 as u128) << 56u128
        | (b9 as u128) << 48u128 | (b10 as u128) << 40u128 | (b11 as u128) << 32u128
        | (b12 as u128) << 24u128 | (b13 as u128) << 16u128 | (b14 as u128) << 8u128
        | (b15 as u128)) ==> (
        (x >> 120u128) as u8 == b0 && (x >> 112u128) as u8 == b1 && (x >> 104u128) as u8 == b2
        && (x >> 96u128) as u8 == b3 && (x >> 88u128) as u8 == b4 && (x >> 80u128) as u8 == b5
        && (x >> 72u128) as u8 == b6 && (x >> 64u128) as u8 == b7 && (x >> 56u128) as u8 == b8
        && (x >> 48u128) as u8 == b9 && (x >> 40u128) as u8 == b10 && (x >> 32u128) as u8 == b11
        && (x >> 24u128) as u8 == b12 && (x >> 16u128) as u8 == b13 && (x >> 8u128) as u8 == b14
        && x as u8 == b15)) by (bit_vector);
    assert(u128_to_be(x) =~= b);
}

/// Reading back the bytes of a `u64` gives the `u64`.
pub proof fn lemma_u64_value_roundtrip(x: u64)
    ensures
        u64_from_be(u64_to_be(x)) == x,
{
    assert(((x >> 56u64) as u8 as u64) << 56u64 | ((x >> 48u64) as u8 as u64) << 48u64
        | ((x >> 40u64) as u8 as u64) << 40u64 | ((x >> 32u64) as u8 as u64) << 32u64
        | ((x >> 24u64) as u8 as u64) << 24u64 | ((x >> 16u64) as u8 as u64) << 16u64
        | ((x >> 8u64) as u8 as u64) << 8u64 | (x as u8 as u64) == x) by (bit_vector);
}

/// Writing the value of 8 bytes gives back the bytes.
pub proof fn lemma_u64_bytes_roundtrip(b: Seq<u8>)
    requires
        b.len() == 8,
    ensures
        u64_to_be(u64_from_be(b)) == b,
{
    let (b0, b1, b2, b3, b4, b5, b6, b7) = (b[0], b[1], b[2], b[3], b[4], b[5], b[6], b[7]);
    let x = u64_from_be(b);
    assert((x == (b0 as u64) << 56u64 | (b1 as u64) << 48u64 | (b2 as u64) << 40u64
        | (b3 as u64) << 32u64 | (b4 as u64) << 24u64 | (b5 as u64) << 16u64
        | (b6 as u64) << 8u64 | (b7 as u64)) ==> ((x >> 56u64) as u8 == b0
        && (x >> 48u64) as u8 == b1 && (x >> 40u64) as u8 == b2 && (x >> 32u64) as u8 == b3
        && (x >> 24u64) as u8 == b4 && (x >> 16u64) as u8 == b5 && (x >> 8u64) as u8 == b6
        && x as u8 == b7)) by (bit_vector);
    assert(u64_to_be(x) =~= b);
}

/// Reading back the bytes of an `i64` gives the `i64`.
pub proof fn lemma_i64_value_roundtrip(x: i64)
    ensures
        i64_from_be(i64_to_be(x)) == x,
{
    lemma_u64_value_roundtrip(x as u64);
    assert((x as u64) as i64 == x) by (bit_vector);
}

/// Writing the value of 8 bytes as an `i64` gives back the bytes.
pub proof fn lemma_i64_bytes_roundtrip(b: Seq<u8>)
    requires
        b.len() == 8,
    ensures
        i64_to_be(i64_from_be(b)) == b,
{
    let x = u64_from_be(b);
    lemma_u64_bytes_roundtrip(b);
    assert((x as i64) as u64 == x) by (bit_vector);
}

spec fn array_from_seq_at<const N: usize>(b: Seq<u8>, i: int) -> [u8; N]
    decreases N - i,
{
    if i >= N {
        vstd::array::spec_array_fill_for_copy_type::<u8, N>(0u8)
    } else {
        vstd::array::spec_array_update(array_from_seq_at::<N>(b, i + 1), i, b[i])
    }
}

/// The array of `N` bytes holding the sequence `b`.
pub closed spec fn array_from_seq<const N: usize>(b: Seq<u8>) -> [u8; N] {
    array_from_seq_at::<N>(b, 0)
}

proof fn lemma_array_from_seq_at<const N: usize>(b: Seq<u8>, i: int)
    requires
        b.len() == N,
        0 <= i <= N,
    ensures
        forall|j: int| i <= j < N ==> (#[trigger] array_from_seq_at::<N>(b, i)@[j]) == b[j],
    decreases N - i,
{
    broadcast use vstd::array::group_array_axioms;

    if i < N {
        lemma_array_from_seq_at::<N>(b, i + 1);
        let prev = array_from_seq_at::<N>(b, i + 1);
        vstd::array::array_len_matches_n(&prev);
        assert(array_from_seq_at::<N>(b, i)@ == prev@.update(i, b[i]));
    }
}

/// The array built from `N` bytes holds exactly these bytes.
pub proof fn lemma_array_from_seq<const N: usize>(b: Seq<u8>)
    requires
        b.len() == N,
    ensures
        array_from_seq::<N>(b)@ == b,
{
    broadcast use vstd::array::group_array_axioms;

    lemma_array_from_seq_at::<N>(b, 0);
    let a = array_from_seq::<N>(b);
    vstd::array::array_len_matches_n(&a);
    assert(a@ =~= b);
}

/// Arrays with the same bytes are equal.
pub proof fn lemma_array_view_injective<const N: usize>(a: [u8; N], b: [u8; N])
    requires
        a@ == b@,
    ensures
        a == b,
{
    broadcast use vstd::array::group_array_axioms;

    assert(a =~= b);
}

/// The `u128` whose big-endian bytes are `b`.
pub fn u128_from_be_bytes(b: [u8; 16]) -> (r: u128)
    ensures
        r == u128_from_be(b@),
{
    (b[0] as u128) << 120u128 | (b[1] as u128) << 112u128 | (b[2] as u128) << 104u128
        | (b[3] as u128) << 96u128 | (b[4] as u128) << 88u128 | (b[5] as u128) << 80u128
        | (b[6] as u128) << 72u128 | (b[7] as u128) << 64u128 | (b[8] as u128) << 56u128
        | (b[9] as u128) << 48u128 | (b[10] as u128) << 40u128 | (b[11] as u128) << 32u128
        | (b[12] as u128) << 24u128 | (b[13] as u128) << 16u128 | (b[14] as u128) << 8u128
        | (b[15] as u128)
}

/// The big-endian bytes of a `u128`.
pub fn u128_to_be_bytes(x: u128) -> (r: [u8; 16])
    ensures
        r@ == u128_to_be(x),
{
    let r = [
        (x >> 120u128) as u8, (x >> 112u128) as u8, (x >> 104u128) as u8, (x >> 96u128) as u8,
        (x >> 88u128) as u8, (x >> 80u128) as u8, (x >> 72u128) as u8, (x >> 64u128) as u8,
        (x >> 56u128) as u8, (x >> 48u128) as u8, (x >> 40u128) as u8, (x >> 32u128) as u8,
        (x >> 24u128) as u8, (x >> 16u128) as u8, (x >> 8u128) as u8, x as u8,
    ];
    assert(r@ =~= u128_to_be(x));
    r
}

/// The `i64` whose two's complement big-endian bytes are `b`.
pub fn i64_from_be_bytes(b: [u8; 8]) -> (r: i64)
    ensures
        r == i64_from_be(b@),
{
    let u = (b[0] as u64) << 56u64 | (b[1] as u64) << 48u64 | (b[2] as u64) << 40u64
        | (b[3] as u64) << 32u64 | (b[4] as u64) << 24u64 | (b[5] as u64) << 16u64
        | (b[6] as u64) << 8u64 | (b[7] as u64);
    u as i64
}

/// The two's complement big-endian bytes of an `i64`.
pub fn i64_to_be_bytes(x: i64) -> (r: [u8; 8])
    ensures
        r@ == i64_to_be(x),
{
    let u = x as u64;
    let r = [
        (u >> 56u64) as u8, (u >> 48u64) as u8, (u >> 40u64) as u8, (u >> 32u64) as u8,
        (u >> 24u64) as u8, (u >> 16u64) as u8, (u >> 8u64) as u8, u as u8,
    ];
    assert(r@ =~= i64_to_be(x));
    r
}

/// The `u64` whose big-endian bytes are `b`.
pub fn u64_from_be_bytes(b: [u8; 8]) -> (r: u64)
    ensures
        r == u64_from_be(b@),
{
    (b[0] as u64) << 56u64 | (b[1] as u64) << 48u64 | (b[2] as u64) << 40u64
        | (b[3] as u64) << 32u64 | (b[4] as u64) << 24u64 | (b[5] as u64) << 16u64
        | (b[6] as u64) << 8u64 | (b[7] as u64)
}

/// The big-endian bytes of a `u64`.
pub fn u64_to_be_bytes(x: u64) -> (r: [u8; 8])
    ensures
        r@ == u64_to_be(x),
{
    let r = [
        (x >> 56u64) as u8, (x >> 48u64) as u8, (x >> 40u64) as u8, (x >> 32u64) as u8,
        (x >> 24u64) as u8, (x >> 16u64) as u8, (x >> 8u64) as u8, x as u8,
    ];
    assert(r@ =~= u64_to_be(x));
    r
}

} // verus!
