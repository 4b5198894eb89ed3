//! The byte layout of vectors: each element as four bytes, least
//! significant first.

use crate::types::VectorElementType;
use vstd::prelude::*;

verus! {

/// The byte of `x` at place `k`, the least significant at place 0.
pub open spec fn element_byte(x: VectorElementType, k: int) -> u8 {
    if k == 0 {
        (x & 0xff) as u8
    } else if k == 1 {
        ((x >> 8) & 0xff) as u8
    } else if k == 2 {
        ((x >> 16) & 0xff) as u8
    } else {
        ((x >> 24) & 0xff) as u8
    }
}

/// The element made of four bytes, the least significant first.
pub open spec fn element_of(b0: u8, b1: u8, b2: u8, b3: u8) -> VectorElementType {
    (b0 as u32) | ((b1 as u32) << 8) | ((b2 as u32) << 16) | ((b3 as u32) << 24)
}

/// The bytes of a sequence of elements, element after element.
pub open spec fn encode(v: Seq<VectorElementType>) -> Seq<u8> {
    Seq::new(4 * v.len(), |k: int| element_byte(v[k / 4], k % 4))
}

/// The bytes of a sequence of vectors, vector after vector.
pub open spec fn encode_all(vs: Seq<Seq<VectorElementType>>) -> Seq<u8>
    decreases vs.len(),
{
    if vs.len() == 0 {
        Seq::empty()
    } else {
        encode_all(vs.drop_last()) + encode(vs.last())
    }
}

/// The element whose four bytes start at `4 * i`.
pub open spec fn element_at(bytes: Seq<u8>, i: int) -> VectorElementType {
    element_of(bytes[4 * i], bytes[4 * i + 1], bytes[4 * i + 2], bytes[4 * i + 3])
}

/// The elements that the bytes hold, four bytes each; bytes that do not make
/// up an element at the end are left aside.
pub open spec fn decode(bytes: Seq<u8>) -> Seq<VectorElementType> {
    Seq::new((bytes.len() / 4) as nat, |i: int| element_at(bytes, i))
}

/// Four bytes taken from an element give the element back.
pub proof fn lemma_element_round_trip(x: VectorElementType)
    ensures
        element_of(element_byte(x, 0), element_byte(x, 1), element_byte(x, 2), element_byte(x, 3))
            == x,
{
    assert(((x & 0xff) as u8 as u32) | ((((x >> 8) & 0xff) as u8 as u32) << 8) | ((((x >> 16)
        & 0xff) as u8 as u32) << 16) | ((((x >> 24) & 0xff) as u8 as u32) << 24) == x)
        by (bit_vector);
}

/// An element made of four bytes gives those bytes back.
pub proof fn lemma_bytes_round_trip(b0: u8, b1: u8, b2: u8, b3: u8)
    ensures
        element_byte(element_of(b0, b1, b2, b3), 0) == b0,
        element_byte(element_of(b0, b1, b2, b3), 1) == b1,
        element_byte(element_of(b0, b1, b2, b3), 2) == b2,
        element_byte(element_of(b0, b1, b2, b3), 3) == b3,
{
    let x = (b0 as u32) | ((b1 as u32) << 8) | ((b2 as u32) << 16) | ((b3 as u32) << 24);
    assert((x & 0xff) as u8 == b0 && ((x >> 8) & 0xff) as u8 == b1 && ((x >> 16) & 0xff) as u8
        == b2 && ((x >> 24) & 0xff) as u8 == b3) by (bit_vector)
        requires
            x == (b0 as u32) | ((b1 as u32) << 8) | ((b2 as u32) << 16) | ((b3 as u32) << 24),
    ;
}

/// Decoding what was encoded gives the elements back.
pub proof fn lemma_decode_encode(v: Seq<VectorElementType>)
    ensures
        decode(encode(v)) == v,
        encode(v).len() == 4 * v.len(),
{
    let bytes = encode(v);
    assert forall|i: int| 0 <= i < v.len() implies element_at(bytes, i) == v[i] by {
        lemma_element_round_trip(v[i]);
        assert(bytes[4 * i] == element_byte(v[i], 0));
        assert(bytes[4 * i + 1] == element_byte(v[i], 1));
        assert(bytes[4 * i + 2] == element_byte(v[i], 2));
        assert(bytes[4 * i + 3] == element_byte(v[i], 3));
    }
    assert(decode(bytes) =~= v);
}

/// Encoding what was decoded from whole elements gives the bytes back.
pub proof fn lemma_encode_decode(bytes: Seq<u8>)
    requires
        bytes.len() % 4 == 0,
    ensures
        encode(decode(bytes)) == bytes,
        decode(bytes).len() * 4 == bytes.len(),
{
    let v = decode(bytes);
    assert forall|k: int| 0 <= k < bytes.len() implies element_byte(v[k / 4], k % 4)
        == bytes[k] by {
        let i = k / 4;
        lemma_bytes_round_trip(bytes[4 * i], bytes[4 * i + 1], bytes[4 * i + 2], bytes[4 * i + 3]);
    }
    assert(encode(v) =~= bytes);
}

/// The bytes of two sequences laid end to end are the bytes of the one laid
/// after the bytes of the other.
pub proof fn lemma_encode_concat(a: Seq<VectorElementType>, b: Seq<VectorElementType>)
    ensures
        encode(a + b) == encode(a) + encode(b),
{
    assert forall|k: int| 0 <= k < 4 * (a.len() + b.len()) implies encode(a + b)[k] == (encode(a)
        + encode(b))[k] by {
        if k >= 4 * a.len() {
            let d = k - 4 * a.len();
            assert(k / 4 == d / 4 + a.len() && k % 4 == d % 4);
        }
    }
    assert(encode(a + b) =~= encode(a) + encode(b));
}

/// Splits an element into its four bytes.
pub fn element_to_bytes(x: VectorElementType) -> (b: [u8; 4])
    ensures
        forall|k: int| 0 <= k < 4 ==> b@[k] == element_byte(x, k),
{
    [(x & 0xff) as u8, ((x >> 8) & 0xff) as u8, ((x >> 16) & 0xff) as u8, ((x >> 24) & 0xff) as u8]
}

/// Puts four bytes together into an element.
pub fn element_from_bytes(b0: u8, b1: u8, b2: u8, b3: u8) -> (x: VectorElementType)
    ensures
        x == element_of(b0, b1, b2, b3),
{
    (b0 as u32) | ((b1 as u32) << 8) | ((b2 as u32) << 16) | ((b3 as u32) << 24)
}

/// Appends the bytes of `v` to `out`.
pub fn append_encoded(out: &mut Vec<u8>, v: &Vec<VectorElementType>)
    requires
        old(out).len() + 4 * v.len() <= usize::MAX,
    ensures
        final(out)@ == old(out)@ + encode(v@),
{
    let ghost before = out@;
    let mut i: usize = 0;
    while i < v.len()
        invariant
            i <= v.len(),
            before.len() + 4 * v.len() <= usize::MAX,
            out@ == before + encode(v@.take(i as int)),
        decreases v.len() - i,
    {
        let b = element_to_bytes(v[i]);
        out.push(b[0]);
        out.push(b[1]);
        out.push(b[2]);
        out.push(b[3]);
        proof {
            let done = v@.take(i as int);
            let more = v@.take(i + 1);
            assert(more =~= done + seq![v@[i as int]]);
            lemma_encode_concat(done, seq![v@[i as int]]);
            assert(encode(seq![v@[i as int]]) =~= seq![b@[0], b@[1], b@[2], b@[3]]);
            assert(out@ =~= before + encode(more));
        }
        i += 1;
    }
    assert(v@.take(v.len() as int) =~= v@);
}

/// The bytes of a vector in the layout of the vectors file.
pub fn vf_to_u8(v: &Vec<VectorElementType>) -> (bytes: Vec<u8>)
    requires
        4 * v.len() <= usize::MAX,
    ensures
        bytes@ == encode(v@),
{
    let mut bytes: Vec<u8> = Vec::new();
    append_encoded(&mut bytes, v);
    assert(bytes@ =~= encode(v@));
    bytes
}

/// Reads `count` elements from `bytes`, the first at byte `start`.
pub fn read_elements(bytes: &Vec<u8>, start: usize, count: usize) -> (v: Vec<VectorElementType>)
    requires
        start + 4 * count <= bytes.len(),
    ensures
        v@ == decode(bytes@.subrange(start as int, start + 4 * count)),
{
    let ghost part = bytes@.subrange(start as int, start + 4 * count);
    let mut v: Vec<VectorElementType> = Vec::new();
    let mut i: usize = 0;
    while i < count
        invariant
            i <= count,
            start + 4 * count <= bytes.len(),
            part == bytes@.subrange(start as int, start + 4 * count),
            v@ == decode(part).take(i as int),
        decreases count - i,
    {
        let at: usize = start + 4 * i;
        let x = element_from_bytes(bytes[at], bytes[at + 1], bytes[at + 2], bytes[at + 3]);
        v.push(x);
        proof {
            assert(part[4 * i] == bytes@[at as int]);
            assert(part[4 * i + 1] == bytes@[at + 1]);
            assert(part[4 * i + 2] == bytes@[at + 2]);
            assert(part[4 * i + 3] == bytes@[at + 3]);
            assert(v@ =~= decode(part).take(i + 1));
        }
        i += 1;
    }
    assert(v@ =~= decode(part));
    v
}

/// The elements that a buffer of whole elements holds; `None` for a buffer
/// whose length is not a multiple of the element size.
pub fn u8_to_vf(bytes: &Vec<u8>) -> (v: Option<Vec<VectorElementType>>)
    ensures
        v is Some <==> bytes.len() % 4 == 0,
        v matches Some(elements) ==> elements@ == decode(bytes@) && encode(elements@) == bytes@,
{
    if bytes.len() % 4 != 0 {
        None
    } else {
        let elements = read_elements(bytes, 0, bytes.len() / 4);
        proof {
            assert(bytes@.subrange(0, bytes.len() as int) =~= bytes@);
            lemma_encode_decode(bytes@);
        }
        Some(elements)
    }
}

} // verus!
