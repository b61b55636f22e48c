//! Bytes: texts in UTF-8 and little-endian dumps of numbers.

use vstd::prelude::*;
use vstd::utf8::{decode_utf8, valid_utf8};

use crate::ieee::Single;

verus! {

/// `std::str::from_utf8`: the text that the bytes encode, if they are valid UTF-8.
#[verifier::external_body]
pub(crate) fn from_utf8(bytes: &[u8]) -> (r: Option<String>)
    ensures
        r is Some <==> valid_utf8(bytes@),
        r matches Some(s) ==> s@ == decode_utf8(bytes@),
{
    std::str::from_utf8(bytes).ok().map(String::from)
}

/// What `String::from_utf8_lossy` makes of some bytes. Which runs of bytes become one
/// replacement character each takes long to say.
pub uninterp spec fn lossy(bytes: Seq<u8>) -> Seq<char>;

/// `String::from_utf8_lossy`: the text that the bytes encode where they are valid UTF-8, and
/// otherwise what [`lossy`] names.
#[verifier::external_body]
pub(crate) fn from_utf8_lossy(bytes: &[u8]) -> (r: String)
    ensures
        r@ == lossy(bytes@),
        valid_utf8(bytes@) ==> r@ == decode_utf8(bytes@),
{
    String::from_utf8_lossy(bytes).into_owned()
}

/// The single-precision number whose four bytes start at `i`, lowest byte first.
pub open spec fn single_at(bytes: Seq<u8>, i: int) -> Single {
    Single {
        bits: (bytes[i] + 0x100 * bytes[i + 1] + 0x1_0000 * bytes[i + 2] + 0x100_0000 * bytes[i + 3]) as u32,
    }
}

/// The numbers of a little-endian single-precision dump. Up to three bytes at the end are left
/// out.
pub open spec fn singles_of(bytes: Seq<u8>) -> Seq<Single> {
    Seq::new(bytes.len() / 4, |i: int| single_at(bytes, 4 * i))
}

/// Reads one single-precision number, lowest byte first.
pub fn read_single(bytes: &[u8], i: usize) -> (r: Single)
    requires
        i + 4 <= bytes@.len(),
    ensures
        r == single_at(bytes@, i as int),
{
    Single {
        bits: bytes[i] as u32 + 0x100 * bytes[i + 1] as u32 + 0x1_0000 * bytes[i + 2] as u32
            + 0x100_0000 * bytes[i + 3] as u32,
    }
}

/// Reads a little-endian single-precision dump.
pub fn bytes_to_f32(raw: &[u8]) -> (r: Vec<Single>)
    ensures
        r@ == singles_of(raw@),
{
    let mut r: Vec<Single> = Vec::new();
    let n: usize = raw.len() / 4;
    for i in 0..n
        invariant
            n == raw.len() / 4,
            r@ == singles_of(raw@).take(i as int),
    {
        r.push(read_single(raw, 4 * i));
        assert(r@ =~= singles_of(raw@).take(i + 1));
    }
    assert(singles_of(raw@).take(n as int) =~= singles_of(raw@));
    r
}

/// Byte number `k` of a number, the lowest being number 0.
pub open spec fn single_byte(x: Single, k: int) -> u8 {
    if k == 0 {
        (x.bits % 0x100) as u8
    } else if k == 1 {
        (x.bits / 0x100 % 0x100) as u8
    } else if k == 2 {
        (x.bits / 0x1_0000 % 0x100) as u8
    } else {
        (x.bits / 0x100_0000) as u8
    }
}

/// The little-endian dump of some numbers.
pub open spec fn single_bytes(v: Seq<Single>) -> Seq<u8> {
    Seq::new(4 * v.len(), |i: int| single_byte(v[i / 4], i % 4))
}

/// Writes a little-endian single-precision dump.
pub fn f32_to_bytes(v: &Vec<Single>) -> (r: Vec<u8>)
    ensures
        r@ == single_bytes(v@),
{
    let mut r: Vec<u8> = Vec::new();
    for i in 0..v.len()
        invariant
            r@ == single_bytes(v@).take(4 * i),
    {
        let bits: u32 = v[i].bits;
        r.push((bits % 0x100) as u8);
        r.push((bits / 0x100 % 0x100) as u8);
        r.push((bits / 0x1_0000 % 0x100) as u8);
        r.push((bits / 0x100_0000) as u8);
        assert(r@ =~= single_bytes(v@).take(4 * (i + 1)));
    }
    assert(single_bytes(v@).take(4 * v@.len() as int) =~= single_bytes(v@));
    r
}

/// Numbers that are dumped read back as themselves, bit for bit.
pub proof fn lemma_dump_reads_back(v: Seq<Single>)
    ensures
        singles_of(single_bytes(v)) == v,
{
    let b = single_bytes(v);
    assert forall|i: int| 0 <= i < v.len() implies single_at(b, 4 * i) == v[i] by {
        assert(b[4 * i] == single_byte(v[i], 0));
        assert(b[4 * i + 1] == single_byte(v[i], 1));
        assert(b[4 * i + 2] == single_byte(v[i], 2));
        assert(b[4 * i + 3] == single_byte(v[i], 3));
    }
    assert(singles_of(b) =~= v);
}

/// Numbers are stored with their least significant byte first.
pub proof fn lemma_least_significant_byte_first(bytes: Seq<u8>, v: Seq<Single>, i: int)
    requires
        bytes.len() >= 4,
        0 <= i < v.len(),
    ensures
        ({
            let x = single_at(bytes, 0).bits;
            &&& x % 0x100 == bytes[0]
            &&& x / 0x100 % 0x100 == bytes[1]
            &&& x / 0x1_0000 % 0x100 == bytes[2]
            &&& x / 0x100_0000 == bytes[3]
        }),
        ({
            let b = single_bytes(v);
            v[i].bits == b[4 * i] + 0x100 * b[4 * i + 1] + 0x1_0000 * b[4 * i + 2] + 0x100_0000
                * b[4 * i + 3]
        }),
{
    let b = single_bytes(v);
    assert(b[4 * i] == single_byte(v[i], 0));
    assert(b[4 * i + 1] == single_byte(v[i], 1));
    assert(b[4 * i + 2] == single_byte(v[i], 2));
    assert(b[4 * i + 3] == single_byte(v[i], 3));
}

} // verus!
