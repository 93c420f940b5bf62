use vstd::prelude::*;
use vstd::utf8::*;

verus! {

/// The byte that ends a text field.
pub const NEWLINE: u8 = 10;

/// The length of a frame tag.
pub const TAG_LEN: usize = 8;

/// A frame tag: `FLO_` followed by three letters and a newline.
pub open spec fn tag(k0: u8, k1: u8, k2: u8) -> Seq<u8> {
    seq![70u8, 76u8, 79u8, 95u8, k0, k1, k2, 10u8]
}

/// Whether `b` begins with the given tag.
pub fn has_tag(b: &[u8], k0: u8, k1: u8, k2: u8) -> (r: bool)
    ensures
        r == (b@.len() >= 8 && b@.subrange(0, 8) == tag(k0, k1, k2)),
{
    if b.len() < TAG_LEN {
        return false;
    }
    let r = b[0] == 70 && b[1] == 76 && b[2] == 79 && b[3] == 95 && b[4] == k0 && b[5] == k1
        && b[6] == k2 && b[7] == 10;
    assert(r == (b@.subrange(0, 8) =~= tag(k0, k1, k2)));
    r
}

/// Appends a tag.
pub fn push_tag(out: &mut Vec<u8>, k0: u8, k1: u8, k2: u8)
    ensures
        final(out)@ == old(out)@ + tag(k0, k1, k2),
{
    out.push(70);
    out.push(76);
    out.push(79);
    out.push(95);
    out.push(k0);
    out.push(k1);
    out.push(k2);
    out.push(10);
    assert(final(out)@ =~= old(out)@ + tag(k0, k1, k2));
}

/// A big-endian `u16` at position `i`.
pub open spec fn u16_at(b: Seq<u8>, i: int) -> u16 {
    ((b[i] as u16) << 8u16) | (b[i + 1] as u16)
}

/// A big-endian `u32` at position `i`.
pub open spec fn u32_at(b: Seq<u8>, i: int) -> u32 {
    ((b[i] as u32) << 24u32) | ((b[i + 1] as u32) << 16u32) | ((b[i + 2] as u32) << 8u32) | (b[i
        + 3] as u32)
}

/// A big-endian `u64` at position `i`.
pub open spec fn u64_at(b: Seq<u8>, i: int) -> u64 {
    ((b[i] as u64) << 56u64) | ((b[i + 1] as u64) << 48u64) | ((b[i + 2] as u64) << 40u64) | ((b[i
        + 3] as u64) << 32u64) | ((b[i + 4] as u64) << 24u64) | ((b[i + 5] as u64) << 16u64) | ((b[i
        + 6] as u64) << 8u64) | (b[i + 7] as u64)
}

/// The big-endian bytes of a `u16`.
pub open spec fn u16_bytes(x: u16) -> Seq<u8> {
    seq![((x >> 8u16) & 0xffu16) as u8, (x & 0xffu16) as u8]
}

/// The big-endian bytes of a `u32`.
pub open spec fn u32_bytes(x: u32) -> Seq<u8> {
    seq![
        ((x >> 24u32) & 0xffu32) as u8,
        ((x >> 16u32) & 0xffu32) as u8,
        ((x >> 8u32) & 0xffu32) as u8,
        (x & 0xffu32) as u8,
    ]
}

/// The big-endian bytes of a `u64`.
pub open spec fn u64_bytes(x: u64) -> Seq<u8> {
    seq![
        ((x >> 56u64) & 0xffu64) as u8,
        ((x >> 48u64) & 0xffu64) as u8,
        ((x >> 40u64) & 0xffu64) as u8,
        ((x >> 32u64) & 0xffu64) as u8,
        ((x >> 24u64) & 0xffu64) as u8,
        ((x >> 16u64) & 0xffu64) as u8,
        ((x >> 8u64) & 0xffu64) as u8,
        (x & 0xffu64) as u8,
    ]
}

pub fn read_u16(b: &[u8], i: usize) -> (r: u16)
    requires
        i + 2 <= b@.len(),
    ensures
        r == u16_at(b@, i as int),
{
    ((b[i] as u16) << 8u16) | (b[i + 1] as u16)
}

pub fn read_u32(b: &[u8], i: usize) -> (r: u32)
    requires
        i + 4 <= b@.len(),
    ensures
        r == u32_at(b@, i as int),
{
    ((b[i] as u32) << 24u32) | ((b[i + 1] as u32) << 16u32) | ((b[i + 2] as u32) << 8u32) | (b[i
        + 3] as u32)
}

pub fn read_u64(b: &[u8], i: usize) -> (r: u64)
    requires
        i + 8 <= b@.len(),
    ensures
        r == u64_at(b@, i as int),
{
    ((b[i] as u64) << 56u64) | ((b[i + 1] as u64) << 48u64) | ((b[i + 2] as u64) << 40u64) | ((b[i
        + 3] as u64) << 32u64) | ((b[i + 4] as u64) << 24u64) | ((b[i + 5] as u64) << 16u64) | ((b[i
        + 6] as u64) << 8u64) | (b[i + 7] as u64)
}

pub fn push_u16(out: &mut Vec<u8>, x: u16)
    ensures
        final(out)@ == old(out)@ + u16_bytes(x),
{
    out.push(((x >> 8u16) & 0xffu16) as u8);
    out.push((x & 0xffu16) as u8);
    assert(final(out)@ =~= old(out)@ + u16_bytes(x));
}

pub fn push_u32(out: &mut Vec<u8>, x: u32)
    ensures
        final(out)@ == old(out)@ + u32_bytes(x),
{
    out.push(((x >> 24u32) & 0xffu32) as u8);
    out.push(((x >> 16u32) & 0xffu32) as u8);
    out.push(((x >> 8u32) & 0xffu32) as u8);
    out.push((x & 0xffu32) as u8);
    assert(final(out)@ =~= old(out)@ + u32_bytes(x));
}

pub fn push_u64(out: &mut Vec<u8>, x: u64)
    ensures
        final(out)@ == old(out)@ + u64_bytes(x),
{
    out.push(((x >> 56u64) & 0xffu64) as u8);
    out.push(((x >> 48u64) & 0xffu64) as u8);
    out.push(((x >> 40u64) & 0xffu64) as u8);
    out.push(((x >> 32u64) & 0xffu64) as u8);
    out.push(((x >> 24u64) & 0xffu64) as u8);
    out.push(((x >> 16u64) & 0xffu64) as u8);
    out.push(((x >> 8u64) & 0xffu64) as u8);
    out.push((x & 0xffu64) as u8);
    assert(final(out)@ =~= old(out)@ + u64_bytes(x));
}

/// Reading back the bytes of an integer gives the integer.
pub proof fn lemma_u16_round_trip(x: u16, b: Seq<u8>, i: int)
    requires
        0 <= i,
        i + 2 <= b.len(),
        b.subrange(i, i + 2) == u16_bytes(x),
    ensures
        u16_at(b, i) == x,
{
    assert(b[i] == u16_bytes(x)[0]);
    assert(b[i + 1] == u16_bytes(x)[1]);
    let b0 = ((x >> 8u16) & 0xffu16) as u8;
    let b1 = (x & 0xffu16) as u8;
    assert((((b0 as u16) << 8u16) | (b1 as u16)) == x) by (bit_vector)
        requires
            b0 == ((x >> 8u16) & 0xffu16) as u8,
            b1 == (x & 0xffu16) as u8,
    ;
}

pub proof fn lemma_u32_round_trip(x: u32, b: Seq<u8>, i: int)
    requires
        0 <= i,
        i + 4 <= b.len(),
        b.subrange(i, i + 4) == u32_bytes(x),
    ensures
        u32_at(b, i) == x,
{
    assert(b[i] == u32_bytes(x)[0]);
    assert(b[i + 1] == u32_bytes(x)[1]);
    assert(b[i + 2] == u32_bytes(x)[2]);
    assert(b[i + 3] == u32_bytes(x)[3]);
    let b0 = ((x >> 24u32) & 0xffu32) as u8;
    let b1 = ((x >> 16u32) & 0xffu32) as u8;
    let b2 = ((x >> 8u32) & 0xffu32) as u8;
    let b3 = (x & 0xffu32) as u8;
    assert((((b0 as u32) << 24u32) | ((b1 as u32) << 16u32) | ((b2 as u32) << 8u32) | (b3 as u32))
        == x) by (bit_vector)
        requires
            b0 == ((x >> 24u32) & 0xffu32) as u8,
            b1 == ((x >> 16u32) & 0xffu32) as u8,
            b2 == ((x >> 8u32) & 0xffu32) as u8,
            b3 == (x & 0xffu32) as u8,
    ;
}

pub proof fn lemma_u64_round_trip(x: u64, b: Seq<u8>, i: int)
    requires
        0 <= i,
        i + 8 <= b.len(),
        b.subrange(i, i + 8) == u64_bytes(x),
    ensures
        u64_at(b, i) == x,
{
    assert(b[i] == u64_bytes(x)[0]);
    assert(b[i + 1] == u64_bytes(x)[1]);
    assert(b[i + 2] == u64_bytes(x)[2]);
    assert(b[i + 3] == u64_bytes(x)[3]);
    assert(b[i + 4] == u64_bytes(x)[4]);
    assert(b[i + 5] == u64_bytes(x)[5]);
    assert(b[i + 6] == u64_bytes(x)[6]);
    assert(b[i + 7] == u64_bytes(x)[7]);
    let b0 = ((x >> 56u64) & 0xffu64) as u8;
    let b1 = ((x >> 48u64) & 0xffu64) as u8;
    let b2 = ((x >> 40u64) & 0xffu64) as u8;
    let b3 = ((x >> 32u64) & 0xffu64) as u8;
    let b4 = ((x >> 24u64) & 0xffu64) as u8;
    let b5 = ((x >> 16u64) & 0xffu64) as u8;
    let b6 = ((x >> 8u64) & 0xffu64) as u8;
    let b7 = (x & 0xffu64) as u8;
    assert((((b0 as u64) << 56u64) | ((b1 as u64) << 48u64) | ((b2 as u64) << 40u64) | ((b3 as u64)
        << 32u64) | ((b4 as u64) << 24u64) | ((b5 as u64) << 16u64) | ((b6 as u64) << 8u64) | (b7
        as u64)) == x) by (bit_vector)
        requires
            b0 == ((x >> 56u64) & 0xffu64) as u8,
            b1 == ((x >> 48u64) & 0xffu64) as u8,
            b2 == ((x >> 40u64) & 0xffu64) as u8,
            b3 == ((x >> 32u64) & 0xffu64) as u8,
            b4 == ((x >> 24u64) & 0xffu64) as u8,
            b5 == ((x >> 16u64) & 0xffu64) as u8,
            b6 == ((x >> 8u64) & 0xffu64) as u8,
            b7 == (x & 0xffu64) as u8,
    ;
}

/// `j` is the first newline at or after `start`.
pub open spec fn is_line_end(b: Seq<u8>, start: int, j: int) -> bool {
    &&& start <= j < b.len()
    &&& b[j] == NEWLINE
    &&& forall|k: int| start <= k < j ==> b[k] != NEWLINE
}

pub open spec fn has_line_end(b: Seq<u8>, start: int) -> bool {
    exists|j: int| is_line_end(b, start, j)
}

pub open spec fn line_end(b: Seq<u8>, start: int) -> int {
    choose|j: int| is_line_end(b, start, j)
}

/// There is at most one first newline.
pub proof fn lemma_line_end_unique(b: Seq<u8>, start: int, j: int)
    requires
        is_line_end(b, start, j),
    ensures
        has_line_end(b, start),
        line_end(b, start) == j,
{
    let k = line_end(b, start);
    assert(is_line_end(b, start, k));
    if k < j {
        assert(b[k] != NEWLINE);
    } else if j < k {
        assert(b[j] != NEWLINE);
    }
}

/// The position of the first newline at or after `start`, if any.
pub fn find_newline(b: &[u8], start: usize) -> (r: Option<usize>)
    requires
        start <= b@.len(),
    ensures
        r is None <==> !has_line_end(b@, start as int),
        r matches Some(j) ==> is_line_end(b@, start as int, j as int) && line_end(b@, start as int)
            == j,
{
    let mut i = start;
    while i < b.len()
        invariant
            start <= i <= b@.len(),
            forall|k: int| start <= k < i ==> b@[k] != NEWLINE,
        decreases b@.len() - i,
    {
        if b[i] == NEWLINE {
            proof {
                lemma_line_end_unique(b@, start as int, i as int);
            }
            return Some(i);
        }
        i = i + 1;
    }
    assert forall|j: int| !is_line_end(b@, start as int, j) by {}
    None
}

/// Whether the UTF-8 encoding of `s` holds no newline byte.
pub open spec fn line_safe(s: Seq<char>) -> bool {
    forall|i: int| 0 <= i < encode_utf8(s).len() ==> encode_utf8(s)[i] != NEWLINE
}

/// Relies on `std::str::from_utf8`: it accepts exactly the well-formed UTF-8
/// byte sequences, and the string it returns holds those same bytes.
#[verifier::external_body]
fn utf8_string(v: &[u8]) -> (r: Option<String>)
    ensures
        r is Some <==> valid_utf8(v@),
        r matches Some(s) ==> encode_utf8(s@) == v@,
{
    match std::str::from_utf8(v) {
        Ok(s) => Some(s.to_owned()),
        Err(_) => None,
    }
}

/// The text between `start` and `end`, if it is well-formed UTF-8.
pub fn text_at(b: &[u8], start: usize, end: usize) -> (r: Option<String>)
    requires
        start <= end <= b@.len(),
    ensures
        r is Some <==> valid_utf8(b@.subrange(start as int, end as int)),
        r matches Some(s) ==> s@ == decode_utf8(b@.subrange(start as int, end as int)),
{
    let part = vstd::slice::slice_subrange(b, start, end);
    let r = utf8_string(part);
    proof {
        if r is Some {
            encode_utf8_decode_utf8(r->Some_0@);
        }
    }
    r
}

/// Appends the UTF-8 encoding of a string followed by a newline.
pub fn push_line(out: &mut Vec<u8>, s: &str)
    ensures
        final(out)@ == old(out)@ + encode_utf8(s@) + seq![NEWLINE],
{
    let bytes = s.as_bytes();
    let mut i: usize = 0;
    let ghost start = out@;
    while i < bytes.len()
        invariant
            i <= bytes@.len(),
            bytes@ == encode_utf8(s@),
            out@ == start + bytes@.subrange(0, i as int),
        decreases bytes@.len() - i,
    {
        out.push(bytes[i]);
        i = i + 1;
        assert(out@ =~= start + bytes@.subrange(0, i as int));
    }
    out.push(NEWLINE);
    assert(bytes@.subrange(0, bytes@.len() as int) =~= bytes@);
    assert(out@ =~= start + encode_utf8(s@) + seq![NEWLINE]);
}

/// Appends a byte string.
pub fn push_bytes(out: &mut Vec<u8>, b: &[u8])
    ensures
        final(out)@ == old(out)@ + b@,
{
    let mut i: usize = 0;
    let ghost start = out@;
    while i < b.len()
        invariant
            i <= b@.len(),
            out@ == start + b@.subrange(0, i as int),
        decreases b@.len() - i,
    {
        out.push(b[i]);
        i = i + 1;
        assert(out@ =~= start + b@.subrange(0, i as int));
    }
    assert(b@.subrange(0, b@.len() as int) =~= b@);
}

} // verus!
