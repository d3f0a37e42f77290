//! Big-endian integers and length-prefixed text, the building blocks of the
//! messages on the wire, and what reading an item off a run of bytes comes
//! to.

use byteorder::{ByteOrder, NetworkEndian};
use vstd::prelude::*;
use vstd::slice::{slice_subrange, slice_to_vec};
use vstd::utf8::*;

verus! {

/// The four bytes of `n`, most significant first.
pub open spec fn u32_be(n: u32) -> Seq<u8> {
    seq![
        (n / 0x100_0000) as u8,
        ((n / 0x1_0000) % 0x100) as u8,
        ((n / 0x100) % 0x100) as u8,
        (n % 0x100) as u8,
    ]
}

/// The number whose big-endian form is the first four bytes of `bytes`.
pub open spec fn u32_from_be(bytes: Seq<u8>) -> u32 {
    (bytes[0] as int * 0x100_0000 + bytes[1] as int * 0x1_0000 + bytes[2] as int * 0x100
        + bytes[3] as int) as u32
}

/// Reading back what `u32_be` wrote gives the number again.
pub proof fn lemma_u32_be_roundtrip(n: u32)
    ensures
        u32_be(n).len() == 4,
        u32_from_be(u32_be(n)) == n,
{
    let b0: u32 = n / 0x100_0000;
    let b1: u32 = (n / 0x1_0000) % 0x100;
    let b2: u32 = (n / 0x100) % 0x100;
    let b3: u32 = n % 0x100;
    assert(b0 < 0x100 && b1 < 0x100 && b2 < 0x100 && b3 < 0x100 && n == b0 * 0x100_0000 + b1
        * 0x1_0000 + b2 * 0x100 + b3) by (bit_vector)
        requires
            b0 == n / 0x100_0000,
            b1 == (n / 0x1_0000) % 0x100,
            b2 == (n / 0x100) % 0x100,
            b3 == n % 0x100,
    ;
}

/// byteorder's `NetworkEndian::write_u32` on a buffer of four bytes: the
/// contract claims that the buffer then holds `n` most significant byte first.
#[verifier::external_body]
pub(crate) fn u32_to_be_bytes(n: u32) -> (bytes: Vec<u8>)
    ensures
        bytes@ == u32_be(n),
{
    let mut bytes = vec![0u8; 4];
    NetworkEndian::write_u32(&mut bytes, n);
    bytes
}

/// byteorder's `NetworkEndian::read_u32`: the contract claims that it reads
/// the first four bytes as a number, most significant byte first. The call
/// panics on a shorter buffer, which `requires` leaves out.
#[verifier::external_body]
pub(crate) fn u32_from_be_bytes(bytes: &[u8]) -> (n: u32)
    requires
        bytes@.len() >= 4,
    ensures
        n == u32_from_be(bytes@),
{
    NetworkEndian::read_u32(bytes)
}

/// std's `String::from_utf8`: the contract claims that it succeeds exactly on
/// well-formed UTF-8 and then returns the text that the bytes encode.
#[verifier::external_body]
pub(crate) fn string_from_utf8(bytes: Vec<u8>) -> (text: Option<String>)
    ensures
        text is Some <==> valid_utf8(bytes@),
        text matches Some(s) ==> s@ == decode_utf8(bytes@),
{
    String::from_utf8(bytes).ok()
}


/// What reading one item at an offset of a byte sequence comes to.
pub enum Parse<T> {
    /// The item, and the offset just behind it.
    Done(T, int),
    /// The bytes end before the item does.
    Short,
    /// The bytes cannot be the start of an item.
    Bad,
}

/// What reading one item at an offset of a buffer comes to.
#[derive(Debug, Clone, PartialEq, Eq)]
pub enum Scan<T> {
    /// The item, and the offset just behind it.
    Done(T, usize),
    /// The buffer ends before the item does.
    Short,
    /// The bytes cannot be the start of an item.
    Bad,
}

/// Whether a text is short enough for its length to be written in four bytes.
pub open spec fn text_fits(text: Seq<char>) -> bool {
    encode_utf8(text).len() <= u32::MAX
}

/// A text on the wire and on disk: the length of its UTF-8 form as a
/// big-endian `u32`, then the UTF-8 form itself.
pub open spec fn text_wire(text: Seq<char>) -> Seq<u8> {
    u32_be(encode_utf8(text).len() as u32) + encode_utf8(text)
}

/// The text that starts at offset `at` of `bytes`.
pub open spec fn text_at(bytes: Seq<u8>, at: int) -> Parse<Seq<char>> {
    if bytes.len() < at + 4 {
        Parse::Short
    } else {
        let n = u32_from_be(bytes.subrange(at, at + 4)) as int;
        if bytes.len() < at + 4 + n {
            Parse::Short
        } else if !valid_utf8(bytes.subrange(at + 4, at + 4 + n)) {
            Parse::Bad
        } else {
            Parse::Done(decode_utf8(bytes.subrange(at + 4, at + 4 + n)), at + 4 + n)
        }
    }
}

/// What a scan for a text says in terms of `Parse`.
pub open spec fn scan_text_view(scan: Scan<String>) -> Parse<Seq<char>> {
    match scan {
        Scan::Done(text, end) => Parse::Done(text@, end as int),
        Scan::Short => Parse::Short,
        Scan::Bad => Parse::Bad,
    }
}

/// A text that was written can be read back, whatever stands before and
/// behind it.
pub proof fn lemma_text_roundtrip(front: Seq<u8>, text: Seq<char>, back: Seq<u8>)
    requires
        text_fits(text),
    ensures
        text_at(front + text_wire(text) + back, front.len() as int) == Parse::Done(
            text,
            (front.len() + text_wire(text).len()) as int,
        ),
        text_wire(text).len() == 4 + encode_utf8(text).len(),
{
    let body = encode_utf8(text);
    let n = body.len() as u32;
    let all = front + text_wire(text) + back;
    let at = front.len() as int;
    lemma_u32_be_roundtrip(n);
    assert(all.subrange(at, at + 4) =~= u32_be(n));
    assert(all.subrange(at + 4, at + 4 + n) =~= body);
    encode_utf8_valid_utf8(text);
    encode_utf8_decode_utf8(text);
}

/// Appends `bytes` to `buf`.
pub fn append_bytes(buf: &mut Vec<u8>, bytes: &[u8])
    ensures
        final(buf)@ == old(buf)@ + bytes@,
{
    let mut i: usize = 0;
    while i < bytes.len()
        invariant
            i <= bytes@.len(),
            buf@ == old(buf)@ + bytes@.subrange(0, i as int),
        decreases bytes@.len() - i,
    {
        buf.push(bytes[i]);
        i = i + 1;
    }
    assert(bytes@.subrange(0, bytes@.len() as int) =~= bytes@);
}

/// Appends the wire form of `text` to `buf`, unless the text is too long for
/// its length prefix; says whether it did.
pub fn put_text(buf: &mut Vec<u8>, text: &String) -> (fits: bool)
    ensures
        fits == text_fits(text@),
        fits ==> final(buf)@ == old(buf)@ + text_wire(text@),
        !fits ==> final(buf)@ == old(buf)@,
{
    let body = text.as_str().as_bytes();
    if body.len() > u32::MAX as usize {
        return false;
    }
    let prefix = u32_to_be_bytes(body.len() as u32);
    append_bytes(buf, prefix.as_slice());
    append_bytes(buf, body);
    assert(buf@ =~= old(buf)@ + text_wire(text@));
    true
}

/// Reads the text that starts at offset `at` of `buf`.
pub fn take_text(buf: &[u8], at: usize) -> (scan: Scan<String>)
    requires
        at <= buf@.len(),
    ensures
        scan_text_view(scan) == text_at(buf@, at as int),
{
    if buf.len() - at < 4 {
        return Scan::Short;
    }
    let n = u32_from_be_bytes(slice_subrange(buf, at, at + 4)) as usize;
    if buf.len() - at - 4 < n {
        return Scan::Short;
    }
    let body = slice_to_vec(slice_subrange(buf, at + 4, at + 4 + n));
    match string_from_utf8(body) {
        Some(text) => Scan::Done(text, at + 4 + n),
        None => Scan::Bad,
    }
}


} // verus!
