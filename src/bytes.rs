//! Little-endian integers and length-prefixed strings, written to and read
//! from byte buffers through a forward-only cursor.

use vstd::bytes::*;
use vstd::prelude::*;
use vstd::slice::*;
use vstd::utf8::*;

verus! {

/// The one kind of failure of every decoder: the bytes do not hold what was
/// asked of them. `context` says which structure or field failed.
#[derive(Debug)]
pub struct ParseError {
    pub context: String,
}

/// Little-endian bytes of a 32-bit integer.
pub open spec fn u32_bytes(v: u32) -> Seq<u8> {
    spec_u32_to_le_bytes(v)
}

/// The 32-bit little-endian integer stored at `pos` (meaningful when four
/// bytes are there).
pub open spec fn u32_at(b: Seq<u8>, pos: int) -> u32 {
    spec_u32_from_le_bytes(b.subrange(pos, pos + 4))
}

/// A string as stored: the count of its UTF-8 bytes, then those bytes.
pub open spec fn str_bytes(s: Seq<char>) -> Seq<u8> {
    u32_bytes(encode_utf8(s).len() as u32) + encode_utf8(s)
}

/// A string fits the format when its UTF-8 length fits the 32-bit count.
pub open spec fn str_fits(s: Seq<char>) -> bool {
    encode_utf8(s).len() <= u32::MAX
}

/// Reading an integer at `pos`: its value and the position after it.
pub open spec fn take_u32(b: Seq<u8>, pos: int) -> Option<(u32, int)> {
    if 0 <= pos && pos + 4 <= b.len() {
        Some((u32_at(b, pos), pos + 4))
    } else {
        None
    }
}

/// Reading a string at `pos`: its characters and the position after it.
/// It fails where the buffer is too short or the bytes are not UTF-8.
pub open spec fn take_str(b: Seq<u8>, pos: int) -> Option<(Seq<char>, int)> {
    if 0 <= pos && pos + 4 <= b.len() {
        let start = pos + 4;
        let end = start + u32_at(b, pos);
        if end <= b.len() && valid_utf8(b.subrange(start, end)) {
            Some((decode_utf8(b.subrange(start, end)), end))
        } else {
            None
        }
    } else {
        None
    }
}

/// Relies on `String::from_utf8`: it accepts exactly the well-formed UTF-8
/// byte sequences and yields the characters they encode.
#[verifier::external_body]
fn string_from_utf8(v: Vec<u8>) -> (r: Option<String>)
    ensures
        r is Some <==> valid_utf8(v@),
        r matches Some(s) ==> s@ == decode_utf8(v@),
{
    String::from_utf8(v).ok()
}

/// Reads a little-endian `u32` at `*head` and moves the cursor past it.
pub fn read_u32_from_bytes(buf: &[u8], head: &mut usize) -> (r: Result<u32, ParseError>)
    ensures
        take_u32(buf@, *old(head) as int) matches Some((v, p)) ==> r == Ok::<u32, ParseError>(v)
            && *final(head) == p,
        take_u32(buf@, *old(head) as int) is None ==> r is Err && *final(head) == *old(head),
{
    let pos = *head;
    if pos > buf.len() || buf.len() - pos < 4 {
        return Err(ParseError { context: "not enough bytes for a 32-bit integer".to_string() });
    }
    let v = u32_from_le_bytes(slice_subrange(buf, pos, pos + 4));
    *head = pos + 4;
    Ok(v)
}

/// Reads a length-prefixed UTF-8 string at `*head` and moves the cursor past
/// it.
pub fn read_str_from_bytes(buf: &[u8], head: &mut usize) -> (r: Result<String, ParseError>)
    ensures
        take_str(buf@, *old(head) as int) matches Some((s, p)) ==> r matches Ok(t) && t@ == s
            && *final(head) == p,
        take_str(buf@, *old(head) as int) is None ==> r is Err && *final(head) == *old(head),
{
    let pos = *head;
    if pos > buf.len() || buf.len() - pos < 4 {
        return Err(ParseError { context: "not enough bytes for a string length".to_string() });
    }
    let n = u32_from_le_bytes(slice_subrange(buf, pos, pos + 4)) as usize;
    let start = pos + 4;
    if buf.len() - start < n {
        return Err(ParseError { context: "not enough bytes for a string".to_string() });
    }
    let raw = slice_to_vec(slice_subrange(buf, start, start + n));
    match string_from_utf8(raw) {
        Some(s) => {
            *head = start + n;
            Ok(s)
        },
        None => Err(ParseError { context: "string is not UTF-8".to_string() }),
    }
}

/// Appends the little-endian bytes of `v`.
pub fn push_u32(out: &mut Vec<u8>, v: u32)
    ensures
        final(out)@ == old(out)@ + u32_bytes(v),
{
    let mut b = u32_to_le_bytes(v);
    out.append(&mut b);
}

/// Appends `s` as a 32-bit byte count followed by its UTF-8 bytes.
pub fn push_str(out: &mut Vec<u8>, s: &str)
    requires
        str_fits(s@),
    ensures
        final(out)@ == old(out)@ + str_bytes(s@),
{
    let raw = s.as_bytes();
    push_u32(out, raw.len() as u32);
    let mut v = slice_to_vec(raw);
    out.append(&mut v);
}

} // verus!
