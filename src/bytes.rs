//! Reads at absolute positions in a byte buffer: big-endian integers and
//! NUL-terminated strings. Every read is bounds-checked and fails with
//! `Truncated` past the end of the buffer.
use crate::errors::CDMachError;
use crate::primitives::utf8_str;
use vstd::prelude::*;
use vstd::slice::slice_subrange;
use vstd::utf8::{decode_utf8, valid_utf8};

verus! {

broadcast use vstd::utf8::encode_utf8_decode_utf8;

/// The big-endian `u32` in the four bytes at `p`.
pub open spec fn be_u32(b: Seq<u8>, p: int) -> u32 {
    (b[p] as int * 0x100_0000 + b[p + 1] as int * 0x1_0000 + b[p + 2] as int * 0x100 + b[p
        + 3] as int) as u32
}

/// The big-endian `u64` in the eight bytes at `p`.
pub open spec fn be_u64(b: Seq<u8>, p: int) -> u64 {
    (be_u32(b, p) as int * 0x1_0000_0000 + be_u32(b, p + 4) as int) as u64
}

/// A read of `n` bytes at `p` stays inside the buffer.
pub open spec fn fits(b: Seq<u8>, p: int, n: int) -> bool {
    0 <= p && p + n <= b.len()
}

pub open spec fn read_u8_spec(b: Seq<u8>, p: int) -> Result<u8, CDMachError> {
    if fits(b, p, 1) {
        Ok(b[p])
    } else {
        Err(CDMachError::Truncated)
    }
}

pub open spec fn read_u32_spec(b: Seq<u8>, p: int) -> Result<u32, CDMachError> {
    if fits(b, p, 4) {
        Ok(be_u32(b, p))
    } else {
        Err(CDMachError::Truncated)
    }
}

pub open spec fn read_u64_spec(b: Seq<u8>, p: int) -> Result<u64, CDMachError> {
    if fits(b, p, 8) {
        Ok(be_u64(b, p))
    } else {
        Err(CDMachError::Truncated)
    }
}

/// Reads the byte at `pos`.
pub fn read_u8_at(buf: &[u8], pos: u64) -> (r: Result<u8, CDMachError>)
    ensures
        r == read_u8_spec(buf@, pos as int),
{
    if pos >= buf.len() as u64 {
        return Err(CDMachError::Truncated);
    }
    Ok(buf[pos as usize])
}

/// The big-endian `u32` at `pos`, which the caller knows to be in the buffer.
pub fn get_u32(buf: &[u8], pos: u64) -> (r: u32)
    requires
        fits(buf@, pos as int, 4),
    ensures
        r == be_u32(buf@, pos as int),
{
    let p = pos as usize;
    (buf[p] as u32) * 0x100_0000 + (buf[p + 1] as u32) * 0x1_0000 + (buf[p + 2] as u32) * 0x100
        + buf[p + 3] as u32
}

/// The big-endian `u64` at `pos`, which the caller knows to be in the buffer.
pub fn get_u64(buf: &[u8], pos: u64) -> (r: u64)
    requires
        fits(buf@, pos as int, 8),
    ensures
        r == be_u64(buf@, pos as int),
{
    let _len = buf.len();
    (get_u32(buf, pos) as u64) * 0x1_0000_0000 + get_u32(buf, pos + 4) as u64
}

/// Reads the big-endian `u32` at `pos`.
pub fn read_u32_at(buf: &[u8], pos: u64) -> (r: Result<u32, CDMachError>)
    ensures
        r == read_u32_spec(buf@, pos as int),
{
    let len = buf.len() as u64;
    if len < 4 || pos > len - 4 {
        return Err(CDMachError::Truncated);
    }
    Ok(get_u32(buf, pos))
}

/// Reads the big-endian `u64` at `pos`.
pub fn read_u64_at(buf: &[u8], pos: u64) -> (r: Result<u64, CDMachError>)
    ensures
        r == read_u64_spec(buf@, pos as int),
{
    let len = buf.len() as u64;
    if len < 8 || pos > len - 8 {
        return Err(CDMachError::Truncated);
    }
    Ok(get_u64(buf, pos))
}

/// `e` is the first NUL byte at or after `p`.
pub open spec fn first_nul(b: Seq<u8>, p: int, e: int) -> bool {
    0 <= p <= e < b.len() && b[e] == 0 && forall|k: int| p <= k < e ==> b[k] != 0
}

/// Decodes `bytes` as UTF-8 text.
pub open spec fn utf8_text(bytes: Seq<u8>) -> Result<Seq<char>, CDMachError> {
    if valid_utf8(bytes) {
        Ok(decode_utf8(bytes))
    } else {
        Err(CDMachError::InvalidUtf8)
    }
}

/// The text of the NUL-terminated string at `p`: the bytes before the first NUL,
/// decoded as UTF-8. With no NUL before the end of the buffer the read is truncated.
pub open spec fn string_at_spec(b: Seq<u8>, p: int) -> Result<Seq<char>, CDMachError> {
    if exists|e: int| first_nul(b, p, e) {
        let e = choose|e: int| first_nul(b, p, e);
        utf8_text(b.subrange(p, e))
    } else {
        Err(CDMachError::Truncated)
    }
}

/// The view of a fallible result.
pub open spec fn viewed<T: View>(r: Result<T, CDMachError>) -> Result<T::V, CDMachError> {
    match r {
        Ok(v) => Ok(v@),
        Err(e) => Err(e),
    }
}

/// Reads the NUL-terminated UTF-8 string at `pos`, without its terminator.
pub fn read_string_to_nul(buf: &[u8], pos: u64) -> (r: Result<String, CDMachError>)
    ensures
        viewed(r) == string_at_spec(buf@, pos as int),
{
    let len = buf.len() as u64;
    if pos >= len {
        proof {
            assert(!exists|e: int| first_nul(buf@, pos as int, e));
        }
        return Err(CDMachError::Truncated);
    }
    let mut i: u64 = pos;
    while i < len && buf[i as usize] != 0
        invariant
            pos <= i <= len,
            len == buf@.len(),
            forall|k: int| pos <= k < i ==> buf@[k] != 0,
        decreases len - i,
    {
        i = i + 1;
    }
    if i == len {
        proof {
            assert(!exists|e: int| first_nul(buf@, pos as int, e));
        }
        return Err(CDMachError::Truncated);
    }
    proof {
        assert(first_nul(buf@, pos as int, i as int));
        let e = choose|e: int| first_nul(buf@, pos as int, e);
        assert(e == i as int) by {
            if e < i as int {
                assert(buf@[e] != 0);
            } else if e > i as int {
                assert(buf@[i as int] != 0);
            }
        }
    }
    let bytes = slice_subrange(buf, pos as usize, i as usize);
    match utf8_str(bytes) {
        Some(s) => {
            proof {
                assert(s@ == decode_utf8(bytes@));
            }
            Ok(s.to_owned())
        },
        None => Err(CDMachError::InvalidUtf8),
    }
}

} // verus!
