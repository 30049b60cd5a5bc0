//! Reads of LEB128 integers and C strings out of a byte buffer, through scroll.

use vstd::prelude::*;

verus! {

#[verifier::external_type_specification]
#[verifier::external_body]
pub struct ExScrollError(scroll::Error);

/// Index of the first byte at or after `i` whose continuation bit (0x80) is
/// clear: the last byte of a LEB128 number that starts at `i`.
pub open spec fn leb_last(s: Seq<u8>, i: int) -> Option<int>
    decreases s.len() - i,
{
    if i < 0 || i >= s.len() {
        None
    } else if s[i] < 0x80 {
        Some(i)
    } else {
        leb_last(s, i + 1)
    }
}

/// The 7-bit groups of bytes `i..=last`, least significant group first.
pub open spec fn leb_groups(s: Seq<u8>, i: int, last: int) -> nat
    decreases last + 1 - i,
{
    if i > last || i < 0 || i >= s.len() {
        0
    } else {
        (s[i] % 0x80) as nat + 0x80 * leb_groups(s, i + 1, last)
    }
}

/// The unsigned LEB128 number at `i` and the index just past it. A number that
/// reaches a tenth byte must end there, with that byte 0 or 1, so that it fits
/// in 64 bits.
pub open spec fn uleb_decode(s: Seq<u8>, i: int) -> Option<(u64, int)> {
    match leb_last(s, i) {
        None => None,
        Some(last) => if last - i < 9 || (last - i == 9 && s[last] <= 1) {
            Some((leb_groups(s, i, last) as u64, last + 1))
        } else {
            None
        },
    }
}

/// 128 to the power `n`.
pub open spec fn pow128(n: nat) -> nat
    decreases n,
{
    if n == 0 {
        1
    } else {
        0x80 * pow128((n - 1) as nat)
    }
}

/// The signed LEB128 number at `i` and the index just past it. Below ten
/// bytes the value is sign-extended from bit 0x40 of its last byte. A number
/// that reaches a tenth byte must end there, with that byte 0x00 or 0x7f,
/// which gives bit 63.
pub open spec fn sleb_decode(s: Seq<u8>, i: int) -> Option<(i64, int)> {
    match leb_last(s, i) {
        None => None,
        Some(last) => if last - i < 9 {
            let g = leb_groups(s, i, last) as int;
            let v = if s[last] >= 0x40 {
                g - pow128((last - i + 1) as nat)
            } else {
                g
            };
            Some((v as i64, last + 1))
        } else if last - i == 9 && (s[last] == 0 || s[last] == 0x7f) {
            let g = leb_groups(s, i, last - 1) as int;
            let v = if s[last] == 0 {
                g
            } else {
                g - 0x8000_0000_0000_0000
            };
            Some((v as i64, last + 1))
        } else {
            None
        },
    }
}

/// Number of bytes from `i` up to the first zero byte, or up to the end.
pub open spec fn cstr_len(s: Seq<u8>, i: int) -> nat
    decreases s.len() - i,
{
    if i < 0 || i >= s.len() || s[i] == 0 {
        0
    } else {
        1 + cstr_len(s, i + 1)
    }
}

/// The bytes of the zero-terminated string at `i`, without the terminator.
pub open spec fn cstr_bytes(s: Seq<u8>, i: int) -> Seq<u8> {
    s.subrange(i, i + cstr_len(s, i))
}

/// The text that the bytes of a string read as, or `None` where they are not
/// UTF-8.
pub uninterp spec fn cstr_text(name: Seq<u8>) -> Option<Seq<char>>;

/// Relies on `scroll::Uleb128::read`: decodes the unsigned LEB128 number at
/// `*off` and moves `*off` past it; on an error `*off` is left as it was.
#[verifier::external_body]
pub(crate) fn read_uleb(data: &[u8], off: &mut usize) -> (r: Result<u64, scroll::Error>)
    ensures
        match uleb_decode(data@, *old(off) as int) {
            Some((v, next)) => r matches Ok(x) && x == v && *final(off) as int == next,
            None => r is Err && *final(off) == *old(off),
        },
{
    scroll::Uleb128::read(data, off)
}

/// Relies on `scroll::Sleb128::read`: decodes the signed LEB128 number at
/// `*off` and moves `*off` past it; on an error `*off` is left as it was.
#[verifier::external_body]
pub(crate) fn read_sleb(data: &[u8], off: &mut usize) -> (r: Result<i64, scroll::Error>)
    ensures
        match sleb_decode(data@, *old(off) as int) {
            Some((v, next)) => r matches Ok(x) && x == v && *final(off) as int == next,
            None => r is Err && *final(off) == *old(off),
        },
{
    scroll::Sleb128::read(data, off)
}

/// Relies on `scroll::Pread::gread` of a `&str` with the default zero
/// delimiter: the string runs from `*off` to the first zero byte or the end of
/// the buffer, and `*off` moves past it and one byte more. It fails where
/// `*off` lies past the end or the bytes are not UTF-8, and `*off` is then
/// left as it was.
#[verifier::external_body]
pub(crate) fn read_cstr<'a>(data: &'a [u8], off: &mut usize) -> (r: Result<&'a str, scroll::Error>)
    ensures
        *old(off) > data@.len() ==> r is Err && *final(off) == *old(off),
        *old(off) <= data@.len() ==> match cstr_text(cstr_bytes(data@, *old(off) as int)) {
            Some(t) => r matches Ok(x) && x@ == t && *final(off) as int == *old(off) + cstr_len(
                data@,
                *old(off) as int,
            ) + 1,
            None => r is Err && *final(off) == *old(off),
        },
{
    scroll::Pread::gread::<&str>(data, off)
}

} // verus!
