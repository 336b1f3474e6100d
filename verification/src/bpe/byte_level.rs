//! The byte-level alphabet: each byte value as one printable character.
use vstd::prelude::*;

verus! {

/// The code point that stands for a byte. Printable bytes stand for
/// themselves; the others follow from U+0100 on, in order.
pub open spec fn byte_codepoint(b: u8) -> u32 {
    if b <= 32 {
        (256 + b) as u32
    } else if b < 127 {
        b as u32
    } else if b <= 160 {
        (b + 162) as u32
    } else if b == 173 {
        323
    } else {
        b as u32
    }
}

/// The code point of the character that stands for a byte.
pub fn byte_to_codepoint(b: u8) -> (cp: u32)
    ensures
        cp == byte_codepoint(b),
{
    if b <= 32 {
        256 + b as u32
    } else if b < 127 {
        b as u32
    } else if b <= 160 {
        b as u32 + 162
    } else if b == 173 {
        323
    } else {
        b as u32
    }
}

/// The byte that a character stands for.
pub fn char_byte(c: char) -> (r: Option<u8>)
    ensures
        match r {
            Some(b) => byte_codepoint(b) == c as u32,
            None => forall|b: u8| #[trigger] byte_codepoint(b) != c as u32,
        },
{
    let cp: u32 = c as u32;
    if 33 <= cp && cp <= 126 || 161 <= cp && cp <= 172 || 174 <= cp && cp <= 255 {
        Some(cp as u8)
    } else if 256 <= cp && cp <= 288 {
        Some((cp - 256) as u8)
    } else if 289 <= cp && cp <= 322 {
        Some((cp - 162) as u8)
    } else if cp == 323 {
        Some(173)
    } else {
        None
    }
}

/// Different bytes stand for different characters.
pub proof fn law_byte_codepoints_differ(a: u8, b: u8)
    requires
        byte_codepoint(a) == byte_codepoint(b),
    ensures
        a == b,
{
}

/// The position of a byte among all bytes in the order of their code points.
pub open spec fn codepoint_rank(b: u8) -> u32 {
    if b <= 32 {
        (188 + b) as u32
    } else if b < 127 {
        (b - 33) as u32
    } else if b <= 160 {
        (b + 94) as u32
    } else if b < 173 {
        (b - 67) as u32
    } else if b == 173 {
        255
    } else {
        (b - 68) as u32
    }
}

/// The position of a byte among all bytes in the order of their code points.
pub fn byte_rank(b: u8) -> (r: u32)
    ensures
        r == codepoint_rank(b),
{
    let x: u32 = b as u32;
    if b <= 32 {
        188 + x
    } else if b < 127 {
        x - 33
    } else if b <= 160 {
        x + 94
    } else if b < 173 {
        x - 67
    } else if b == 173 {
        255
    } else {
        x - 68
    }
}

/// Ranks are below 256 and order the bytes by their code points.
pub proof fn law_rank_is_codepoint_order(a: u8, b: u8)
    ensures
        codepoint_rank(a) < 256,
        (codepoint_rank(a) < codepoint_rank(b)) == (byte_codepoint(a) < byte_codepoint(b)),
        codepoint_rank(a) == codepoint_rank(b) ==> a == b,
{
}

} // verus!
