//! UTF-8 validation of byte strings, against vstd's definition of
//! well-formed UTF-8.
use vstd::prelude::*;
use vstd::utf8::{
    valid_utf8, valid_first_scalar, length_of_first_scalar, pop_first_scalar,
    decode_first_codepoint,
};

verus! {

/// The length of the well-formed scalar that `s` holds at `i`, or 0 when the
/// bytes there are not one.
fn first_scalar_len(s: &[u8], i: usize) -> (r: usize)
    requires
        i < s@.len(),
    ensures
        r == 0 <==> !valid_first_scalar(s@.skip(i as int)),
        r != 0 ==> r == length_of_first_scalar(s@.skip(i as int)),
{
    let ghost t = s@.skip(i as int);
    let n = s.len() - i;
    let b0 = s[i];
    assert(t[0] == b0);
    if b0 <= 0x7f {
        assert(decode_first_codepoint(t) == (b0 & 0x7f) as u32);
        assert((b0 & 0x7f) as u32 <= 0x7f) by (bit_vector);
        1
    } else if 0xc0 <= b0 && b0 <= 0xdf {
        if n < 2 {
            return 0;
        }
        let b1 = s[i + 1];
        assert(t[1] == b1);
        if !(0x80 <= b1 && b1 <= 0xbf) {
            return 0;
        }
        let cp: u32 = (((b0 & 0x1f) as u32) << 6u32) | ((b1 & 0x3f) as u32);
        assert(decode_first_codepoint(t) == cp);
        if cp < 0x80 || (0xd800 <= cp && cp <= 0xdfff) {
            0
        } else {
            2
        }
    } else if 0xe0 <= b0 && b0 <= 0xef {
        if n < 3 {
            return 0;
        }
        let b1 = s[i + 1];
        let b2 = s[i + 2];
        assert(t[1] == b1 && t[2] == b2);
        if !(0x80 <= b1 && b1 <= 0xbf) || !(0x80 <= b2 && b2 <= 0xbf) {
            return 0;
        }
        let cp: u32 = (((b0 & 0x0f) as u32) << 12u32) | (((b1 & 0x3f) as u32) << 6u32) | ((b2
            & 0x3f) as u32);
        assert(decode_first_codepoint(t) == cp);
        if cp < 0x800 || (0xd800 <= cp && cp <= 0xdfff) {
            0
        } else {
            3
        }
    } else if 0xf0 <= b0 && b0 <= 0xf7 {
        if n < 4 {
            return 0;
        }
        let b1 = s[i + 1];
        let b2 = s[i + 2];
        let b3 = s[i + 3];
        assert(t[1] == b1 && t[2] == b2 && t[3] == b3);
        if !(0x80 <= b1 && b1 <= 0xbf) || !(0x80 <= b2 && b2 <= 0xbf) || !(0x80 <= b3 && b3
            <= 0xbf) {
            return 0;
        }
        let cp: u32 = (((b0 & 0x07) as u32) << 18u32) | (((b1 & 0x3f) as u32) << 12u32) | (((
        b2 & 0x3f) as u32) << 6u32) | ((b3 & 0x3f) as u32);
        assert(decode_first_codepoint(t) == cp);
        if cp < 0x10000 || cp > 0x10ffff || (0xd800 <= cp && cp <= 0xdfff) {
            0
        } else {
            4
        }
    } else {
        0
    }
}

/// Whether a byte string is well-formed UTF-8.
pub fn is_valid_utf8(s: &[u8]) -> (r: bool)
    ensures
        r == valid_utf8(s@),
{
    let n = s.len();
    let mut i: usize = 0;
    assert(s@.skip(0) =~= s@);
    while i < n
        invariant
            i <= n,
            n == s@.len(),
            valid_utf8(s@) == valid_utf8(s@.skip(i as int)),
        decreases n - i,
    {
        let w = first_scalar_len(s, i);
        let ghost t = s@.skip(i as int);
        if w == 0 {
            return false;
        }
        assert(pop_first_scalar(t) =~= s@.skip(i + w));
        i = i + w;
    }
    assert(s@.skip(n as int).len() == 0);
    true
}

} // verus!
