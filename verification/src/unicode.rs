//! Character encoding and decoding.
//!
//! The header of a compressed stream is text, so the symbol of each
//! header line is written as its UTF-8 bytes and read back from them.
//! Encoding and decoding are verified against the UTF-8 specification
//! that comes with the verifier's standard library.

use vstd::prelude::*;
use vstd::utf8::*;

verus! {

/// Relies on `char::from_u32`: it returns `Some` exactly on Unicode
/// scalar values (at most `0x10FFFF` and not a surrogate), and the
/// character it returns has the given value.
#[verifier::external_body]
fn char_from_u32(u: u32) -> (r: Option<char>)
    ensures
        r is Some <==> is_scalar(u),
        r matches Some(c) ==> c as u32 == u,
{
    char::from_u32(u)
}

/// Appends the UTF-8 encoding of `c` to `out`.
pub fn encode_char_bytes(c: char, out: &mut Vec<u8>)
    ensures
        final(out)@ == old(out)@ + encode_scalar(c as u32),
        final(out)@.len() == old(out)@.len() + encode_scalar(c as u32).len(),
{
    let u = c as u32;
    proof {
        char_is_scalar(c);
    }
    let ghost out0 = out@;
    if u <= 0x7F {
        out.push((u & 0x7F) as u8);
        proof {
            assert(encode_scalar(u) =~= seq![leading_byte_width_1(u)]);
            assert(out@ =~= out0 + encode_scalar(u));
        }
    } else if u <= 0x7FF {
        out.push(0xC0u8 | ((u >> 6) & 0x1F) as u8);
        out.push(0x80u8 | (u & 0x3F) as u8);
        proof {
            assert(encode_scalar(u) =~= seq![
                leading_byte_width_2(u),
                last_continuation_byte(u),
            ]);
            assert(out@ =~= out0 + encode_scalar(u));
        }
    } else if u <= 0xFFFF {
        out.push(0xE0u8 | ((u >> 12) & 0x0F) as u8);
        out.push(0x80u8 | ((u >> 6) & 0x3F) as u8);
        out.push(0x80u8 | (u & 0x3F) as u8);
        proof {
            assert(encode_scalar(u) =~= seq![
                leading_byte_width_3(u),
                second_last_continuation_byte(u),
                last_continuation_byte(u),
            ]);
            assert(out@ =~= out0 + encode_scalar(u));
        }
    } else {
        out.push(0xF0u8 | ((u >> 18) & 0x7) as u8);
        out.push(0x80u8 | ((u >> 12) & 0x3F) as u8);
        out.push(0x80u8 | ((u >> 6) & 0x3F) as u8);
        out.push(0x80u8 | (u & 0x3F) as u8);
        proof {
            assert(encode_scalar(u) =~= seq![
                leading_byte_width_4(u),
                third_last_continuation_byte(u),
                second_last_continuation_byte(u),
                last_continuation_byte(u),
            ]);
            assert(out@ =~= out0 + encode_scalar(u));
        }
    }
}

/// Reads the character whose UTF-8 encoding starts at byte `i`, with the
/// number of bytes it occupies.  Returns `None` exactly when no valid
/// encoding of a scalar starts there.
pub fn decode_char_at(bytes: &Vec<u8>, i: usize) -> (r: Option<(char, usize)>)
    requires
        i <= bytes@.len(),
    ensures
        match r {
            Some(p) => {
                let tail = bytes@.skip(i as int);
                &&& valid_first_scalar(tail)
                &&& 1 <= p.1 <= 4
                &&& i + p.1 <= bytes@.len()
                &&& p.1 == length_of_first_scalar(tail)
                &&& p.0 as u32 == decode_first_scalar(tail)
            },
            None => !valid_first_scalar(bytes@.skip(i as int)),
        },
{
    let ghost tail = bytes@.skip(i as int);
    let n = bytes.len();
    if i >= n {
        proof {
            assert(tail.len() == 0);
        }
        return None;
    }
    let b0 = bytes[i];
    proof {
        assert(tail[0] == b0);
        assert(tail.len() >= 1);
    }
    if b0 <= 0x7F {
        let u = (b0 & 0x7F) as u32;
        proof {
            assert(u == codepoint_width_1(b0));
            assert(u <= 0x7F) by (bit_vector)
                requires
                    u == (b0 & 0x7F) as u32,
            ;
        }
        match char_from_u32(u) {
            Some(c) => Some((c, 1)),
            None => None,
        }
    } else if 0xC0 <= b0 && b0 <= 0xDF {
        if n - i < 2 {
            proof {
                assert(tail.len() < 2);
            }
            return None;
        }
        let b1 = bytes[i + 1];
        proof {
            assert(tail[1] == b1);
        }
        if !(0x80 <= b1 && b1 <= 0xBF) {
            return None;
        }
        let u = (((b0 & 0x1F) as u32) << 6) | ((b1 & 0x3F) as u32);
        proof {
            assert(u == codepoint_width_2(b0, b1));
            assert(u <= 0x7FF) by (bit_vector)
                requires
                    u == (((b0 & 0x1F) as u32) << 6) | ((b1 & 0x3F) as u32),
            ;
        }
        if u < 0x80 {
            return None;
        }
        match char_from_u32(u) {
            Some(c) => Some((c, 2)),
            None => None,
        }
    } else if 0xE0 <= b0 && b0 <= 0xEF {
        if n - i < 3 {
            proof {
                assert(tail.len() < 3);
            }
            return None;
        }
        let b1 = bytes[i + 1];
        let b2 = bytes[i + 2];
        proof {
            assert(tail[1] == b1);
            assert(tail[2] == b2);
        }
        if !(0x80 <= b1 && b1 <= 0xBF) {
            return None;
        }
        if !(0x80 <= b2 && b2 <= 0xBF) {
            return None;
        }
        let u = (((b0 & 0x0F) as u32) << 12) | (((b1 & 0x3F) as u32) << 6) | ((b2 & 0x3F) as u32);
        proof {
            assert(u == codepoint_width_3(b0, b1, b2));
            assert(u <= 0xFFFF) by (bit_vector)
                requires
                    u == (((b0 & 0x0F) as u32) << 12) | (((b1 & 0x3F) as u32) << 6) | ((b2 & 0x3F)
                        as u32),
            ;
        }
        if u < 0x800 {
            return None;
        }
        if 0xD800 <= u && u <= 0xDFFF {
            return None;
        }
        match char_from_u32(u) {
            Some(c) => Some((c, 3)),
            None => None,
        }
    } else if 0xF0 <= b0 && b0 <= 0xF7 {
        if n - i < 4 {
            proof {
                assert(tail.len() < 4);
            }
            return None;
        }
        let b1 = bytes[i + 1];
        let b2 = bytes[i + 2];
        let b3 = bytes[i + 3];
        proof {
            assert(tail[1] == b1);
            assert(tail[2] == b2);
            assert(tail[3] == b3);
        }
        if !(0x80 <= b1 && b1 <= 0xBF) {
            return None;
        }
        if !(0x80 <= b2 && b2 <= 0xBF) {
            return None;
        }
        if !(0x80 <= b3 && b3 <= 0xBF) {
            return None;
        }
        let u = (((b0 & 0x07) as u32) << 18) | (((b1 & 0x3F) as u32) << 12) | (((b2 & 0x3F)
            as u32) << 6) | ((b3 & 0x3F) as u32);
        proof {
            assert(u == codepoint_width_4(b0, b1, b2, b3));
        }
        if u < 0x10000 || u > 0x10FFFF {
            return None;
        }
        match char_from_u32(u) {
            Some(c) => Some((c, 4)),
            None => None,
        }
    } else {
        proof {
            assert(!is_leading_byte_width_1(b0));
            assert(!is_leading_byte_width_2(b0));
            assert(!is_leading_byte_width_3(b0));
            assert(!is_leading_byte_width_4(b0));
        }
        None
    }
}

/// A byte string that is exactly one scalar's encoding keeps its reading
/// when more bytes follow it.
pub proof fn lemma_first_scalar_prefix(s: Seq<u8>, rest: Seq<u8>)
    requires
        valid_first_scalar(s),
        length_of_first_scalar(s) == s.len(),
    ensures
        valid_first_scalar(s + rest),
        decode_first_scalar(s + rest) == decode_first_scalar(s),
        length_of_first_scalar(s + rest) == s.len(),
    decreases s.len(),
{
    let t = s + rest;
    assert(t[0] == s[0]);
    if is_leading_byte_width_1(s[0]) {
    } else if is_leading_byte_width_2(s[0]) {
        assert(t[1] == s[1]);
    } else if is_leading_byte_width_3(s[0]) {
        assert(t[1] == s[1]);
        assert(t[2] == s[2]);
    } else {
        assert(t[1] == s[1]);
        assert(t[2] == s[2]);
        assert(t[3] == s[3]);
    }
}

/// Decoding the bytes of an encoded character, with anything after them,
/// gives that character back and steps over exactly its bytes.
pub proof fn lemma_decode_of_encode(c: char, rest: Seq<u8>)
    ensures
        valid_first_scalar(encode_scalar(c as u32) + rest),
        decode_first_scalar(encode_scalar(c as u32) + rest) == c as u32,
        length_of_first_scalar(encode_scalar(c as u32) + rest) == encode_scalar(
            c as u32,
        ).len(),
{
    let chars = seq![c];
    assert(chars.drop_first() =~= Seq::<char>::empty());
    assert(encode_utf8(chars.drop_first()) =~= Seq::<u8>::empty());
    assert(encode_utf8(chars) =~= encode_scalar(c as u32));
    encode_utf8_first_scalar(chars);
    lemma_first_scalar_prefix(encode_scalar(c as u32), rest);
}

} // verus!
