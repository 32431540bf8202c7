//! Text helpers shared by the two codecs: UTF-8 decoding of stored paths,
//! the byte-per-character reading used by the PKG path region, and string
//! comparison.

use vstd::prelude::*;
use vstd::utf8::{
    encode_scalar, encode_utf8, valid_utf8, encode_utf8_valid_utf8, encode_utf8_decode_utf8,
    char_is_scalar,
};

verus! {

/// The characters denoted by reading each byte as the character with that
/// code point, as the PKG path region is read.
pub open spec fn latin1_chars(bytes: Seq<u8>) -> Seq<char> {
    Seq::new(bytes.len(), |i: int| bytes[i] as char)
}

/// The lower-cased form of a character sequence, as `str::to_lowercase`
/// produces it.
pub uninterp spec fn lower_of(s: Seq<char>) -> Seq<char>;

/// Relies on `str::to_lowercase`: the result depends on the characters of the
/// input alone.
#[verifier::external_body]
pub(crate) fn lowercase(s: &str) -> (r: String)
    ensures
        r@ == lower_of(s@),
{
    s.to_lowercase()
}

/// Relies on `String::from_utf8`: it succeeds exactly on valid UTF-8 input,
/// and then returns the string whose bytes are the input.
#[verifier::external_body]
pub(crate) fn string_from_utf8(bytes: Vec<u8>) -> (r: Option<String>)
    ensures
        match r {
            Some(s) => encode_utf8(s@) == bytes@,
            None => !valid_utf8(bytes@),
        },
{
    String::from_utf8(bytes).ok()
}

/// UTF-8 encoding distributes over appending one character.
proof fn lemma_encode_utf8_push(s: Seq<char>, c: char)
    ensures
        encode_utf8(s.push(c)) == encode_utf8(s) + encode_scalar(c as u32),
    decreases s.len(),
{
    if s.len() == 0 {
        assert(s.push(c).len() == 1);
        assert(s.push(c)[0] == c);
        assert(s.push(c).drop_first() =~= Seq::<char>::empty());
        assert(encode_utf8(s.push(c).drop_first()) =~= Seq::<u8>::empty());
        assert(encode_utf8(s.push(c)) =~= encode_scalar(c as u32));
        assert(encode_utf8(s) + encode_scalar(c as u32) =~= encode_scalar(c as u32));
    } else {
        assert(s.push(c).drop_first() =~= s.drop_first().push(c));
        lemma_encode_utf8_push(s.drop_first(), c);
        assert(encode_utf8(s.push(c)) =~= encode_utf8(s) + encode_scalar(c as u32));
    }
}

/// Equal strings have equal UTF-8 encodings, and conversely.
proof fn lemma_encode_utf8_injective(a: Seq<char>, b: Seq<char>)
    requires
        encode_utf8(a) == encode_utf8(b),
    ensures
        a == b,
{
    encode_utf8_decode_utf8(a);
    encode_utf8_decode_utf8(b);
}

/// Compares two string slices; equal exactly when their characters agree.
pub(crate) fn str_eq(a: &str, b: &str) -> (r: bool)
    ensures
        r == (a@ == b@),
{
    let ab = a.as_bytes();
    let bb = b.as_bytes();
    if ab.len() != bb.len() {
        proof {
            if a@ == b@ {
                assert(encode_utf8(a@) == encode_utf8(b@));
            }
        }
        return false;
    }
    let n = ab.len();
    let mut i: usize = 0;
    while i < n
        invariant
            n == ab@.len() == bb@.len(),
            i <= n,
            ab@ == encode_utf8(a@),
            bb@ == encode_utf8(b@),
            forall|j: int| 0 <= j < i ==> ab@[j] == bb@[j],
        decreases n - i,
    {
        if ab[i] != bb[i] {
            proof {
                if a@ == b@ {
                    assert(encode_utf8(a@) == encode_utf8(b@));
                }
            }
            return false;
        }
        i += 1;
    }
    proof {
        assert(ab@ =~= bb@);
        lemma_encode_utf8_injective(a@, b@);
    }
    true
}

/// Builds the string whose characters are the given bytes, read one character
/// per byte.
pub(crate) fn latin1_to_string(bytes: &[u8]) -> (r: String)
    ensures
        r@ == latin1_chars(bytes@),
{
    let ghost chars = latin1_chars(bytes@);
    let n = bytes.len();
    let mut buf: Vec<u8> = Vec::new();
    let mut i: usize = 0;
    proof {
        assert(latin1_chars(bytes@.subrange(0, 0)) =~= Seq::<char>::empty());
        assert(buf@ =~= encode_utf8(latin1_chars(bytes@.subrange(0, 0))));
    }
    while i < n
        invariant
            n == bytes@.len(),
            i <= n,
            buf@ == encode_utf8(latin1_chars(bytes@.subrange(0, i as int))),
        decreases n - i,
    {
        let ghost prefix = latin1_chars(bytes@.subrange(0, i as int));
        let b = bytes[i];
        let c: char = b as char;
        let u: u32 = c as u32;
        proof {
            assert(u == b as u32);
            char_is_scalar(c);
            assert(latin1_chars(bytes@.subrange(0, i + 1)) =~= prefix.push(c));
            lemma_encode_utf8_push(prefix, c);
        }
        if b < 0x80 {
            proof {
                assert(encode_scalar(u) =~= seq![(u & 0x7F) as u8]);
                assert((u & 0x7F) as u8 == b) by (bit_vector)
                    requires u == b as u32 && b < 0x80;
            }
            buf.push(b);
        } else {
            let lead: u8 = 0xC0 | (((u >> 6) & 0x1F) as u8);
            let cont: u8 = 0x80 | ((u & 0x3F) as u8);
            proof {
                assert(0x80 <= u <= 0x7FF) by (bit_vector)
                    requires u == b as u32 && b >= 0x80;
                assert(encode_scalar(u) =~= seq![
                    0xC0 | (((u >> 6) & 0x1F) as u8),
                    0x80 | ((u & 0x3F) as u8),
                ]);
            }
            buf.push(lead);
            buf.push(cont);
        }
        proof {
            assert(buf@ =~= encode_utf8(latin1_chars(bytes@.subrange(0, i + 1))));
        }
        i += 1;
    }
    proof {
        assert(bytes@.subrange(0, n as int) =~= bytes@);
    }
    let r = string_from_utf8(buf);
    match r {
        Some(s) => {
            proof {
                lemma_encode_utf8_injective(s@, chars);
            }
            s
        }
        None => {
            proof {
                encode_utf8_valid_utf8(chars);
                assert(false);
            }
            unreached()
        }
    }
}

} // verus!
