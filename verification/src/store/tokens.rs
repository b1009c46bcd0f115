//! Continuation tokens.

use crate::digits;
use crate::digits::{hex_of, hex_pair_of};
use crate::store::Store;
use std::string::FromUtf8Error;
use vstd::prelude::*;
use vstd::utf8;

verus! {

/// `std::string::FromUtf8Error`, the error of bytes that are not UTF-8.
#[verifier::external_type_specification]
#[verifier::external_body]
pub struct ExFromUtf8Error(FromUtf8Error);

/// `String::from_utf8`: the text that the bytes encode, if they are UTF-8, and an
/// error otherwise.
pub assume_specification[ String::from_utf8 ](vec: Vec<u8>) -> (r: Result<String, FromUtf8Error>)
    ensures
        match r {
            Ok(s) => utf8::valid_utf8(vec@) && s@ == utf8::decode_utf8(vec@),
            Err(_) => !utf8::valid_utf8(vec@),
        },
;

/// The token for a key: its UTF-8 bytes in hexadecimal.
pub open spec fn encoded(key: Seq<char>) -> Seq<char> {
    digits::hex(utf8::encode_utf8(key))
}

/// A token can be cut into pairs of bytes: there is an even number of them, and
/// no character spans two pairs.
pub open spec fn readable(token: Seq<char>) -> bool {
    let bytes = utf8::encode_utf8(token);
    &&& bytes.len() % 2 == 0
    &&& forall|i: int|
        0 <= i < bytes.len() && i % 2 == 0 ==> #[trigger] utf8::is_char_boundary(bytes, i)
}

/// The bytes that the first `n` bytes of a token stand for, two hexadecimal digits
/// for each. Other pairs stand for nothing.
pub open spec fn bytes_in(bytes: Seq<u8>, n: int) -> Seq<u8>
    decreases n,
{
    if n < 2 {
        Seq::empty()
    } else {
        match digits::hex_pair(bytes[n - 2], bytes[n - 1]) {
            Some(b) => bytes_in(bytes, n - 2).push(b),
            None => bytes_in(bytes, n - 2),
        }
    }
}

/// The text with these bytes; where they are not UTF-8, each byte is the number of a
/// character.
pub open spec fn text_in(bytes: Seq<u8>) -> Seq<char> {
    if utf8::valid_utf8(bytes) {
        utf8::decode_utf8(bytes)
    } else {
        bytes.map_values(|b: u8| b as char)
    }
}

/// The key that a token stands for.
pub open spec fn decoded(token: Seq<char>) -> Seq<char> {
    let bytes = utf8::encode_utf8(token);
    text_in(bytes_in(bytes, bytes.len() as int))
}

/// Whether a token can be cut into pairs of bytes.
pub fn is_readable(token: &str) -> (r: bool)
    ensures
        r == readable(token@),
{
    let bytes: &[u8] = token.as_bytes();
    if bytes.len() % 2 != 0 {
        return false;
    }
    let mut i: usize = 0;
    while i < bytes.len()
        invariant
            bytes@ == utf8::encode_utf8(token@),
            bytes@.len() % 2 == 0,
            i <= bytes@.len(),
            i % 2 == 0,
            forall|k: int|
                0 <= k < i && k % 2 == 0 ==> #[trigger] utf8::is_char_boundary(bytes@, k),
        decreases bytes@.len() - i,
    {
        if !token.is_char_boundary(i) {
            return false;
        }
        i = i + 2;
    }
    true
}

impl Store {
    /// Encode a continuation token: the last-seen key, kept opaque and ASCII-safe.
    pub fn encode_token(last_key: &str) -> (r: String)
        ensures
            r@ == encoded(last_key@),
    {
        hex_of(last_key.as_bytes())
    }

    /// Decode a continuation token back to the exclusive-start key.
    ///
    /// A token that `encode_token` did not give may hold bytes that are no UTF-8;
    /// each of them then counts as a character.
    pub fn decode_token(token: &str) -> (r: String)
        requires
            readable(token@),
        ensures
            r@ == decoded(token@),
    {
        let pairs: &[u8] = token.as_bytes();
        let mut bytes: Vec<u8> = Vec::new();
        let mut i: usize = 0;
        proof {
            assert(bytes@ =~= Seq::<u8>::empty());
        }
        while i < pairs.len()
            invariant
                pairs@ == utf8::encode_utf8(token@),
                pairs@.len() % 2 == 0,
                i % 2 == 0,
                i <= pairs@.len(),
                bytes@ == bytes_in(pairs@, i as int),
            decreases pairs@.len() - i,
        {
            if let Some(b) = hex_pair_of(pairs[i], pairs[i + 1]) {
                bytes.push(b);
            }
            i = i + 2;
        }
        match String::from_utf8(bytes.clone()) {
            Ok(s) => s,
            Err(_) => chars_numbered(&bytes),
        }
    }
}

/// The characters with these numbers.
fn chars_numbered(bytes: &Vec<u8>) -> (r: String)
    ensures
        r@ == bytes@.map_values(|b: u8| b as char),
{
    let ghost to_char = |b: u8| b as char;
    let mut r: String = String::new();
    let mut i: usize = 0;
    proof {
        assert(r@ =~= bytes@.take(0).map_values(to_char));
    }
    while i < bytes.len()
        invariant
            i <= bytes@.len(),
            to_char == (|b: u8| b as char),
            r@ == bytes@.take(i as int).map_values(to_char),
        decreases bytes@.len() - i,
    {
        r.push(bytes[i] as char);
        i = i + 1;
        proof {
            assert(r@ =~= bytes@.take(i as int).map_values(to_char));
        }
    }
    proof {
        assert(bytes@.take(bytes@.len() as int) =~= bytes@);
    }
    r
}

proof fn lemma_hex_ascii(bytes: Seq<u8>)
    ensures
        utf8::is_ascii_chars(digits::hex(bytes)),
        digits::hex(bytes).len() == 2 * bytes.len(),
    decreases bytes.len(),
{
    if bytes.len() > 0 {
        lemma_hex_ascii(bytes.drop_last());
    }
}

/// The bytes of a text in hexadecimal read back as those bytes.
proof fn lemma_bytes_in_hex(bytes: Seq<u8>, n: int)
    requires
        0 <= n <= bytes.len(),
    ensures
        ({
            let h = utf8::encode_utf8(digits::hex(bytes));
            &&& h.len() == 2 * bytes.len()
            &&& bytes_in(h, 2 * n) == bytes.take(n)
        }),
    decreases n,
{
    let t = digits::hex(bytes);
    let h = utf8::encode_utf8(t);
    lemma_hex_ascii(bytes);
    utf8::is_ascii_chars_encode_utf8(t);
    if n > 0 {
        lemma_bytes_in_hex(bytes, n - 1);
        lemma_hex_at(bytes, n - 1);
        let b = bytes[n - 1];
        assert(h[2 * n - 2] == t[2 * (n - 1)] as u8);
        assert(h[2 * n - 1] == t[2 * (n - 1) + 1] as u8);
        lemma_pair_back(b);
        assert(digits::hex_pair(h[2 * n - 2], h[2 * n - 1]) == Some(b));
        assert(2 * n - 2 == 2 * (n - 1));
        assert(bytes.take(n) =~= bytes.take(n - 1).push(b));
    } else {
        assert(bytes.take(n) =~= Seq::<u8>::empty());
    }
}

proof fn lemma_hex_at(bytes: Seq<u8>, i: int)
    requires
        0 <= i < bytes.len(),
    ensures
        digits::hex(bytes).len() == 2 * bytes.len(),
        digits::hex(bytes)[2 * i] == digits::hex_digit(bytes[i] as int / 16),
        digits::hex(bytes)[2 * i + 1] == digits::hex_digit(bytes[i] as int % 16),
    decreases bytes.len(),
{
    lemma_hex_ascii(bytes);
    lemma_hex_ascii(bytes.drop_last());
    if i < bytes.len() - 1 {
        lemma_hex_at(bytes.drop_last(), i);
    }
}

proof fn lemma_pair_back(b: u8)
    ensures
        digits::hex_pair(
            digits::hex_digit(b as int / 16) as u8,
            digits::hex_digit(b as int % 16) as u8,
        ) == Some(b),
{
}

/// A token can be read, and gives back the key that it was made of.
pub proof fn token_reads_back(key: Seq<char>)
    ensures
        readable(encoded(key)),
        decoded(encoded(key)) == key,
{
    let bytes = utf8::encode_utf8(key);
    let t = encoded(key);
    lemma_bytes_in_hex(bytes, bytes.len() as int);
    assert(bytes.take(bytes.len() as int) =~= bytes);
    lemma_hex_ascii(bytes);
    utf8::is_ascii_chars_encode_utf8(t);
    utf8::encode_utf8_valid_utf8(key);
    utf8::encode_utf8_decode_utf8(key);
    let h = utf8::encode_utf8(t);
    assert forall|i: int| 0 <= i < h.len() && i % 2 == 0 implies #[trigger] utf8::is_char_boundary(
        h,
        i,
    ) by {
        utf8::encode_utf8_valid_utf8(t);
        assert(t[i] as u8 == h[i]);
        utf8::is_char_boundary_iff_not_is_continuation_byte(h, i);
    }
}

} // verus!
