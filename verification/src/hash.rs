//! Content hashes: SHA-256 in lower-case hexadecimal, with its prefix.
use vstd::prelude::*;

use sha2::{Digest, Sha256};

use crate::json::{json_text, render, Json};

verus! {

/// The SHA-256 digest of some bytes.
pub uninterp spec fn sha256_digest(bytes: Seq<u8>) -> Seq<u8>;

/// `sha2::Sha256` over all of the bytes: the 32 bytes of their digest.
#[verifier::external_body]
fn sha256(bytes: &[u8]) -> (r: Vec<u8>)
    ensures
        r@ == sha256_digest(bytes@),
        r@.len() == 32,
{
    let mut hasher = Sha256::new();
    hasher.update(bytes);
    hasher.finalize().to_vec()
}

/// The hexadecimal digit of a value under sixteen.
pub open spec fn hex_digit(d: int) -> char {
    if d < 10 {
        (('0' as int) + d) as char
    } else {
        (('a' as int) + (d - 10)) as char
    }
}

/// Two hexadecimal digits for each byte, the high half first.
pub open spec fn hex(bytes: Seq<u8>) -> Seq<char> {
    Seq::new(
        2 * bytes.len(),
        |i: int|
            if i % 2 == 0 {
                hex_digit(bytes[i / 2] as int / 16)
            } else {
                hex_digit(bytes[i / 2] as int % 16)
            },
    )
}

fn hex_char(d: u8) -> (c: char)
    requires
        d < 16,
    ensures
        c == hex_digit(d as int),
{
    if d < 10 {
        (48u8 + d) as char
    } else {
        (97u8 + (d - 10)) as char
    }
}

fn hex_text(bytes: &Vec<u8>) -> (r: String)
    ensures
        r@ == hex(bytes@),
{
    let mut r: String = String::new();
    let mut i: usize = 0;
    while i < bytes.len()
        invariant
            i <= bytes@.len(),
            r@ == hex(bytes@.take(i as int)),
        decreases bytes@.len() - i,
    {
        let b: u8 = bytes[i];
        r.push(hex_char(b / 16));
        r.push(hex_char(b % 16));
        i += 1;
        assert(r@ =~= hex(bytes@.take(i as int)));
    }
    assert(bytes@.take(i as int) =~= bytes@);
    r
}

/// The prefixed hash that identifies some content.
pub open spec fn content_id(bytes: Seq<u8>) -> Seq<char> {
    "sha256:"@ + hex(sha256_digest(bytes))
}

/// Content hash of arbitrary bytes, `sha256:`-prefixed: the identity of a frozen
/// bundle and of each produced artifact.
pub fn content_hash(bytes: &[u8]) -> (r: String)
    ensures
        r@ == content_id(bytes@),
        r@.len() == 71,
{
    let digest: Vec<u8> = sha256(bytes);
    let mut r: String = "sha256:".to_owned();
    r.append(hex_text(&digest).as_str());
    proof {
        reveal_strlit("sha256:");
    }
    r
}

/// Content hash of a text, over its UTF-8 bytes.
pub fn text_hash(text: &str) -> (r: String)
    ensures
        r@ == content_id(vstd::utf8::encode_utf8(text@)),
{
    content_hash(text.as_bytes())
}

/// Content hash of a frozen bundle: the hash of its compact JSON text.
pub fn bundle_hash(bundle: &Json) -> (r: String)
    ensures
        r@ == content_id(vstd::utf8::encode_utf8(json_text(bundle@))),
{
    text_hash(render(bundle).as_str())
}

/// Two contents have the same hash exactly when they have the same digest: the
/// prefix and the hexadecimal text lose nothing.
pub proof fn law_content_id_is_the_digest(a: Seq<u8>, b: Seq<u8>)
    ensures
        content_id(a) == content_id(b) <==> sha256_digest(a) == sha256_digest(b),
{
    let x = sha256_digest(a);
    let y = sha256_digest(b);
    reveal_strlit("sha256:");
    if content_id(a) == content_id(b) {
        assert(hex(x) =~= content_id(a).skip(7));
        assert(hex(y) =~= content_id(b).skip(7));
        assert(hex(x).len() == hex(y).len());
        assert forall|i: int| 0 <= i < x.len() implies x[i] == y[i] by {
            assert(hex(x)[2 * i] == hex(y)[2 * i]);
            assert(hex(x)[2 * i + 1] == hex(y)[2 * i + 1]);
            assert(hex(x)[2 * i] == hex_digit(x[i] as int / 16));
            assert(hex(y)[2 * i] == hex_digit(y[i] as int / 16));
            assert(hex(x)[2 * i + 1] == hex_digit(x[i] as int % 16));
            assert(hex(y)[2 * i + 1] == hex_digit(y[i] as int % 16));
            lemma_hex_digit_injective(x[i] as int / 16, y[i] as int / 16);
            lemma_hex_digit_injective(x[i] as int % 16, y[i] as int % 16);
        }
        assert(x =~= y);
    }
}

proof fn lemma_hex_digit_injective(a: int, b: int)
    requires
        0 <= a < 16,
        0 <= b < 16,
        hex_digit(a) == hex_digit(b),
    ensures
        a == b,
{
    assert(hex_digit(a) as int == if a < 10 { 48 + a } else { 87 + a });
    assert(hex_digit(b) as int == if b < 10 { 48 + b } else { 87 + b });
}

/// A content hash is the prefix and, for each byte of the digest, its two
/// hexadecimal digits in lower case, the high one first.
pub proof fn law_a_content_hash_spells_the_digest(bytes: Seq<u8>, i: int)
    requires
        0 <= i < sha256_digest(bytes).len(),
    ensures
        content_id(bytes).len() == 7 + 2 * sha256_digest(bytes).len(),
        content_id(bytes).take(7) == "sha256:"@,
        digit_value(content_id(bytes)[7 + 2 * i]) * 16 + digit_value(
            content_id(bytes)[7 + 2 * i + 1],
        ) == sha256_digest(bytes)[i],
        is_lower_hex(content_id(bytes)[7 + 2 * i]),
        is_lower_hex(content_id(bytes)[7 + 2 * i + 1]),
{
    reveal_strlit("sha256:");
    let d = sha256_digest(bytes);
    let id = content_id(bytes);
    assert(id.take(7) =~= "sha256:"@);
    assert(id[7 + 2 * i] == hex(d)[2 * i]);
    assert(id[7 + 2 * i + 1] == hex(d)[2 * i + 1]);
    assert(hex(d)[2 * i] == hex_digit(d[i] as int / 16));
    assert(hex(d)[2 * i + 1] == hex_digit(d[i] as int % 16));
}

/// A hexadecimal digit in lower case.
pub open spec fn is_lower_hex(c: char) -> bool {
    ('0' <= c <= '9') || ('a' <= c <= 'f')
}

/// The value of a hexadecimal digit in lower case.
pub open spec fn digit_value(c: char) -> int {
    if '0' <= c <= '9' {
        c as int - '0' as int
    } else {
        c as int - 'a' as int + 10
    }
}

} // verus!
