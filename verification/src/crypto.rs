//! The outside primitives the auth and config code relies on: HMAC-SHA256
//! (`hmac` + `sha2`), lower-case hex (`hex`) and the system RNG (`getrandom`).

use vstd::prelude::*;
use hmac::Mac;

verus! {

/// The HMAC-SHA256 tag of `msg` under `key`.
pub uninterp spec fn hmac_sha256_tag(key: Seq<u8>, msg: Seq<u8>) -> Seq<u8>;

/// Calls `Hmac::<Sha256>::new_from_slice`, `Mac::update` and `Mac::finalize`.
/// Claims the tag is the named function of key and message, and is 32 bytes
/// long (SHA-256's output size). `new_from_slice` accepts keys of any length.
#[verifier::external_body]
pub(crate) fn hmac_sha256(key: &[u8], msg: &[u8]) -> (tag: Vec<u8>)
    ensures
        tag@ == hmac_sha256_tag(key@, msg@),
        tag@.len() == 32,
{
    let mut mac = <hmac::Hmac<sha2::Sha256> as hmac::digest::KeyInit>::new_from_slice(key)
        .expect("hmac accepts any key");
    mac.update(msg);
    mac.finalize().into_bytes().to_vec()
}

/// The lower-case hex digit for `d < 16`.
pub open spec fn hex_digit(d: nat) -> char {
    if d < 10 {
        (d + '0' as nat) as char
    } else {
        (d - 10 + 'a' as nat) as char
    }
}

/// Two lower-case hex digits per byte, high nibble first.
pub open spec fn hex_lower(b: Seq<u8>) -> Seq<char>
    decreases b.len(),
{
    if b.len() == 0 {
        Seq::empty()
    } else {
        seq![hex_digit(b[0] as nat / 16), hex_digit(b[0] as nat % 16)] + hex_lower(b.drop_first())
    }
}

/// Calls `hex::encode`, which maps each byte to two characters of
/// `0123456789abcdef`, high nibble first.
#[verifier::external_body]
pub(crate) fn hex_encode(data: &[u8]) -> (out: String)
    ensures
        out@ == hex_lower(data@),
{
    hex::encode(data)
}

/// Calls `getrandom::fill` on a fresh buffer of `n` bytes. Claims only the
/// length of the bytes it gives: they come from the system RNG, and there
/// are none when the RNG fails.
#[verifier::external_body]
pub(crate) fn random_bytes(n: usize) -> (out: Option<Vec<u8>>)
    ensures
        out matches Some(b) ==> b@.len() == n,
{
    let mut buf = vec![0u8; n];
    match getrandom::fill(&mut buf) {
        Ok(()) => Some(buf),
        Err(_) => None,
    }
}

pub proof fn lemma_hex_len(b: Seq<u8>)
    ensures
        hex_lower(b).len() == 2 * b.len(),
    decreases b.len(),
{
    if b.len() > 0 {
        lemma_hex_len(b.drop_first());
    }
}

/// Made of `0`-`9` and `a`-`f` only.
pub open spec fn is_lower_hex(s: Seq<char>) -> bool {
    forall|j: int| 0 <= j < s.len() ==> ('0' <= #[trigger] s[j] <= '9' || 'a' <= s[j] <= 'f')
}

/// Hex text is made of `0`-`9` and `a`-`f` only.
pub proof fn lemma_hex_chars(b: Seq<u8>)
    ensures
        forall|j: int|
            0 <= j < hex_lower(b).len() ==> ('0' <= #[trigger] hex_lower(b)[j] <= '9' || 'a' <= hex_lower(b)[j]
                <= 'f'),
    decreases b.len(),
{
    lemma_hex_len(b);
    if b.len() > 0 {
        lemma_hex_chars(b.drop_first());
        let h = hex_lower(b);
        let hi = b[0] as nat / 16;
        let lo = b[0] as nat % 16;
        assert(hi < 16 && lo < 16);
        assert forall|j: int| 0 <= j < h.len() implies ('0' <= #[trigger] h[j] <= '9' || 'a' <= h[j] <= 'f') by {
            if j >= 2 {
                assert(h[j] == hex_lower(b.drop_first())[j - 2]);
            } else if j == 0 {
                assert(h[j] == hex_digit(hi));
            } else {
                assert(h[j] == hex_digit(lo));
            }
        }
    }
}

} // verus!
