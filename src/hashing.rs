//! The digest used to seal blocks, and the difficulty predicate on digests.
use vstd::prelude::*;

verus! {

/// The lowercase hexadecimal SHA-256 digest of a byte sequence.
pub uninterp spec fn sha256_hex_of(bytes: Seq<u8>) -> Seq<char>;

/// A lowercase hexadecimal digit.
pub open spec fn is_lower_hex(c: char) -> bool {
    ('0' <= c && c <= '9') || ('a' <= c && c <= 'f')
}

/// The text of a 32-byte digest: 64 lowercase hexadecimal digits.
pub open spec fn is_hex_digest(s: Seq<char>) -> bool {
    s.len() == 64 && forall|i: int| 0 <= i < s.len() ==> is_lower_hex(#[trigger] s[i])
}

/// Relies on `sha256::digest` (for `&Vec<u8>`): it hashes the bytes with SHA-256
/// and hex-encodes the 32-byte result with `hex::encode`, which writes two
/// lowercase hexadecimal digits per byte. The text depends on the bytes alone.
#[verifier::external_body]
pub(crate) fn sha256_hex(bytes: &Vec<u8>) -> (r: String)
    ensures
        r@ == sha256_hex_of(bytes@),
        is_hex_digest(r@),
{
    sha256::digest(bytes)
}

/// `text` begins with `difficulty` copies of the character `'0'`.
pub open spec fn has_zero_prefix(text: Seq<char>, difficulty: nat) -> bool {
    &&& difficulty <= text.len()
    &&& forall|i: int| 0 <= i < difficulty ==> text[i] == '0'
}

/// Whether a digest satisfies the proof-of-work predicate for `difficulty`.
pub fn meets_difficulty(hash: &str, difficulty: usize) -> (r: bool)
    ensures
        r == has_zero_prefix(hash@, difficulty as nat),
{
    let len = hash.unicode_len();
    if difficulty > len {
        return false;
    }
    let mut i: usize = 0;
    while i < difficulty
        invariant
            difficulty <= len == hash@.len(),
            i <= difficulty,
            forall|k: int| 0 <= k < i ==> hash@[k] == '0',
        decreases difficulty - i,
    {
        if hash.get_char(i) != '0' {
            return false;
        }
        i = i + 1;
    }
    true
}

/// The text made of `difficulty` copies of `'0'`.
pub open spec fn zero_prefix(difficulty: nat) -> Seq<char> {
    Seq::new(difficulty, |i: int| '0')
}

/// Builds the text of `difficulty` zeros that a sealed digest begins with.
pub fn zeros(difficulty: usize) -> (r: String)
    ensures
        r@ == zero_prefix(difficulty as nat),
{
    let mut out = String::new();
    let mut i: usize = 0;
    while i < difficulty
        invariant
            i <= difficulty,
            out@ == zero_prefix(i as nat),
        decreases difficulty - i,
    {
        proof {
            reveal_strlit("0");
        }
        out.append("0");
        i = i + 1;
        assert(out@ =~= zero_prefix(i as nat));
    }
    out
}

} // verus!
