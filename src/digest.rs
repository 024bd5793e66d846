use vstd::prelude::*;

use sha2::Digest;

use crate::types::HashSum;

verus! {

/// The SHA-256 digest of a byte string.
pub uninterp spec fn sha256_of(data: Seq<u8>) -> Seq<u8>;

/// Relies on sha2::Sha256::digest, whose output is the SHA-256 digest of `data` (32 bytes).
#[verifier::external_body]
fn sha256(data: &[u8]) -> (r: Vec<u8>)
    ensures
        r@ == sha256_of(data@),
        r@.len() == 32,
{
    sha2::Sha256::digest(data).to_vec()
}

pub open spec fn hex_digit(n: u8) -> char {
    seq!['0', '1', '2', '3', '4', '5', '6', '7', '8', '9', 'a', 'b', 'c', 'd', 'e', 'f'][n as int]
}

/// Lowercase hexadecimal text of a byte string, two digits per byte, high nibble first.
pub open spec fn hex_text(b: Seq<u8>) -> Seq<char>
    decreases b.len(),
{
    if b.len() == 0 {
        Seq::empty()
    } else {
        hex_text(b.drop_last()) + seq![hex_digit(b.last() / 16), hex_digit(b.last() % 16)]
    }
}

/// The hash text of a bundle byte stream.
pub open spec fn hash_text(bytes: Seq<u8>) -> Seq<char> {
    hex_text(sha256_of(bytes))
}

fn push_hex_digit(s: &mut String, n: u8)
    requires
        n < 16,
    ensures
        final(s)@ == old(s)@.push(hex_digit(n)),
{
    let digits = "0123456789abcdef";
    proof {
        reveal_strlit("0123456789abcdef");
    }
    assert(digits@ =~= seq![
        '0', '1', '2', '3', '4', '5', '6', '7', '8', '9', 'a', 'b', 'c', 'd', 'e', 'f'
    ]);
    let d = digits.substring_char(n as usize, n as usize + 1);
    assert(d@ =~= seq![hex_digit(n)]);
    s.append(d);
}

/// Renders a digest as a `HashSum`: lowercase hexadecimal, two digits per byte.
pub fn hash_from_digest(digest: &Vec<u8>) -> (r: HashSum)
    ensures
        r.0@ == hex_text(digest@),
{
    let mut s = String::new();
    let n = digest.len();
    let mut i: usize = 0;
    assert(digest@.subrange(0, 0) =~= Seq::<u8>::empty());
    while i < n
        invariant
            n == digest@.len(),
            i <= n,
            s@ == hex_text(digest@.subrange(0, i as int)),
        decreases n - i,
    {
        let b = digest[i];
        push_hex_digit(&mut s, b / 16);
        push_hex_digit(&mut s, b % 16);
        proof {
            let pre = digest@.subrange(0, i + 1);
            assert(pre.drop_last() =~= digest@.subrange(0, i as int));
            assert(pre.last() == b);
        }
        i = i + 1;
    }
    assert(digest@.subrange(0, n as int) =~= digest@);
    HashSum(s)
}

/// Hashes a bundle byte stream with SHA-256 and renders the digest as hexadecimal.
pub fn hash_bundle(bytes: &Vec<u8>) -> (r: HashSum)
    ensures
        r.0@ == hash_text(bytes@),
{
    let d = sha256(bytes.as_slice());
    hash_from_digest(&d)
}

} // verus!
