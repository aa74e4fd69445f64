//! Key comparison.
//!
//! Lookup's equality check is the sole membership oracle: the hashed path
//! only guarantees collision-free placement for keys present at
//! construction, so an absent key may alias a valid slot.  `str_eq` decides
//! equality of two string slices by their UTF-8 bytes and is proved to agree
//! with equality of their character views.

use vstd::prelude::*;
use vstd::string::StringSliceAdditionalSpecFns;

verus! {

/// Two character sequences are equal exactly when their UTF-8 encodings are.
proof fn lemma_encode_utf8_injective(a: Seq<char>, b: Seq<char>)
    ensures
        vstd::utf8::encode_utf8(a) == vstd::utf8::encode_utf8(b) <==> a == b,
{
    vstd::utf8::encode_utf8_decode_utf8(a);
    vstd::utf8::encode_utf8_decode_utf8(b);
}

/// Decides whether two string slices read the same characters, by comparing
/// their byte representations.
pub fn str_eq(a: &str, b: &str) -> (r: bool)
    ensures
        r == (a@ == b@),
{
    proof {
        lemma_encode_utf8_injective(a@, b@);
    }
    let ab: &[u8] = a.as_bytes();
    let bb: &[u8] = b.as_bytes();
    let n: usize = ab.len();
    if n != bb.len() {
        return false;
    }
    let mut i: usize = 0;
    while i < n
        invariant
            n == ab@.len(),
            n == bb@.len(),
            i <= n,
            ab@ == a.spec_bytes(),
            bb@ == b.spec_bytes(),
            forall|t: int| 0 <= t < i ==> ab@[t] == bb@[t],
        decreases n - i,
    {
        if ab[i] != bb[i] {
            proof {
                lemma_encode_utf8_injective(a@, b@);
            }
            return false;
        }
        i = i + 1;
    }
    proof {
        assert(ab@ =~= bb@);
        lemma_encode_utf8_injective(a@, b@);
    }
    true
}

} // verus!
