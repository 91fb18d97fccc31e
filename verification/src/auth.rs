//! Bearer-token authentication. The token travels inside the TLS channel; it is compared in
//! constant time so that a mismatch cannot be timed.

use crate::crypto::ct_eq;
use crate::text::lemma_utf8_injective;
use vstd::prelude::*;

verus! {

/// Constant-time comparison of the provided token against the expected secret.
pub fn verify_token(expected: &str, provided: &str) -> (r: bool)
    ensures
        r == (expected@ == provided@),
{
    proof {
        lemma_utf8_injective(expected@, provided@);
    }
    ct_eq(expected.as_bytes(), provided.as_bytes())
}

}
