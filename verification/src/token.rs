//! The token pair shared between the daemon and the classifier.
use vstd::prelude::*;

verus! {

/// Length in bytes of both tokens; the replacement is in place, so the two
/// tokens must have the same length.
pub const TOKEN_LEN: usize = 16;

/// A dummy token that an agent sends and the real credential that replaces it.
#[derive(Clone, Copy)]
pub struct TokenPair {
    pub dummy_token: [u8; TOKEN_LEN],
    pub real_token: [u8; TOKEN_LEN],
}

} // verus!
