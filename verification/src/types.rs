//! Fixed-width byte strings that the ledger is made of, and helpers on them.

use vstd::prelude::*;
use vstd::string::*;
use crate::keys::{decimal, decimal_text};

verus! {

/// An account identifier: the first 16 bytes of the digest of a public key.
pub type Address = [u8; 16];

/// A SHA3-256 digest.
pub type Hash = [u8; 32];

/// An RSA-2048 PKCS#1 v1.5 signature.
pub type TransactionSignature = [u8; 256];

/// The bytes that a transaction's signature covers.
pub type TransactionData = [u8; 64];

/// A 2048-bit RSA public key as SubjectPublicKeyInfo DER.
pub type PublicKey = [u8; 294];

/// Why a transaction or a block was turned down.
#[derive(Debug, Clone, Copy, PartialEq, Eq, Structural)]
pub enum ValidationError {
    /// The block does not carry the required difficulty.
    InvalidDifficulty,
    /// The block does not carry the fixed reward.
    InvalidReward,
    /// The block names a parent that the store does not hold.
    UnknownParent,
    /// The block's index is not its parent's plus one.
    BadIndex { expected: u128, found: u128 },
    /// The block's hash does not start with enough zero bytes.
    InsufficientWork,
    /// The signature does not verify, or the key is not the sender's.
    InvalidSignature,
    /// The sender holds less than the amount.
    InsufficientBalance,
    /// The transaction's index is not the sender's next one.
    BadNonce,
}

impl ValidationError {
    /// The text that a peer is told.
    pub open spec fn text(self) -> Seq<char> {
        match self {
            ValidationError::InvalidDifficulty => "Invalid difficulty"@,
            ValidationError::InvalidReward => "Invalid reward"@,
            ValidationError::UnknownParent => "Invalid prev_hash. Parent not found"@,
            ValidationError::BadIndex { expected, found } => "Invalid index. Should be "@ + decimal_text(
                expected as nat,
            ) + ", but is "@ + decimal_text(found as nat),
            ValidationError::InsufficientWork => "Invalid hash"@,
            ValidationError::InvalidSignature => "Invalid signature"@,
            ValidationError::InsufficientBalance => "Insufficient balance"@,
            ValidationError::BadNonce => "Invalid transaction index"@,
        }
    }

    /// The text that a peer is told, as a string.
    pub fn message(&self) -> (text: String)
        ensures
            text@ == self.text(),
    {
        match self {
            ValidationError::InvalidDifficulty => "Invalid difficulty".to_owned(),
            ValidationError::InvalidReward => "Invalid reward".to_owned(),
            ValidationError::UnknownParent => "Invalid prev_hash. Parent not found".to_owned(),
            ValidationError::BadIndex { expected, found } => {
                let text = "Invalid index. Should be ".to_owned().concat(decimal(*expected).as_str());
                text.concat(", but is ").concat(decimal(*found).as_str())
            },
            ValidationError::InsufficientWork => "Invalid hash".to_owned(),
            ValidationError::InvalidSignature => "Invalid signature".to_owned(),
            ValidationError::InsufficientBalance => "Insufficient balance".to_owned(),
            ValidationError::BadNonce => "Invalid transaction index".to_owned(),
        }
    }
}

/// Whether two addresses are the same.
pub fn same_address(a: &Address, b: &Address) -> (same: bool)
    ensures
        same == (*a == *b),
{
    let same = bytes_eq(a.as_slice(), b.as_slice());
    proof {
        if same {
            assert(*a =~= *b);
        }
    }
    same
}

/// Whether two hashes are the same.
pub fn same_hash(a: &[u8; 32], b: &[u8; 32]) -> (same: bool)
    ensures
        same == (*a == *b),
        same == (a@ == b@),
{
    let same = bytes_eq(a.as_slice(), b.as_slice());
    proof {
        if same {
            assert(*a =~= *b);
        }
    }
    same
}

/// A sequence of `n` zero bytes.
pub open spec fn zeros(n: nat) -> Seq<u8> {
    Seq::new(n, |i: int| 0u8)
}

/// `s` starts with `n` zero bytes.
pub open spec fn has_leading_zeros(s: Seq<u8>, n: nat) -> bool {
    n <= s.len() && forall|i: int| 0 <= i < n ==> s[i] == 0u8
}

/// Whether the two byte strings hold the same bytes.
pub fn bytes_eq(a: &[u8], b: &[u8]) -> (same: bool)
    ensures
        same == (a@ == b@),
{
    if a.len() != b.len() {
        return false;
    }
    let mut i: usize = 0;
    while i < a.len()
        invariant
            a@.len() == b@.len(),
            i <= a@.len(),
            forall|j: int| 0 <= j < i ==> a@[j] == b@[j],
        decreases a@.len() - i,
    {
        if a[i] != b[i] {
            return false;
        }
        i += 1;
    }
    assert(a@ =~= b@);
    true
}

/// Whether `s` starts with `n` zero bytes.
pub fn starts_with_zeros(s: &[u8], n: usize) -> (yes: bool)
    ensures
        yes == has_leading_zeros(s@, n as nat),
{
    if n > s.len() {
        return false;
    }
    let mut i: usize = 0;
    while i < n
        invariant
            n <= s@.len(),
            i <= n,
            forall|j: int| 0 <= j < i ==> s@[j] == 0u8,
        decreases n - i,
    {
        if s[i] != 0 {
            return false;
        }
        i += 1;
    }
    true
}

/// Whether `h` is the all-zero hash, which stands for "no parent".
pub fn is_zero_hash(h: &Hash) -> (yes: bool)
    ensures
        yes == (h@ == zeros(32)),
{
    let yes = starts_with_zeros(h.as_slice(), 32);
    proof {
        if yes {
            assert(h@ =~= zeros(32));
        } else {
            assert(!has_leading_zeros(h@, 32));
        }
    }
    yes
}

} // verus!
