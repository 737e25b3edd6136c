//! Signed transfers between accounts.

use vstd::prelude::*;
use vstd::bytes::*;
use crate::types::{Address, PublicKey, TransactionData, TransactionSignature, ValidationError};
use crate::types::same_address;
use crate::crypto::{address_of, derive_address, rsa_public_key_der, rsa_public_key_of, rsa_sha3_sign, rsa_sha3_signature, rsa_sha3_verifies, rsa_sha3_verify, MAX_KEY_TEXT};
use crate::world::{AccountState, World};
use crate::codec::take_array;
use crate::keys::{decimal, decimal_text, hex_of, hex_text};
use vstd::string::*;

verus! {

/// A transfer of `amount` from `sender` to `recipient`, numbered `index`
/// among the sender's transfers and signed with the sender's key.
#[derive(Debug, Clone, Copy, PartialEq)]
pub struct Transaction {
    pub amount: u128,
    pub index: u128,
    pub sender: Address,
    pub recipient: Address,
    pub signature: TransactionSignature,
    pub public_key: PublicKey,
}

/// The 64 bytes that a signature covers: sender, recipient, then amount and
/// index in little-endian order.
pub open spec fn signing_bytes(sender: Address, recipient: Address, amount: u128, index: u128) -> Seq<u8> {
    sender@ + recipient@ + spec_u128_to_le_bytes(amount) + spec_u128_to_le_bytes(index)
}

impl Transaction {
    /// The signature verifies over the signed bytes under the public key,
    /// and the public key is the sender's.
    pub open spec fn signature_valid(self) -> bool {
        rsa_sha3_verifies(
            self.public_key@,
            self.signature@,
            signing_bytes(self.sender, self.recipient, self.amount, self.index),
        ) && address_of(self.public_key@) == self.sender@
    }

    /// What validation says of this transaction for a sender in state
    /// `account`, given whether its signature holds.
    pub open spec fn check_with(self, signed: bool, account: AccountState) -> Result<(), ValidationError> {
        if !signed {
            Err(ValidationError::InvalidSignature)
        } else if account.balance < self.amount {
            Err(ValidationError::InsufficientBalance)
        } else if account.transaction_index + 1 != self.index {
            Err(ValidationError::BadNonce)
        } else {
            Ok(())
        }
    }

    /// What validation says of this transaction for a sender in state
    /// `account`.
    pub open spec fn check(self, account: AccountState) -> Result<(), ValidationError> {
        self.check_with(self.signature_valid(), account)
    }

    /// The bytes that the signature of a transaction covers.
    pub fn transaction_data_bytes(from: &Address, to: &Address, amount: u128, index: u128) -> (data: TransactionData)
        ensures
            data@ == signing_bytes(*from, *to, amount, index),
    {
        let amount_bytes = u128_to_le_bytes(amount);
        let index_bytes = u128_to_le_bytes(index);
        let mut data: TransactionData = [0u8; 64];
        let mut i: usize = 0;
        while i < 16
            invariant
                i <= 16,
                amount_bytes@.len() == 16,
                index_bytes@.len() == 16,
                forall|j: int| 0 <= j < i ==> data@[j] == from@[j],
                forall|j: int| 0 <= j < i ==> data@[16 + j] == to@[j],
                forall|j: int| 0 <= j < i ==> data@[32 + j] == amount_bytes@[j],
                forall|j: int| 0 <= j < i ==> data@[48 + j] == index_bytes@[j],
            decreases 16 - i,
        {
            data[i] = from[i];
            data[16 + i] = to[i];
            data[32 + i] = amount_bytes[i];
            data[48 + i] = index_bytes[i];
            i += 1;
        }
        proof {
            let want = signing_bytes(*from, *to, amount, index);
            assert(want.len() == 64);
            assert forall|k: int| 0 <= k < 64 implies data@[k] == want[k] by {
                if k < 16 {
                    assert(data@[k] == from@[k]);
                } else if k < 32 {
                    assert(data@[16 + (k - 16)] == to@[k - 16]);
                } else if k < 48 {
                    assert(data@[32 + (k - 32)] == amount_bytes@[k - 32]);
                } else {
                    assert(data@[48 + (k - 48)] == index_bytes@[k - 48]);
                }
            }
            assert(data@ =~= want);
        }
        data
    }

    /// Puts a transaction together from a signature and a public key as
    /// they come from the signer: nothing unless the signature is 256
    /// bytes and the key 294 bytes long.
    pub fn from_parts(
        amount: u128,
        index: u128,
        sender: Address,
        recipient: Address,
        signature: &[u8],
        public_key: &[u8],
    ) -> (tx: Option<Transaction>)
        ensures
            tx is Some == (signature@.len() == 256 && public_key@.len() == 294),
            tx is Some ==> {
                let t = tx.unwrap();
                &&& t.amount == amount
                &&& t.index == index
                &&& t.sender == sender
                &&& t.recipient == recipient
                &&& t.signature@ == signature@
                &&& t.public_key@ == public_key@
            },
    {
        if signature.len() != 256 || public_key.len() != 294 {
            return None;
        }
        let signature_bytes = take_array::<256>(signature, 0);
        let key_bytes = take_array::<294>(public_key, 0);
        assert(signature@.subrange(0, 256) =~= signature@);
        assert(public_key@.subrange(0, 294) =~= public_key@);
        Some(Transaction { amount, index, sender, recipient, signature: signature_bytes, public_key: key_bytes })
    }

    /// A transfer of `amount` to `recipient`, numbered `index`, from the
    /// owner of the RSA key whose PEM is `private_key`, and signed with
    /// that key. There is none where the text is longer than
    /// `MAX_KEY_TEXT` or is no such key, or where the key is not one whose
    /// public key takes 294 bytes and whose signatures take 256.
    pub fn sign(private_key: &[u8], recipient: Address, amount: u128, index: u128) -> (tx: Option<Transaction>)
        ensures
            match tx {
                Some(t) => {
                    &&& private_key@.len() <= MAX_KEY_TEXT
                    &&& t.amount == amount
                    &&& t.index == index
                    &&& t.recipient == recipient
                    &&& t.sender@ == address_of(t.public_key@)
                    &&& rsa_public_key_of(private_key@) == Some(t.public_key@)
                    &&& rsa_sha3_signature(private_key@, signing_bytes(t.sender, recipient, amount, index)) == Some(
                        t.signature@,
                    )
                },
                None => private_key@.len() > MAX_KEY_TEXT || match rsa_public_key_of(private_key@) {
                    None => true,
                    Some(key) => key.len() != 294 || (match rsa_sha3_signature(
                        private_key@,
                        address_of(key) + recipient@ + spec_u128_to_le_bytes(amount) + spec_u128_to_le_bytes(index),
                    ) {
                        None => true,
                        Some(signature) => signature.len() != 256,
                    }),
                },
            },
    {
        if private_key.len() > MAX_KEY_TEXT {
            return None;
        }
        let public_key = match rsa_public_key_der(private_key) {
            Some(key) => key,
            None => {
                return None;
            },
        };
        let sender = derive_address(public_key.as_slice());
        let data = Transaction::transaction_data_bytes(&sender, &recipient, amount, index);
        let signature = match rsa_sha3_sign(private_key, data.as_slice()) {
            Some(signature) => signature,
            None => {
                return None;
            },
        };
        Transaction::from_parts(amount, index, sender, recipient, signature.as_slice(), public_key.as_slice())
    }

    /// The transaction in words: the amount, the sender and the recipient.
    pub open spec fn description(self) -> Seq<char> {
        "Transaction: "@ + decimal_text(self.amount as nat) + " $ZEN  0x"@ + hex_text(self.sender@) + " ==> 0x"@
            + hex_text(self.recipient@)
    }

    /// The transaction in words: the amount, the sender and the recipient.
    pub fn describe(&self) -> (text: String)
        ensures
            text@ == self.description(),
    {
        let mut text = "Transaction: ".to_owned();
        text = text.concat(decimal(self.amount).as_str());
        text = text.concat(" $ZEN  0x");
        text = text.concat(hex_of(&self.sender).as_str());
        text = text.concat(" ==> 0x");
        text = text.concat(hex_of(&self.recipient).as_str());
        text
    }

    /// Whether the signature verifies and the key is the sender's.
    pub fn is_signature_valid(&self) -> (valid: bool)
        ensures
            valid == self.signature_valid(),
    {
        let data = Transaction::transaction_data_bytes(&self.sender, &self.recipient, self.amount, self.index);
        let verified = rsa_sha3_verify(self.public_key.as_slice(), self.signature.as_slice(), data.as_slice());
        let address = derive_address(self.public_key.as_slice());
        let is_sender = same_address(&address, &self.sender);
        proof {
            if address@ == self.sender@ {
                assert(address =~= self.sender);
            }
        }
        verified && is_sender
    }

    /// What remains to decide once the signature has been checked: the
    /// sender must hold the amount, and the index must be the sender's next.
    pub fn check_account(&self, signed: bool, account: &AccountState) -> (outcome: Result<(), ValidationError>)
        ensures
            outcome == self.check_with(signed, *account),
    {
        if !signed {
            return Err(ValidationError::InvalidSignature);
        }
        if account.balance < self.amount {
            return Err(ValidationError::InsufficientBalance);
        }
        if account.transaction_index == u128::MAX || account.transaction_index + 1 != self.index {
            return Err(ValidationError::BadNonce);
        }
        Ok(())
    }

    /// Validates the transaction against the account states in `world`.
    pub fn is_valid(&self, world: &World) -> (outcome: Result<(), ValidationError>)
        requires
            world.wf(),
        ensures
            outcome == self.check(world.account(self.sender)),
    {
        let signed = self.is_signature_valid();
        let account = world.get_account_state(&self.sender);
        self.check_account(signed, &account)
    }
}

} // verus!
