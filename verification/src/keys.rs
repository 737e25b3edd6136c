//! Addresses as text: `0x` and 32 hexadecimal digits.

use vstd::prelude::*;
use vstd::string::*;
use crate::types::Address;
use crate::crypto::{address_of, derive_address, rsa_public_key_der, rsa_public_key_of, MAX_KEY_TEXT};

verus! {

/// The text of one hexadecimal digit, lower case.
pub open spec fn hex_digit(n: int) -> Seq<char> {
    if n == 0 {
        "0"@
    } else if n == 1 {
        "1"@
    } else if n == 2 {
        "2"@
    } else if n == 3 {
        "3"@
    } else if n == 4 {
        "4"@
    } else if n == 5 {
        "5"@
    } else if n == 6 {
        "6"@
    } else if n == 7 {
        "7"@
    } else if n == 8 {
        "8"@
    } else if n == 9 {
        "9"@
    } else if n == 10 {
        "a"@
    } else if n == 11 {
        "b"@
    } else if n == 12 {
        "c"@
    } else if n == 13 {
        "d"@
    } else if n == 14 {
        "e"@
    } else {
        "f"@
    }
}

/// The text of bytes as hexadecimal digits, two for each byte, the high
/// digit first.
pub open spec fn hex_text(bytes: Seq<u8>) -> Seq<char>
    decreases bytes.len(),
{
    if bytes.len() == 0 {
        Seq::empty()
    } else {
        hex_text(bytes.drop_last()) + hex_digit(bytes.last() as int / 16) + hex_digit(bytes.last() as int % 16)
    }
}

/// The value of a hexadecimal digit given as an ASCII byte, in either
/// case; -1 for any other byte.
pub open spec fn hex_value(byte: u8) -> int {
    if 48 <= byte <= 57 {
        byte - 48
    } else if 97 <= byte <= 102 {
        byte - 87
    } else if 65 <= byte <= 70 {
        byte - 55
    } else {
        -1
    }
}

/// `text` is 34 bytes long and all but its first two are hexadecimal
/// digits.
pub open spec fn is_address_text(text: Seq<u8>) -> bool {
    text.len() == 34 && forall|i: int| 2 <= i < 34 ==> hex_value(#[trigger] text[i]) >= 0
}

fn digit_text(n: u8) -> (text: &'static str)
    requires
        n < 16,
    ensures
        text@ == hex_digit(n as int),
{
    if n == 0 {
        "0"
    } else if n == 1 {
        "1"
    } else if n == 2 {
        "2"
    } else if n == 3 {
        "3"
    } else if n == 4 {
        "4"
    } else if n == 5 {
        "5"
    } else if n == 6 {
        "6"
    } else if n == 7 {
        "7"
    } else if n == 8 {
        "8"
    } else if n == 9 {
        "9"
    } else if n == 10 {
        "a"
    } else if n == 11 {
        "b"
    } else if n == 12 {
        "c"
    } else if n == 13 {
        "d"
    } else if n == 14 {
        "e"
    } else {
        "f"
    }
}

/// A number in decimal digits, without leading zeros.
pub open spec fn decimal_text(n: nat) -> Seq<char>
    decreases n,
{
    if n < 10 {
        hex_digit(n as int)
    } else {
        decimal_text(n / 10) + hex_digit((n % 10) as int)
    }
}

/// `n` in decimal digits.
pub fn decimal(n: u128) -> (text: String)
    ensures
        text@ == decimal_text(n as nat),
    decreases n,
{
    if n < 10 {
        digit_text(n as u8).to_owned()
    } else {
        decimal(n / 10).concat(digit_text((n % 10) as u8))
    }
}

/// The 16 bytes of an address as 32 lower-case hexadecimal digits.
pub fn hex_of(address: &Address) -> (text: String)
    ensures
        text@ == hex_text(address@),
{
    let mut text = String::new();
    let mut i: usize = 0;
    assert(address@.take(0) =~= Seq::<u8>::empty());
    assert(text@ =~= hex_text(address@.take(0)));
    while i < 16
        invariant
            i <= 16,
            text@ == hex_text(address@.take(i as int)),
        decreases 16 - i,
    {
        let byte = address[i];
        text = text.concat(digit_text(byte / 16));
        text = text.concat(digit_text(byte % 16));
        proof {
            let next = address@.take(i + 1);
            assert(next.drop_last() =~= address@.take(i as int));
            assert(next.last() == byte);
            assert(text@ =~= hex_text(next));
        }
        i += 1;
    }
    assert(address@.take(16) =~= address@);
    text
}

/// The address as text: `0x`, then two lower-case hexadecimal digits for
/// each of its 16 bytes.
pub fn format_address(address: &Address) -> (text: String)
    ensures
        text@ == "0x"@ + hex_text(address@),
{
    "0x".to_owned().concat(hex_of(address).as_str())
}

fn digit_value(byte: u8) -> (value: Option<u8>)
    ensures
        match value {
            Some(v) => v == hex_value(byte) && v < 16,
            None => hex_value(byte) < 0,
        },
{
    if 48 <= byte && byte <= 57 {
        Some(byte - 48)
    } else if 97 <= byte && byte <= 102 {
        Some(byte - 87)
    } else if 65 <= byte && byte <= 70 {
        Some(byte - 55)
    } else {
        None
    }
}

/// Reads an address from the bytes of its text: 34 bytes, of which the
/// first two are passed over and the others are 32 hexadecimal digits, two
/// for each byte of the address, the high digit first.
pub fn parse_address_bytes(text: &[u8]) -> (address: Option<Address>)
    ensures
        address is Some == is_address_text(text@),
        address is Some ==> forall|i: int|
            0 <= i < 16 ==> (#[trigger] address.unwrap()@[i]) as int == hex_value(text@[2 + 2 * i]) * 16 + hex_value(
                text@[3 + 2 * i],
            ),
{
    if text.len() != 34 {
        return None;
    }
    let mut address: Address = [0u8; 16];
    let mut i: usize = 0;
    while i < 16
        invariant
            i <= 16,
            text@.len() == 34,
            forall|k: int| 2 <= k < 2 + 2 * i ==> hex_value(#[trigger] text@[k]) >= 0,
            forall|k: int|
                0 <= k < i ==> (#[trigger] address@[k]) as int == hex_value(text@[2 + 2 * k]) * 16 + hex_value(
                    text@[3 + 2 * k],
                ),
        decreases 16 - i,
    {
        let high = match digit_value(text[2 + 2 * i]) {
            Some(v) => v,
            None => {
                return None;
            },
        };
        let low = match digit_value(text[3 + 2 * i]) {
            Some(v) => v,
            None => {
                return None;
            },
        };
        address[i] = high * 16 + low;
        i += 1;
    }
    Some(address)
}

/// Reads an address from its text: 34 bytes, of which the first two are
/// passed over and the others are 32 hexadecimal digits. Any other text
/// is left out; `parse_address_bytes` tests for it.
pub fn parse_address(text: &str) -> (address: Address)
    requires
        is_address_text(text.spec_bytes()),
    ensures
        forall|i: int|
            0 <= i < 16 ==> (#[trigger] address@[i]) as int == hex_value(text.spec_bytes()[2 + 2 * i]) * 16
                + hex_value(text.spec_bytes()[3 + 2 * i]),
{
    match parse_address_bytes(text.as_bytes()) {
        Some(address) => address,
        None => [0u8; 16],
    }
}

/// The address of the owner of the RSA key whose PEM is `private_key`:
/// the first 16 bytes of the digest of its public key. There is none
/// where the text is longer than `MAX_KEY_TEXT` or is no such key.
pub fn keypair_to_address(private_key: &[u8]) -> (address: Option<Address>)
    ensures
        match address {
            Some(a) => private_key@.len() <= MAX_KEY_TEXT && rsa_public_key_of(private_key@) is Some && a@
                == address_of(rsa_public_key_of(private_key@).unwrap()),
            None => private_key@.len() > MAX_KEY_TEXT || rsa_public_key_of(private_key@) is None,
        },
{
    if private_key.len() > MAX_KEY_TEXT {
        return None;
    }
    match rsa_public_key_der(private_key) {
        Some(public_key) => Some(derive_address(public_key.as_slice())),
        None => None,
    }
}

/// Where the first dot of `name` stands; its length where it has none.
pub open spec fn first_dot(name: Seq<u8>) -> int
    decreases name.len(),
{
    if name.len() == 0 {
        0
    } else {
        let k = first_dot(name.drop_last());
        if k < name.len() - 1 {
            k
        } else if name.last() == 46u8 {
            name.len() - 1
        } else {
            name.len() as int
        }
    }
}

/// Where what follows the last dot of `name` starts; 0 where it has none.
pub open spec fn after_last_dot(name: Seq<u8>) -> int
    decreases name.len(),
{
    if name.len() == 0 {
        0
    } else if name.last() == 46u8 {
        name.len() as int
    } else {
        after_last_dot(name.drop_last())
    }
}

/// The name of the key that a file holds, if it holds a private key: the
/// file name up to its first dot, where what follows its last dot is `sk`.
pub open spec fn key_name_of(file: Seq<u8>) -> Option<Seq<u8>> {
    if file.subrange(after_last_dot(file), file.len() as int) == seq![115u8, 107u8] {
        Some(file.subrange(0, first_dot(file)))
    } else {
        None
    }
}

/// The first dot is in the name, and nothing before it is a dot.
pub proof fn lemma_first_dot(name: Seq<u8>, at: int)
    requires
        0 <= at <= name.len(),
        forall|j: int| 0 <= j < at ==> name[j] != 46u8,
        at < name.len() ==> name[at] == 46u8,
    ensures
        first_dot(name) == at,
    decreases name.len(),
{
    if name.len() > 0 {
        if at < name.len() {
            lemma_first_dot(name.drop_last(), if at < name.len() - 1 { at } else { name.len() - 1 });
        } else {
            lemma_first_dot(name.drop_last(), name.len() - 1);
        }
    }
}

/// The name of the key that a file holds, if it holds a private key.
pub fn key_name(file: &[u8]) -> (name: Option<Vec<u8>>)
    ensures
        match name {
            Some(n) => key_name_of(file@) == Some(n@),
            None => key_name_of(file@) is None,
        },
{
    let total = file.len();
    let mut start: usize = total;
    assert(file@.take(total as int) =~= file@);
    while start > 0 && file[start - 1] != 46
        invariant
            start <= total,
            total == file@.len(),
            after_last_dot(file@) == after_last_dot(file@.take(start as int)),
        decreases start,
    {
        proof {
            assert(file@.take(start as int).drop_last() =~= file@.take(start - 1));
            assert(file@.take(start as int).last() == file@[start - 1]);
        }
        start -= 1;
    }
    proof {
        if start > 0 {
            assert(file@.take(start as int).last() == file@[start - 1]);
        }
        assert(after_last_dot(file@) == start);
    }
    let is_key = total - start == 2 && file[start] == 115 && file[start + 1] == 107;
    proof {
        let ending = file@.subrange(start as int, total as int);
        if is_key {
            assert(ending =~= seq![115u8, 107u8]);
        } else if ending == seq![115u8, 107u8] {
            assert(ending.len() == 2);
            assert(ending[0] == 115u8 && ending[1] == 107u8);
        }
    }
    if !is_key {
        return None;
    }
    let mut end: usize = 0;
    while end < total && file[end] != 46
        invariant
            end <= total,
            total == file@.len(),
            forall|j: int| 0 <= j < end ==> file@[j] != 46u8,
        decreases total - end,
    {
        end += 1;
    }
    proof {
        lemma_first_dot(file@, end as int);
    }
    Some(vstd::slice::slice_to_vec(vstd::slice::slice_subrange(file, 0, end)))
}

} // verus!
