//! Account names, as the chain that carries the ledger defines them.

use vstd::prelude::*;
use vstd::utf8::encode_utf8;

verus! {

/// A lower-case letter or a digit.
pub open spec fn is_plain(byte: u8) -> bool {
    (97 <= byte <= 122) || (48 <= byte <= 57)
}

/// One of `-`, `_` and `.`, which join the parts of a name.
pub open spec fn is_separator(byte: u8) -> bool {
    byte == 45 || byte == 95 || byte == 46
}

/// The rule for account names: 2 to 64 bytes, each a lower-case letter, a
/// digit or a separator; no separator at either end, and no two in a row.
pub open spec fn account_id_rule(id: Seq<u8>) -> bool {
    &&& 2 <= id.len() <= 64
    &&& forall|i: int| 0 <= i < id.len() ==> is_plain(#[trigger] id[i]) || is_separator(id[i])
    &&& !is_separator(id[0])
    &&& !is_separator(id[id.len() - 1])
    &&& forall|i: int|
        0 <= i < id.len() - 1 ==> !(is_separator(#[trigger] id[i]) && is_separator(id[i + 1]))
}

/// `near_sdk::env::is_valid_account_id` decides whether the bytes are an
/// account name. The contract restates the check that the function makes
/// byte by byte: the bounds on the length, the three classes of bytes, and
/// that a separator neither starts the name, nor ends it, nor follows
/// another.
pub assume_specification[ near_sdk::env::is_valid_account_id ](account_id: &[u8]) -> (r: bool)
    ensures
        r == account_id_rule(account_id@),
;

/// Whether `name` can be the name of an account.
pub fn is_account_id(name: &str) -> (r: bool)
    ensures
        r == account_id_rule(encode_utf8(name@)),
{
    near_sdk::env::is_valid_account_id(name.as_bytes())
}

} // verus!
