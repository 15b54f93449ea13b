//! The functions that a script can call besides reading its document.

use crate::bridge::{identifier_table, identifier_to_script};
use crate::script::{ScriptModel, ScriptValue};
use crate::text::{digits, hex_string};
use vstd::prelude::*;
use vstd::string::StringSliceAdditionalSpecFns;

verus! {

/// Name under which a script calls [`new_object_id`].
pub const NEW_OBJECT_ID: &'static str = "newObjectId";

/// Name under which a script calls [`sea_hash`].
pub const SEA_HASH: &'static str = "seaHash";

/// The SeaHash of a byte string, with the seed that `seahash::hash` fixes.
pub uninterp spec fn seahash_of(bytes: Seq<u8>) -> u64;

/// Hashes bytes with SeaHash.
///
/// Trusted: the body is one call of `seahash::hash`, which hashes the buffer
/// with a seed chosen in advance, so its result depends on the bytes alone.
/// The contract only names the result.
#[verifier::external_body]
pub(crate) fn seahash_bytes(bytes: &[u8]) -> (hash: u64)
    ensures
        hash == seahash_of(bytes@),
{
    seahash::hash(bytes)
}

/// Draws a fresh identifier.
///
/// Trusted: the body is `bson::oid::ObjectId::new` followed by `bytes`. The
/// identifier is made of the clock, a random value of the process and a
/// counter, so nothing is claimed of the bytes. `bson` panics where the
/// system clock stands before 1970.
#[verifier::external_body]
fn fresh_identifier() -> (id: [u8; 12]) {
    bson::oid::ObjectId::new().bytes()
}

/// The text by which a script sees a hash: lowercase hexadecimal without
/// leading zeros.
pub fn hash_text(hash: u64) -> (text: String)
    ensures
        text@ == digits(hash as nat, 16),
{
    hex_string(hash)
}

/// The fast, non-cryptographic hash of a string that scripts use for
/// bucketing: the SeaHash of its UTF-8 bytes, as hexadecimal text.
pub fn sea_hash(text: &str) -> (hash: String)
    ensures
        hash@ == digits(seahash_of(text.spec_bytes()) as nat, 16),
{
    hash_text(seahash_bytes(text.as_bytes()))
}

/// A fresh identifier as a script receives it: the table that stands for
/// some twelve bytes.
pub fn new_object_id() -> (table: ScriptValue)
    ensures
        exists|id: Seq<u8>|
            id.len() == 12 && table@ == ScriptModel::Table(#[trigger] identifier_table(id)),
{
    let id = fresh_identifier();
    let table = identifier_to_script(&id);
    assert(id@.len() == 12 && table@ == ScriptModel::Table(identifier_table(id@)));
    table
}

} // verus!
