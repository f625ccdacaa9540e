//! Codec for the legacy message data format of a federated social protocol: a
//! canonical textual encoding, a binary encoding, an order-preserving object
//! container and the byte sequence that message hashes are computed over.

mod legacy_f64;
mod value;
mod ordered;
pub mod cbor;
pub mod json;
mod weird;

pub use legacy_f64::LegacyF64;
pub use ordered::{is_nat_str, GraphicolexicalString, RidiculousStringMap, ValueOrdered};
pub use value::{is_well_formed, Data, ObjectAccessState, Value};
pub use weird::{legacy_length, to_weird_encoding, WeirdEncodingIterator};

use vstd::prelude::*;

verus! {

/// The largest integer magnitude that legacy data can hold exactly: 2^53.
pub const MAX_SAFE_INTEGER: u64 = 9007199254740992;

/// Checks whether a given `u64` is allowed for usage in legacy data (it is
/// not larger than 2^53).
pub fn is_u64_valid(n: u64) -> (r: bool)
    ensures
        r == (n <= MAX_SAFE_INTEGER),
{
    n <= MAX_SAFE_INTEGER
}

/// Checks whether a given `i64` is allowed for usage in legacy data (its
/// absolute value is not larger than 2^53).
pub fn is_i64_valid(n: i64) -> (r: bool)
    ensures
        r == (-(MAX_SAFE_INTEGER as int) <= n <= MAX_SAFE_INTEGER),
{
    -9007199254740992i64 <= n && n <= 9007199254740992i64
}

/// Encoding a well-formed value in the compact textual form, decoding it,
/// encoding the result in the binary form and decoding that gives the value
/// back, when the text given for each float reads back as that float and the
/// value's lengths fit the binary length fields.
pub proof fn lemma_cross_format_round_trip(d: Data, numbers: Seq<(u64, String)>)
    requires
        value::data_wf(d),
        json::numbers_read_back(d, numbers),
        cbor::lengths_fit(d),
    ensures
        json::decode(json::json_of(d, true, 0, numbers)) matches Ok(t) && cbor::decode(
            cbor::cbor_of(t),
        ) == Ok::<Data, cbor::DecodeCborError>(d),
{
    json::lemma_text_round_trip(d, true, numbers);
    cbor::lemma_binary_round_trip(d);
}

} // verus!
