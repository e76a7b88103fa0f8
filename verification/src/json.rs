//! JSON files of plain values.

use std::collections::BTreeMap;

use vstd::prelude::*;

verus! {

/// The entries of a JSON object whose values are bytes, in ascending order of
/// their keys; or the message on what is wrong with the file.
pub uninterp spec fn json_byte_object(b: Seq<u8>) -> Result<Seq<(Seq<char>, u8)>, Seq<char>>;

/// The numbers of a JSON array; or the message on what is wrong with the file.
pub uninterp spec fn json_number_array(b: Seq<u8>) -> Result<Seq<u64>, Seq<char>>;

/// The entries as texts and bytes.
pub open spec fn entries(v: Seq<(String, u8)>) -> Seq<(Seq<char>, u8)> {
    v.map_values(|e: (String, u8)| (e.0@, e.1))
}

/// `serde_json::from_slice` into a map from texts to bytes: the outcome depends
/// on the bytes of the file alone. Of a key that occurs twice, the last value
/// counts.
#[verifier::external_body]
pub(crate) fn read_byte_object(b: &Vec<u8>) -> (r: Result<Vec<(String, u8)>, String>)
    ensures
        match r {
            Ok(v) => json_byte_object(b@) == Ok::<Seq<(Seq<char>, u8)>, Seq<char>>(entries(v@)),
            Err(e) => json_byte_object(b@) == Err::<Seq<(Seq<char>, u8)>, Seq<char>>(e@),
        },
{
    match serde_json::from_slice::<BTreeMap<String, u8>>(b) {
        Ok(m) => Ok(m.into_iter().collect()),
        Err(e) => Err(e.to_string()),
    }
}

/// `serde_json::from_slice` into a list of numbers: the outcome depends on the
/// bytes of the file alone.
#[verifier::external_body]
pub(crate) fn read_number_array(b: &Vec<u8>) -> (r: Result<Vec<u64>, String>)
    ensures
        match r {
            Ok(v) => json_number_array(b@) == Ok::<Seq<u64>, Seq<char>>(v@),
            Err(e) => json_number_array(b@) == Err::<Seq<u64>, Seq<char>>(e@),
        },
{
    match serde_json::from_slice::<Vec<u64>>(b) {
        Ok(v) => Ok(v),
        Err(e) => Err(e.to_string()),
    }
}

} // verus!
