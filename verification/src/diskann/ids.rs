//! The names of stored vectors, and their stored form.
use crate::diskann::error::DiskAnnError;
use vstd::prelude::*;

verus! {

/// The error type of `serde_json`.
#[verifier::external_type_specification]
#[verifier::external_body]
pub struct ExJsonError(serde_json::Error);

/// The texts of a list of strings.
pub open spec fn texts(ids: Seq<String>) -> Seq<Seq<char>> {
    Seq::new(ids.len(), |i: int| ids[i]@)
}

/// The JSON array that `serde_json` writes for a list of strings.
pub uninterp spec fn json_of_texts(texts: Seq<Seq<char>>) -> Seq<char>;

/// The list of strings that `serde_json` reads from a text, if it reads one.
pub uninterp spec fn texts_of_json(json: Seq<char>) -> Option<Seq<Seq<char>>>;

/// `serde_json::to_string` on a list of strings: it succeeds, as it fails only for maps with
/// other keys than strings or for types that refuse to be written; the text is a function of
/// the strings, and reading it gives the strings back.
#[verifier::external_body]
pub(crate) fn write_json(ids: &Vec<String>) -> (json: Result<String, serde_json::Error>)
    ensures
        json is Ok,
        json matches Ok(s) ==> s@ == json_of_texts(texts(ids@)) && texts_of_json(s@) == Some(
            texts(ids@),
        ),
{
    serde_json::to_string(ids)
}

/// `serde_json::from_str` for a list of strings: whether it succeeds, and with which strings,
/// is a function of the text.
#[verifier::external_body]
pub(crate) fn read_json(json: &str) -> (ids: Result<Vec<String>, serde_json::Error>)
    ensures
        ids matches Ok(v) ==> texts_of_json(json@) == Some(texts(v@)),
        ids is Err ==> texts_of_json(json@) is None,
{
    serde_json::from_str(json)
}

/// `ToString` for the error of `serde_json`. Nothing is claimed of the message.
#[verifier::external_body]
pub(crate) fn json_message(e: serde_json::Error) -> String {
    e.to_string()
}

/// The message for a name that is taken.
pub(crate) fn duplicate_message(id: &String) -> (message: String)
    ensures
        message@ == "Duplicate ID: "@ + id@,
{
    "Duplicate ID: ".to_owned().concat(id.as_str())
}

/// The stored form of the names, from which they are read back.
pub fn encode_ids(ids: &Vec<String>) -> (json: Result<String, DiskAnnError>)
    ensures
        json is Ok,
        json matches Ok(s) ==> s@ == json_of_texts(texts(ids@)) && texts_of_json(s@) == Some(
            texts(ids@),
        ),
{
    match write_json(ids) {
        Ok(s) => Ok(s),
        Err(e) => Err(DiskAnnError::Serialization(json_message(e))),
    }
}

/// The names in a stored form.
pub fn decode_ids(json: &str) -> (ids: Result<Vec<String>, DiskAnnError>)
    ensures
        ids matches Ok(v) ==> texts_of_json(json@) == Some(texts(v@)),
        ids matches Err(e) ==> e is Serialization && texts_of_json(json@) is None,
{
    match read_json(json) {
        Ok(v) => Ok(v),
        Err(e) => Err(DiskAnnError::Serialization(json_message(e))),
    }
}

} // verus!
