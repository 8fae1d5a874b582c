//! Records of the log, encoded with RON.
//!
//! A record is the pair `(key, Some(value))` for a `Set` and `(key, None)`
//! for a `Remove`, written as RON text on one line.
use vstd::prelude::*;

verus! {

#[verifier::external_type_specification]
#[verifier::external_body]
pub struct ExRonError(ron::Error);

#[verifier::external_type_specification]
#[verifier::external_body]
pub struct ExRonSpannedError(ron::error::SpannedError);

/// The view of an optional string.
pub open spec fn opt_view(o: Option<String>) -> Option<Seq<char>> {
    match o {
        Some(s) => Some(s@),
        None => None,
    }
}

/// The bytes that RON writes for the pair `(key, value)`.
pub uninterp spec fn ron_record(key: Seq<char>, value: Option<Seq<char>>) -> Seq<u8>;

/// What RON reads from `text` as a pair of a string and an optional string,
/// or `None` where it reads no such pair.
pub uninterp spec fn ron_decoded(text: Seq<u8>) -> Option<(Seq<char>, Option<Seq<char>>)>;

/// The newline byte that ends each record.
pub const NEWLINE: u8 = 10;

/// Relies on `ron::to_string` on a `(String, Option<String>)` pair: its
/// output holds no newline (as its documentation says), and RON reads it back
/// as the same pair. It writes into a `Vec`, at a nesting depth of three, with
/// no identifiers, so none of its errors can arise here.
#[verifier::external_body]
fn ron_encode(key: &String, value: &Option<String>) -> (r: Result<Vec<u8>, ron::Error>)
    ensures
        r is Ok,
        r is Ok ==> r->Ok_0@ == ron_record(key@, opt_view(*value)),
        r is Ok ==> !r->Ok_0@.contains(NEWLINE),
        r is Ok ==> ron_decoded(r->Ok_0@) == Some((key@, opt_view(*value))),
{
    ron::to_string(&(key, value)).map(|s| s.into_bytes())
}

/// Relies on `ron::de::from_bytes` for a `(String, Option<String>)` pair.
#[verifier::external_body]
fn ron_decode(text: &Vec<u8>) -> (r: Result<(String, Option<String>), ron::error::SpannedError>)
    ensures
        r is Ok <==> ron_decoded(text@) is Some,
        r is Ok ==> ron_decoded(text@) == Some((r->Ok_0.0@, opt_view(r->Ok_0.1))),
{
    ron::de::from_bytes::<(String, Option<String>)>(text.as_slice())
}

/// Relies on the `Display` of `ron::error::SpannedError`.
#[verifier::external_body]
fn ron_spanned_error_text(e: &ron::error::SpannedError) -> String {
    e.to_string()
}

/// Encodes one record, without its newline.
pub fn encode_record(key: &String, value: &Option<String>) -> (r: Vec<u8>)
    ensures
        r@ == ron_record(key@, opt_view(*value)),
        !r@.contains(NEWLINE),
        ron_decoded(r@) == Some((key@, opt_view(*value))),
{
    match ron_encode(key, value) {
        Ok(b) => b,
        Err(_) => Vec::new(),  // unreachable: the encoding always succeeds
    }
}

/// Decodes one record from its text, without its newline.
pub fn decode_record(text: &Vec<u8>) -> (r: Result<(String, Option<String>), String>)
    ensures
        r is Ok <==> ron_decoded(text@) is Some,
        r is Ok ==> ron_decoded(text@) == Some((r->Ok_0.0@, opt_view(r->Ok_0.1))),
{
    match ron_decode(text) {
        Ok(p) => Ok(p),
        Err(e) => Err(ron_spanned_error_text(&e)),
    }
}

} // verus!
