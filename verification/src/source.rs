use vstd::prelude::*;

verus! {

/// What deserializing a `Vec<i32>` from a text yields: `Some` with the
/// decoded integers when the text is a JSON array of integers in `i32`
/// range, `None` otherwise. The outcome depends on the text alone.
pub uninterp spec fn json_int_seq(text: Seq<char>) -> Option<Seq<i32>>;

/// Failure to interpret the text of a sequence file.
#[derive(Clone, Copy, PartialEq, Eq, Structural, Debug)]
pub enum ParseError {
    /// The text does not parse as a JSON array of integers in `i32` range.
    Malformed,
}

/// Declares serde_json's error type so that it can appear in a result.
#[verifier::external_type_specification]
#[verifier::external_body]
pub struct ExSerdeJsonError(serde_json::Error);

/// Relies on serde_json::from_str: deserializing `Vec<i32>` from a string
/// slice is a function of the string contents alone, returning `Ok` exactly
/// on texts that form a JSON array of integers in `i32` range.
#[verifier::external_body]
fn parse_json_ints(text: &str) -> (r: Result<Vec<i32>, serde_json::Error>)
    ensures
        r is Ok <==> json_int_seq(text@) is Some,
        r is Ok ==> r->Ok_0@ == json_int_seq(text@)->Some_0,
{
    serde_json::from_str(text)
}

/// Decodes the text of a sequence file: a single JSON array of integers.
/// Any other text is rejected as malformed.
pub fn parse_sequence(text: &str) -> (r: Result<Vec<i32>, ParseError>)
    ensures
        r is Ok <==> json_int_seq(text@) is Some,
        r is Ok ==> r->Ok_0@ == json_int_seq(text@)->Some_0,
        r is Err ==> r->Err_0 == ParseError::Malformed,
{
    match parse_json_ints(text) {
        Ok(v) => Ok(v),
        Err(_) => Err(ParseError::Malformed),
    }
}

} // verus!
