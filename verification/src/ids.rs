//! Object and spawn identifiers: lower-case hyphenated UUID text, produced and
//! checked through the `uuid` crate.
use uuid::Uuid;
use vstd::prelude::*;

verus! {

pub open spec fn is_lower_hex_digit(c: char) -> bool {
    ('0' <= c && c <= '9') || ('a' <= c && c <= 'f')
}

/// The text of a UUID in hyphenated lower-case form, such as
/// `67e55044-10b1-426f-9247-bb680e5fe0c8`: 36 characters, hyphens at positions
/// 8, 13, 18 and 23, lower-case hexadecimal digits everywhere else.
pub open spec fn is_hyphenated_uuid_text(s: Seq<char>) -> bool {
    &&& s.len() == 36
    &&& forall|i: int|
        0 <= i < 36 ==> if i == 8 || i == 13 || i == 18 || i == 23 {
            s[i] == '-'
        } else {
            is_lower_hex_digit(#[trigger] s[i])
        }
}

pub open spec fn option_string_view(s: Option<String>) -> Option<Seq<char>> {
    match s {
        Some(s) => Some(s@),
        None => None,
    }
}

/// What `Uuid::parse_str` followed by hyphenated formatting makes of a text.
pub uninterp spec fn spec_uuid_reformat(text: Seq<char>) -> Option<Seq<char>>;

/// Calls `uuid::Uuid::new_v4` and formats the result with
/// `Uuid::hyphenated`: a random identifier whose text is 36 characters of
/// lower-case hexadecimal digits and hyphens in the 8-4-4-4-12 layout.
#[verifier::external_body]
pub fn new_uuid_text() -> (id: String)
    ensures
        is_hyphenated_uuid_text(id@),
{
    Uuid::new_v4().hyphenated().to_string()
}

/// Calls `uuid::Uuid::parse_str` and, when it succeeds, formats the parsed UUID
/// with `Uuid::hyphenated`. The formatted text is always in the hyphenated
/// lower-case layout, and a text already in that layout is parsed and
/// formatted back to itself. Which other texts parse is left to the name
/// `spec_uuid_reformat`.
#[verifier::external_body]
fn uuid_reformat(text: &str) -> (formatted: Option<String>)
    ensures
        spec_uuid_reformat(text@) == option_string_view(formatted),
        option_string_view(formatted) matches Some(f) ==> is_hyphenated_uuid_text(f),
        is_hyphenated_uuid_text(text@) ==> option_string_view(formatted) == Some(text@),
{
    match Uuid::parse_str(text) {
        Ok(uuid) => Some(uuid.hyphenated().to_string()),
        Err(_) => None,
    }
}

/// An object identifier is accepted exactly when it is a UUID written in the
/// hyphenated lower-case form.
pub fn validate_object_id(id: &str) -> (valid: bool)
    ensures
        valid == is_hyphenated_uuid_text(id@),
{
    match uuid_reformat(id) {
        Some(formatted) => formatted == id.to_owned(),
        None => false,
    }
}

} // verus!
