use vstd::prelude::*;
use vstd::string::*;

verus! {

/// The JSON parser's error, carried to the caller as it is.
#[verifier::external_type_specification]
#[verifier::external_body]
pub struct ExJsonError(serde_json::Error);

/// The lower-case form of a text, as std's `str::to_lowercase` gives it.
pub uninterp spec fn lowercase_of(s: Seq<char>) -> Seq<char>;

/// A text without its leading and trailing white space, as std's `str::trim` gives it.
pub uninterp spec fn trimmed(s: Seq<char>) -> Seq<char>;

/// The list of indices a JSON text holds, if it is a JSON array of unsigned integers
/// that fit in `usize`, as `serde_json::from_str` reads it.
pub uninterp spec fn json_indices(s: Seq<char>) -> Option<Seq<usize>>;

/// The (name, score) pairs a JSON text holds, if it is a JSON array of
/// two-element arrays of a string and an integer that fits in `u32`, as
/// `serde_json::from_str` reads it.
pub uninterp spec fn json_scores(s: Seq<char>) -> Option<Seq<(Seq<char>, u32)>>;

/// A decimal digit.
pub open spec fn is_digit(c: char) -> bool {
    '0' <= c && c <= '9'
}

/// The number the decimal digits spell.
pub open spec fn digits_value(s: Seq<char>) -> int
    decreases s.len(),
{
    if s.len() == 0 {
        0
    } else {
        digits_value(s.drop_last()) * 10 + (s.last() as int - '0' as int)
    }
}

/// The `usize` a text spells: an optional `+`, then one or more decimal digits,
/// nothing else, and a value that fits.
pub open spec fn usize_text(s: Seq<char>) -> Option<usize> {
    let d = if s.len() > 0 && s[0] == '+' { s.drop_first() } else { s };
    if d.len() > 0 && (forall|i: int| 0 <= i < d.len() ==> #[trigger] is_digit(d[i])) && digits_value(d)
        <= usize::MAX {
        Some(digits_value(d) as usize)
    } else {
        None
    }
}

/// Lower-cases a text.
///
/// Calls std's `str::to_lowercase`; claimed: the result is `lowercase_of` the text,
/// a function of the text alone. What that function is (Unicode case mapping) is
/// left unsaid.
#[verifier::external_body]
pub(crate) fn to_lower(s: &str) -> (r: String)
    ensures
        r@ == lowercase_of(s@),
{
    s.to_lowercase()
}

/// Trims white space from both ends of a text.
///
/// Calls std's `str::trim`; claimed: the result is `trimmed` of the text, a function
/// of the text alone. Which characters count as white space (Unicode's White_Space)
/// is left unsaid.
#[verifier::external_body]
pub(crate) fn trim_text(s: &str) -> (r: &str)
    ensures
        r@ == trimmed(s@),
{
    s.trim()
}

/// Reads a `usize` from a text.
///
/// Calls std's `str::parse::<usize>`; claimed, as std documents for integer parsing:
/// an optional `+` followed by decimal digits only, with a value in range, gives that
/// value, anything else an error.
#[verifier::external_body]
pub(crate) fn parse_usize(s: &str) -> (r: Option<usize>)
    ensures
        r == usize_text(s@),
{
    s.parse::<usize>().ok()
}

/// Reads a JSON array of indices.
///
/// Calls `serde_json::from_str::<Vec<usize>>`; claimed: it succeeds exactly when
/// `json_indices` of the text is some list, and then gives that list; both are a
/// function of the text alone. The JSON grammar itself is left unsaid.
#[verifier::external_body]
pub(crate) fn indices_from_json(s: &str) -> (r: Result<Vec<usize>, serde_json::Error>)
    ensures
        r is Ok <==> json_indices(s@) is Some,
        r matches Ok(v) ==> json_indices(s@) == Some(v@),
{
    serde_json::from_str::<Vec<usize>>(s)
}

/// Reads a JSON array of (name, score) pairs.
///
/// Calls `serde_json::from_str::<Vec<(String, u32)>>`; claimed: it succeeds exactly
/// when `json_scores` of the text is some list, and then gives that list (names by
/// their characters); both are a function of the text alone. The JSON grammar itself
/// is left unsaid.
#[verifier::external_body]
pub(crate) fn scores_from_json(s: &str) -> (r: Result<Vec<(String, u32)>, serde_json::Error>)
    ensures
        r is Ok <==> json_scores(s@) is Some,
        r matches Ok(v) ==> json_scores(s@) == Some(v@.map_values(|p: (String, u32)| (p.0@, p.1))),
{
    serde_json::from_str::<Vec<(String, u32)>>(s)
}

/// Whether a text equals a literal word.
pub(crate) fn text_is(s: &String, word: &str) -> (b: bool)
    ensures
        b <==> s@ == word@,
{
    let w = String::from_str(word);
    s.eq(&w)
}

} // verus!
