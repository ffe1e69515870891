//! Trusted interface to the language-tag crate.
//!
//! Locales are kept in the library as canonical tag strings; the outside
//! crate is consulted only to parse and canonicalize tags and to strip a
//! region subtag for the fallback derivation heuristic.

use vstd::prelude::*;

verus! {

#[verifier::external_type_specification]
#[verifier::external_body]
pub struct ExLanguageIdentifier(unic_langid::LanguageIdentifier);

/// The canonical form of a language tag, or `None` where the string is not a
/// well-formed tag.  Stands for what parsing with `unic_langid` and printing
/// the result yields; the outcome depends on the input string alone.
pub uninterp spec fn canonical_tag(s: Seq<char>) -> Option<Seq<char>>;

/// The canonical tag with its region subtag removed, or `None` where the tag
/// does not parse or carries no region subtag.
pub uninterp spec fn stripped_tag(s: Seq<char>) -> Option<Seq<char>>;

/// Relies on `unic_langid::LanguageIdentifier`: `FromStr` accepts exactly the
/// well-formed language tags and `Display` prints the canonical form.
#[verifier::external_body]
pub fn canonicalize_tag(s: &str) -> (r: Result<String, String>)
    ensures
        r is Ok <==> canonical_tag(s@) is Some,
        r matches Ok(t) ==> canonical_tag(s@) == Some(t@),
{
    match s.parse::<unic_langid::LanguageIdentifier>() {
        Ok(id) => Ok(id.to_string()),
        Err(err) => Err(err.to_string()),
    }
}

/// Relies on `unic_langid::LanguageIdentifier`: the `region` field holds the
/// region subtag, and printing after clearing it omits that subtag, so the
/// result differs from the input.
#[verifier::external_body]
pub fn strip_region(s: &str) -> (r: Option<String>)
    ensures
        r is Some <==> stripped_tag(s@) is Some,
        r matches Some(t) ==> stripped_tag(s@) == Some(t@) && t@ != s@,
{
    match s.parse::<unic_langid::LanguageIdentifier>() {
        Ok(mut id) if id.region.is_some() => {
            id.region = None;
            Some(id.to_string())
        }
        _ => None,
    }
}

/// Relies on `unic_langid::LanguageIdentifier::from_str`: used to hand real
/// language identifiers to the formatting engine; an unparsable tag falls
/// back to the undefined language.
#[verifier::external_body]
pub fn to_language_identifier(s: &str) -> unic_langid::LanguageIdentifier {
    s.parse::<unic_langid::LanguageIdentifier>().unwrap_or_default()
}

} // verus!
