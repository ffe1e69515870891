//! The trait a displayable, localizable value implements: a fallible
//! translation, and best-effort variants that substitute a fixed sentinel
//! string on any failure so display code can remain total.

use vstd::prelude::*;

use crate::args::TranslationArgs;
use crate::l10n::TranslateError;
use crate::locales::Locale;

verus! {

/// The sentinel shown where a best-effort translation failed.
pub const UNEXPECTED_MESSAGE: &'static str = "Unexpected message";

pub trait L10nMessage {
    /// Translates for the locale, merging the given arguments over the
    /// value's own.
    fn try_translate_with_args(&self, locale: &Locale, args: Option<&TranslationArgs>) -> Result<
        String,
        TranslateError,
    >;

    /// The best-effort variant: the sentinel on any failure.
    fn translate_with_args(&self, locale: &Locale, args: Option<&TranslationArgs>) -> String {
        match self.try_translate_with_args(locale, args) {
            Ok(s) => s,
            Err(_) => UNEXPECTED_MESSAGE.to_owned(),
        }
    }

    /// Translates without extra arguments.
    fn try_translate(&self, locale: &Locale) -> Result<String, TranslateError> {
        self.try_translate_with_args(locale, None)
    }

    /// The best-effort variant without extra arguments.
    fn translate(&self, locale: &Locale) -> String {
        match self.try_translate_with_args(locale, None) {
            Ok(s) => s,
            Err(_) => UNEXPECTED_MESSAGE.to_owned(),
        }
    }
}

} // verus!
