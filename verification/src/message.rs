//! A message value: a catalog, a key and optional arguments bound to an
//! engine, translatable for any supported locale.

use vstd::prelude::*;

use crate::args::{merge_args, TranslationArgs};
use crate::bundle::{format_outcome, resolve, Resolution};
use crate::l10n::{L10n, TranslateError};
use crate::locales::Locale;
use crate::utils::split_key;

verus! {

/// The end-to-end outcome of one translation query: the formatted text
/// where the catalog, locale and key resolve and the engine formats
/// cleanly, nothing otherwise.
pub open spec fn translation_outcome(
    engine: L10n,
    locale: Seq<char>,
    resource: Seq<char>,
    key: Seq<char>,
    args: Map<Seq<char>, Seq<char>>,
) -> Option<Seq<char>> {
    if !engine.has_resource(resource) {
        None
    } else {
        let res0 = engine.resource_of(resource);
        if !res0.has_locale(locale) {
            None
        } else {
            let b = res0.bundle_of(locale);
            match resolve(b.spec_docs(), b.messages(), split_key(key).0, split_key(key).1) {
                Resolution::Found(_) => match format_outcome(
                    b.spec_sources(),
                    b.spec_locales(),
                    b.spec_isolating(),
                    split_key(key).0,
                    split_key(key).1,
                    args,
                ) {
                    Ok(t) => Some(t),
                    Err(_) => None,
                },
                _ => None,
            }
        }
    }
}

/// One logical message of an engine's catalog, with its own arguments.
pub struct Message<'a> {
    l10n: &'a L10n,
    resource: &'a str,
    key: &'a str,
    args: Option<TranslationArgs>,
}

impl<'a> Message<'a> {
    /// The engine the message is bound to.
    pub closed spec fn spec_l10n(&self) -> L10n {
        *self.l10n
    }

    /// The catalog the message lives in.
    pub closed spec fn spec_resource(&self) -> Seq<char> {
        self.resource@
    }

    /// The message key.
    pub closed spec fn spec_key(&self) -> Seq<char> {
        self.key@
    }

    /// The message's own argument bindings, where it has any.
    pub closed spec fn spec_args(&self) -> Option<Map<Seq<char>, Seq<char>>> {
        match self.args {
            Some(a) => Some(a@),
            None => None,
        }
    }

    /// The bindings one call formats with: the message's own, the
    /// caller's overriding on names bound by both.
    pub open spec fn effective_args(&self, caller: Option<Map<Seq<char>, Seq<char>>>) -> Map<
        Seq<char>,
        Seq<char>,
    > {
        match (self.spec_args(), caller) {
            (Some(own), Some(over)) => own.union_prefer_right(over),
            (Some(own), None) => own,
            (None, Some(over)) => over,
            (None, None) => Map::empty(),
        }
    }

    /// Binds a catalog key and arguments to an engine.
    pub fn new(
        l10n: &'a L10n,
        resource: &'a str,
        key: &'a str,
        args: Option<TranslationArgs>,
    ) -> (r: Message<'a>)
        ensures
            r.spec_l10n() == *l10n,
            r.spec_resource() == resource@,
            r.spec_key() == key@,
            r.spec_args() == match args {
                Some(a) => Some(a@),
                None => None::<Map<Seq<char>, Seq<char>>>,
            },
    {
        Message { l10n, resource, key, args }
    }

    /// Translates the message, the caller's arguments overriding the
    /// message's own on names bound by both.
    pub fn try_translate_with_args(
        &self,
        locale: &Locale,
        args: Option<&TranslationArgs>,
    ) -> (r: Result<String, TranslateError>)
        ensures
            ({
                let eff = self.effective_args(
                    match args {
                        Some(a) => Some(a@),
                        None => None,
                    },
                );
                match translation_outcome(
                    self.spec_l10n(),
                    locale@,
                    self.spec_resource(),
                    self.spec_key(),
                    eff,
                ) {
                    Some(t) => r matches Ok(s) && s@ == t,
                    None => r is Err,
                }
            }),
    {
        match (&self.args, args) {
            (Some(local_args), Some(overriding_args)) => {
                let merged = merge_args(local_args, overriding_args);
                self.l10n.try_translate_with_args(locale, self.resource, self.key, Some(&merged))
            },
            (Some(local_args), None) => self.l10n.try_translate_with_args(
                locale,
                self.resource,
                self.key,
                Some(local_args),
            ),
            (None, overriding) => self.l10n.try_translate_with_args(
                locale,
                self.resource,
                self.key,
                overriding,
            ),
        }
    }

    /// The best-effort variant: the formatted text where the query
    /// succeeds, the fixed sentinel on any failure.
    pub fn translate_with_args(&self, locale: &Locale, args: Option<&TranslationArgs>) -> (r:
        String)
        ensures
            ({
                let eff = self.effective_args(
                    match args {
                        Some(a) => Some(a@),
                        None => None,
                    },
                );
                r@ == match translation_outcome(
                    self.spec_l10n(),
                    locale@,
                    self.spec_resource(),
                    self.spec_key(),
                    eff,
                ) {
                    Some(t) => t,
                    None => crate::l10n_message::UNEXPECTED_MESSAGE@,
                }
            }),
    {
        match self.try_translate_with_args(locale, args) {
            Ok(s) => s,
            Err(_) => crate::l10n_message::UNEXPECTED_MESSAGE.to_owned(),
        }
    }

    /// Translates without extra arguments.
    pub fn try_translate(&self, locale: &Locale) -> (r: Result<String, TranslateError>)
        ensures
            match translation_outcome(
                self.spec_l10n(),
                locale@,
                self.spec_resource(),
                self.spec_key(),
                self.effective_args(None),
            ) {
                Some(t) => r matches Ok(s) && s@ == t,
                None => r is Err,
            },
    {
        self.try_translate_with_args(locale, None)
    }

    /// The best-effort variant without extra arguments.
    pub fn translate(&self, locale: &Locale) -> (r: String)
        ensures
            r@ == match translation_outcome(
                self.spec_l10n(),
                locale@,
                self.spec_resource(),
                self.spec_key(),
                self.effective_args(None),
            ) {
                Some(t) => t,
                None => crate::l10n_message::UNEXPECTED_MESSAGE@,
            },
    {
        match self.try_translate_with_args(locale, None) {
            Ok(s) => s,
            Err(_) => crate::l10n_message::UNEXPECTED_MESSAGE.to_owned(),
        }
    }
}

} // verus!
