//! Trusted interface to the Fluent engine.
//!
//! Parsing resource text and formatting patterns are the engine's work;
//! the library consumes both through the narrow wrappers below and keeps
//! its own verified model of every parsed document.

use vstd::prelude::*;

use crate::args::TranslationArgs;

verus! {

/// The engine's parsed resource: opaque to the library, which keeps its
/// own model of every document.
#[verifier::external_type_specification]
#[verifier::external_body]
pub struct ExFluentResource(fluent_bundle::FluentResource);

/// The engine's message store; the library only ever formats through it.
#[verifier::external_type_specification]
#[verifier::external_body]
#[verifier::reject_recursive_types(R)]
#[verifier::reject_recursive_types(M)]
pub struct ExFluentBundle<R, M>(fluent_bundle::bundle::FluentBundle<R, M>);

/// The engine's thread-safe formatting cache, one per store.
#[verifier::external_type_specification]
#[verifier::external_body]
pub struct ExIntlLangMemoizer(intl_memoizer::concurrent::IntlLangMemoizer);

/// The concurrent message store used for every bundle.
pub type EngineBundle = fluent_bundle::bundle::FluentBundle<
    fluent_bundle::FluentResource,
    intl_memoizer::concurrent::IntlLangMemoizer,
>;

/// The syntax errors Fluent parsing reports for a source text, as their
/// descriptions, empty exactly when the text parses cleanly.  Stands for
/// the outcome of `FluentResource::try_new`, a function of the text alone.
pub uninterp spec fn fluent_parse_errors(source: Seq<char>) -> Seq<Seq<char>>;

/// Relies on `FluentResource::try_new`: parses Fluent source into a
/// resource; on a syntax error the partially parsed resource is kept and
/// the errors' descriptions are reported.  Parsing is deterministic in the
/// source text.
#[verifier::external_body]
pub(crate) fn parse_fluent(source: &str) -> (r: FluentResourceAndErrors)
    ensures
        r.errors@.map_values(|e: String| e@) == fluent_parse_errors(source@),
{
    match fluent_bundle::FluentResource::try_new(source.to_string()) {
        Ok(r) => FluentResourceAndErrors { resource: r, errors: Vec::new() },
        Err((r, errs)) => FluentResourceAndErrors {
            resource: r,
            errors: errs.into_iter().map(|e| e.to_string()).collect(),
        },
    }
}

/// A parsed resource together with the descriptions of its syntax errors.
pub struct FluentResourceAndErrors {
    pub resource: fluent_bundle::FluentResource,
    pub errors: Vec<String>,
}

/// Relies on `FluentBundle::new_concurrent`: a fresh store for the given
/// locale fallback chain, holding no entries.
#[verifier::external_body]
pub(crate) fn new_engine_bundle(locales: Vec<unic_langid::LanguageIdentifier>) -> EngineBundle {
    fluent_bundle::bundle::FluentBundle::new_concurrent(locales)
}

/// Relies on `FluentBundle::add_resource_overriding`: entries of the added
/// resource override same-named entries already in the store.
#[verifier::external_body]
pub(crate) fn engine_add_resource(
    bundle: &mut EngineBundle,
    resource: fluent_bundle::FluentResource,
)
    no_unwind
{
    bundle.add_resource_overriding(resource);
}

/// Relies on `FluentBundle::set_use_isolating`: switches directionality
/// isolation marks in formatted output on or off.
#[verifier::external_body]
pub(crate) fn engine_set_use_isolating(bundle: &mut EngineBundle, value: bool)
    no_unwind
{
    bundle.set_use_isolating(value);
}

/// The engine's argument collection, built from plain pairs just before
/// formatting.
#[verifier::external_type_specification]
#[verifier::external_body]
pub struct ExFluentArgs<'a>(fluent_bundle::FluentArgs<'a>);

/// Relies on `FluentArgs::set`: converts the plain argument pairs into the
/// engine's argument collection, a later pair overriding an earlier one of
/// the same name.
#[verifier::external_body]
pub(crate) fn engine_args(args: Option<&TranslationArgs>) -> fluent_bundle::FluentArgs<'static> {
    let mut fargs = fluent_bundle::FluentArgs::new();
    for (k, v) in args.iter().flat_map(|a| a.entries().iter()) {
        fargs.set(k.clone(), v.clone());
    }
    fargs
}

/// Relies on `FluentBundle::get_message` and `FluentBundle::format_pattern`:
/// looks the message or attribute pattern up in the store and formats it
/// with the given arguments; formatting problems are reported as their
/// descriptions, alongside no output.
#[verifier::external_body]
pub(crate) fn engine_format(
    bundle: &EngineBundle,
    id: &str,
    attribute: Option<&String>,
    args: &fluent_bundle::FluentArgs<'static>,
) -> Result<String, Vec<String>> {
    let msg = bundle.get_message(id).ok_or_else(|| vec!["unknown message".to_string()])?;
    let pattern = match &attribute {
        Some(a) => msg.get_attribute(a).map(|at| at.value()),
        None => msg.value(),
    };
    let pattern = pattern.ok_or_else(|| vec!["missing pattern".to_string()])?;
    let mut errors = vec![];
    let formatted = bundle.format_pattern(pattern, Some(args), &mut errors);
    if errors.is_empty() {
        Ok(formatted.into_owned())
    } else {
        Err(errors.into_iter().map(|e| e.to_string()).collect())
    }
}

} // verus!
