//! A localization engine that resolves message keys to localized strings.
//!
//! Translation content is shipped as a tree of per-locale resource files in
//! the Fluent format.  A configured locale graph decides, for every catalog
//! and locale, which resource documents apply and in which override order;
//! the Fluent engine itself (parsing and formatting) is consumed through a
//! narrow trusted interface.

pub mod args;
pub mod ast;
pub mod bundle;
pub mod config;
pub mod fluent;
pub mod l10n;
pub mod l10n_message;
pub mod langid;
pub mod locales;
pub mod message;
pub mod resource;
pub mod utils;

pub use args::merge_args;
pub use l10n_message::UNEXPECTED_MESSAGE;
