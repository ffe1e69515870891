//! The engine: registration of resource documents, build-time consistency
//! validation, bundle construction, and the query surface.

use vstd::prelude::*;

use std::rc::Rc;

use crate::ast::{model_resource, share_doc, DocumentModel};
use crate::fluent::parse_fluent;
use crate::locales::{Locale, Locales};
use crate::utils::{join_seqs, values_to_string};

verus! {

/// A per-call, recoverable query failure.
#[derive(PartialEq, Eq, Debug)]
pub enum TranslateError {
    /// The catalog is not known at all.
    ResourceNotExists(String),
    /// The catalog has no bundle for the locale.
    LocaleNotSupported { locale: Locale },
    MessageIdNotExists { id: String, locale: Locale },
    MessageAttributeNotExists { attribute: String, id: String, locale: Locale },
    /// The message exists but has no default value and no attribute was
    /// requested.
    MessageIdValueNotExists { id: String, locale: Locale },
    /// A chain of message references longer than the documents could
    /// support: the references must revisit a message.
    CyclicReference { id: String, locale: Locale },
    /// The engine reported interpolation problems; their descriptions.
    FormatErrors(Vec<String>),
}

/// Whether the failure is one of the per-key kinds a requirement scan can
/// report.
pub open spec fn per_key_error(e: TranslateError) -> bool {
    ||| e matches TranslateError::MessageIdNotExists { .. }
    ||| e matches TranslateError::MessageAttributeNotExists { .. }
    ||| e matches TranslateError::MessageIdValueNotExists { .. }
    ||| e matches TranslateError::CyclicReference { .. }
}

/// The locale a failure names, where its kind carries one.
pub open spec fn translate_error_locale(e: TranslateError) -> Option<Seq<char>> {
    match e {
        TranslateError::LocaleNotSupported { locale } => Some(locale@),
        TranslateError::MessageIdNotExists { locale, .. } => Some(locale@),
        TranslateError::MessageAttributeNotExists { locale, .. } => Some(locale@),
        TranslateError::MessageIdValueNotExists { locale, .. } => Some(locale@),
        TranslateError::CyclicReference { locale, .. } => Some(locale@),
        _ => None,
    }
}

/// A build-time consistency violation.
#[derive(PartialEq, Eq, Debug)]
pub enum BuildError {
    /// A catalog without its own content at a mandatory locale.
    MissingResource { resource: String, locales: Vec<Locale> },
    /// Reserved for stricter per-message cross-locale auditing; the
    /// consistency check of this version does not produce them.
    MissingMessage { resource: String, message: String, locales: Vec<Locale> },
    ExtraMessage { resource: String, message: String, locales: Vec<Locale> },
    MissingAttribute { resource: String, message: String, attribute: String, locales: Vec<Locale> },
    ExtraAttribute { resource: String, message: String, attribute: String, locales: Vec<Locale> },
}

/// Every build-time consistency violation, collected, not fail-fast.
#[derive(PartialEq, Eq, Debug)]
pub struct BuildErrors(pub Vec<BuildError>);

impl TranslateError {
    /// The diagnostic text of the failure.
    pub fn message(&self) -> (r: String)
        ensures
            r@ == match self {
                TranslateError::ResourceNotExists(n) => "resource \""@ + n@ + "\" not exists"@,
                TranslateError::LocaleNotSupported { locale } => "locale \""@ + locale@
                    + "\" not supported"@,
                TranslateError::MessageIdNotExists { id, locale } => "message id: \""@ + id@
                    + "\", not exists for locale \""@ + locale@ + "\""@,
                TranslateError::MessageAttributeNotExists { attribute, id, locale } => "attribute: \""@
                    + attribute@ + "\", not exists on message id: \""@ + id@
                    + "\", for locale \""@ + locale@ + "\""@,
                TranslateError::MessageIdValueNotExists { id, locale } => "message value: \""@
                    + id@ + "\", not defined for locale \""@ + locale@ + "\""@,
                TranslateError::CyclicReference { id, locale } => "cyclic message reference: \""@
                    + id@ + "\", for locale \""@ + locale@ + "\""@,
                TranslateError::FormatErrors(errors) => "format errors:\n  - "@
                    + crate::utils::join_seqs(
                    errors@.map_values(|s: String| s@),
                    "\n  - "@,
                ),
            },
    {
        let mut out = String::new();
        match self {
            TranslateError::ResourceNotExists(n) => {
                out.append("resource \"");
                out.append(n.as_str());
                out.append("\" not exists");
            },
            TranslateError::LocaleNotSupported { locale } => {
                out.append("locale \"");
                out.append(locale.tag());
                out.append("\" not supported");
            },
            TranslateError::MessageIdNotExists { id, locale } => {
                out.append("message id: \"");
                out.append(id.as_str());
                out.append("\", not exists for locale \"");
                out.append(locale.tag());
                out.append("\"");
            },
            TranslateError::MessageAttributeNotExists { attribute, id, locale } => {
                out.append("attribute: \"");
                out.append(attribute.as_str());
                out.append("\", not exists on message id: \"");
                out.append(id.as_str());
                out.append("\", for locale \"");
                out.append(locale.tag());
                out.append("\"");
            },
            TranslateError::MessageIdValueNotExists { id, locale } => {
                out.append("message value: \"");
                out.append(id.as_str());
                out.append("\", not defined for locale \"");
                out.append(locale.tag());
                out.append("\"");
            },
            TranslateError::CyclicReference { id, locale } => {
                out.append("cyclic message reference: \"");
                out.append(id.as_str());
                out.append("\", for locale \"");
                out.append(locale.tag());
                out.append("\"");
            },
            TranslateError::FormatErrors(errors) => {
                out.append("format errors:\n  - ");
                let joined = values_to_string(errors, "\n  - ");
                out.append(joined.as_str());
            },
        }
        out
    }
}

/// The diagnostic text of a build-time violation.
pub open spec fn build_error_text(e: BuildError) -> Seq<char> {
    match e {
        BuildError::MissingResource { resource, locales } => "missing resource \""@ + resource@
            + "\" "@ + crate::utils::for_locales_spec(locales@.map_values(|l: Locale| l@)),
        BuildError::MissingMessage { resource, message, locales } => "missing message \""@
            + message@ + "\" in resource \""@ + resource@ + "\" for locales: "@
            + crate::utils::join_seqs(locales@.map_values(|l: Locale| l@), ", "@),
        BuildError::ExtraMessage { resource, message, locales } => "extra message \""@ + message@
            + "\" in resource \""@ + resource@ + "\" for locales: "@ + crate::utils::join_seqs(
            locales@.map_values(|l: Locale| l@),
            ", "@,
        ),
        BuildError::MissingAttribute { resource, message, attribute, locales } => "missing attribute \""@
            + attribute@ + "\" for message \""@ + message@ + "\" in resource \""@ + resource@
            + "\" for locales: "@ + crate::utils::join_seqs(
            locales@.map_values(|l: Locale| l@),
            ", "@,
        ),
        BuildError::ExtraAttribute { resource, message, attribute, locales } => "extra attribute \""@
            + attribute@ + "\" for message \""@ + message@ + "\" in resource \""@ + resource@
            + "\" for locales: "@ + crate::utils::join_seqs(
            locales@.map_values(|l: Locale| l@),
            ", "@,
        ),
    }
}

impl BuildError {
    /// The diagnostic text of the violation.
    pub fn message(&self) -> (r: String)
        ensures
            r@ == build_error_text(*self),
    {
        let mut out = String::new();
        match self {
            BuildError::MissingResource { resource, locales } => {
                out.append("missing resource \"");
                out.append(resource.as_str());
                out.append("\" ");
                let suffix = crate::utils::for_locales(locales);
                out.append(suffix.as_str());
            },
            BuildError::MissingMessage { resource, message, locales } => {
                out.append("missing message \"");
                out.append(message.as_str());
                out.append("\" in resource \"");
                out.append(resource.as_str());
                out.append("\" for locales: ");
                let joined = crate::utils::locales_to_string(locales, ", ");
                out.append(joined.as_str());
            },
            BuildError::ExtraMessage { resource, message, locales } => {
                out.append("extra message \"");
                out.append(message.as_str());
                out.append("\" in resource \"");
                out.append(resource.as_str());
                out.append("\" for locales: ");
                let joined = crate::utils::locales_to_string(locales, ", ");
                out.append(joined.as_str());
            },
            BuildError::MissingAttribute { resource, message, attribute, locales } => {
                out.append("missing attribute \"");
                out.append(attribute.as_str());
                out.append("\" for message \"");
                out.append(message.as_str());
                out.append("\" in resource \"");
                out.append(resource.as_str());
                out.append("\" for locales: ");
                let joined = crate::utils::locales_to_string(locales, ", ");
                out.append(joined.as_str());
            },
            BuildError::ExtraAttribute { resource, message, attribute, locales } => {
                out.append("extra attribute \"");
                out.append(attribute.as_str());
                out.append("\" for message \"");
                out.append(message.as_str());
                out.append("\" in resource \"");
                out.append(resource.as_str());
                out.append("\" for locales: ");
                let joined = crate::utils::locales_to_string(locales, ", ");
                out.append(joined.as_str());
            },
        }
        out
    }
}

impl BuildErrors {
    /// The diagnostic text of the whole collection, one violation per
    /// line.
    pub fn message(&self) -> (r: String)
        ensures
            r@ == "build l10n errors:\n  - "@ + crate::utils::join_seqs(
                self.0@.map_values(|e: BuildError| build_error_text(e)),
                "\n  - "@,
            ),
    {
        let mut out = String::new();
        out.append("build l10n errors:\n  - ");
        let n = self.0.len();
        let mut texts: Vec<String> = Vec::new();
        let mut i: usize = 0;
        while i < n
            invariant
                i <= n,
                n == self.0.len(),
                texts@.len() == i,
                forall|x: int|
                    0 <= x < i ==> (#[trigger] texts@[x])@ == build_error_text(self.0@[x]),
            decreases n - i,
        {
            texts.push(self.0[i].message());
            i += 1;
        }
        proof {
            assert(texts@.map_values(|s: String| s@) =~= self.0@.map_values(
                |e: BuildError| build_error_text(e),
            ));
        }
        let joined = values_to_string(&texts, "\n  - ");
        out.append(joined.as_str());
        out
    }
}

/// A failure while walking and parsing the resource tree.
#[derive(Debug)]
pub enum ParserError {
    /// A directory name that is not a language tag, found while no
    /// explicit locale set was configured.
    ParseLangDir { dir_name: String, message: String },
    /// Locales declared mandatory by the configuration that the walk never
    /// visited.
    MissingLocales(Vec<Locale>),
    /// A resource file directly under the root that is not marked private.
    GlobalNamedResource { path: String },
    /// Fluent syntax errors, as the parser described them.
    FluentParser { errors: Vec<String> },
    /// The same catalog registered twice for one locale.
    DuplicateResource { name: String, locale: Locale },
}

impl ParserError {
    /// The diagnostic text of the failure.
    pub fn message(&self) -> (r: String)
        ensures
            r@ == match self {
                ParserError::ParseLangDir { dir_name, message } => "impossible to parse directory `"@
                    + dir_name@ + "` as a language identifier, (error: "@ + message@ + ")"@,
                ParserError::MissingLocales(v) => "missing mandatory locale "@ + (if v@.len()
                    == 1 {
                    "directory"@
                } else {
                    "directories"@
                }) + ": "@ + crate::utils::join_seqs(v@.map_values(|l: Locale| l@), ", "@),
                ParserError::GlobalNamedResource { path } => "named resource \""@ + path@
                    + "\" cannot be global, please prefix file name with `_`"@,
                ParserError::FluentParser { errors } => "parsing errors:\n  - "@
                    + crate::utils::join_seqs(errors@.map_values(|s: String| s@), "\n  - "@),
                ParserError::DuplicateResource { name, locale } => "named resource: \""@ + name@
                    + "\" already exists for locale: \""@ + locale@ + "\""@,
            },
    {
        let mut out = String::new();
        match self {
            ParserError::ParseLangDir { dir_name, message } => {
                out.append("impossible to parse directory `");
                out.append(dir_name.as_str());
                out.append("` as a language identifier, (error: ");
                out.append(message.as_str());
                out.append(")");
            },
            ParserError::MissingLocales(v) => {
                out.append("missing mandatory locale ");
                out.append(crate::utils::grammar_number(v, "directory", "directories"));
                out.append(": ");
                let joined = crate::utils::locales_to_string(v, ", ");
                out.append(joined.as_str());
            },
            ParserError::GlobalNamedResource { path } => {
                out.append("named resource \"");
                out.append(path.as_str());
                out.append("\" cannot be global, please prefix file name with `_`");
            },
            ParserError::FluentParser { errors } => {
                out.append("parsing errors:\n  - ");
                let joined = values_to_string(errors, "\n  - ");
                out.append(joined.as_str());
            },
            ParserError::DuplicateResource { name, locale } => {
                out.append("named resource: \"");
                out.append(name.as_str());
                out.append("\" already exists for locale: \"");
                out.append(locale.tag());
                out.append("\"");
            },
        }
        out
    }
}

/// One file or directory of the resource tree, as plain values; the
/// embedding program reads the filesystem into this shape.
pub enum TreeNode {
    File { name: String, contents: String },
    Dir { name: String, children: Vec<TreeNode> },
}

/// One parsed document owned by the store: its source text and its model.
pub struct DocSource {
    pub source: String,
    pub model: Rc<DocumentModel>,
}

/// A registration of a path-scoped shared document.
pub struct UnnamedEvent {
    pub path: Vec<String>,
    pub locale: Locale,
    pub doc: usize,
}

/// A registration of a catalog's own document for one locale.
pub struct NamedEvent {
    pub name: String,
    pub locale: Locale,
    pub doc: usize,
}

/// The catalog name of a file: its directory segments and stem joined
/// with slashes.
pub open spec fn catalog_name(path: Seq<Seq<char>>, stem: Seq<char>) -> Seq<char> {
    join_seqs(path.push(stem), "/"@)
}

/// Whether a named registration exists for the catalog and locale.
pub open spec fn named_defined(events: Seq<NamedEvent>, name: Seq<char>, tag: Seq<char>) -> bool {
    exists|j: int|
        0 <= j < events.len() && (#[trigger] events[j]).name@ == name && events[j].locale@ == tag
}

/// Every registered catalog has its own content directly at every
/// mandatory locale; inheritance through fallback does not count, since a
/// mandatory locale is the end of its own chain.
pub open spec fn names_consistent(events: Seq<NamedEvent>, mandatory: Set<Seq<char>>) -> bool {
    forall|k: int, t: Seq<char>|
        0 <= k < events.len() && #[trigger] mandatory.contains(t) ==> named_defined(
            events,
            (#[trigger] events[k]).name@,
            t,
        )
}

/// The mandatory locales a catalog lacks its own content for.
pub open spec fn catalog_missing(
    events: Seq<NamedEvent>,
    mandatory: Set<Seq<char>>,
    name: Seq<char>,
) -> Set<Seq<char>> {
    Set::new(|t: Seq<char>| mandatory.contains(t) && !named_defined(events, name, t))
}

/// The same set, restricted to the first `upto` mandatory locales of a
/// list.
pub open spec fn catalog_missing_upto(
    mand: Seq<Locale>,
    events: Seq<NamedEvent>,
    name: Seq<char>,
    upto: int,
) -> Set<Seq<char>> {
    Set::new(
        |t: Seq<char>|
            exists|x: int|
                0 <= x < upto && (#[trigger] mand[x])@ == t && !named_defined(events, name, t),
    )
}

/// The catalog a build-time violation names.
pub open spec fn build_error_resource(e: BuildError) -> Seq<char> {
    match e {
        BuildError::MissingResource { resource, .. } => resource@,
        BuildError::MissingMessage { resource, .. } => resource@,
        BuildError::ExtraMessage { resource, .. } => resource@,
        BuildError::MissingAttribute { resource, .. } => resource@,
        BuildError::ExtraAttribute { resource, .. } => resource@,
    }
}

/// The views of a path held as string segments.
pub open spec fn segs_view(p: Seq<String>) -> Seq<Seq<char>> {
    p.map_values(|s: String| s@)
}

/// The `(catalog name, locale)` pairs already registered.
pub open spec fn named_pairs(events: Seq<NamedEvent>) -> Set<(Seq<char>, Seq<char>)> {
    Set::new(|p: (Seq<char>, Seq<char>)| named_defined(events, p.0, p.1))
}

/// The mandatory locales among the first `upto` that the walk never
/// visited.
pub open spec fn missing_upto(mand: Seq<Locale>, vset: Set<Seq<char>>, upto: int) -> Set<
    Seq<char>,
> {
    Set::new(
        |t: Seq<char>|
            exists|x: int| 0 <= x < upto && (#[trigger] mand[x])@ == t && !vset.contains(t),
    )
}

/// One file a locale-subtree walk registers: the directory segments it
/// was found under, its stem, its text, and whether the private prefix
/// marks it as path-scoped shared content.
pub ghost struct FileReg {
    pub path: Seq<Seq<char>>,
    pub stem: Seq<char>,
    pub contents: Seq<char>,
    pub shared: bool,
}

/// The registrations one node contributes to a locale-subtree walk.
pub open spec fn node_regs(n: TreeNode, rel: Seq<Seq<char>>) -> Seq<FileReg>
    decreases n, 0int,
{
    match n {
        TreeNode::File { name, contents } => match crate::utils::resource_stem(name@) {
            Some(stem) => seq![
                FileReg {
                    path: rel,
                    stem,
                    contents: contents@,
                    shared: stem.len() > 0 && stem[0] == '_',
                },
            ],
            None => Seq::empty(),
        },
        TreeNode::Dir { name, children } => walk_regs(children@, rel.push(name@)),
    }
}

/// The registrations a locale-subtree walk performs, in walk order.
pub open spec fn walk_regs(nodes: Seq<TreeNode>, rel: Seq<Seq<char>>) -> Seq<FileReg>
    decreases nodes, 1int,
{
    if nodes.len() == 0 {
        Seq::empty()
    } else {
        walk_regs(nodes.drop_last(), rel) + node_regs(nodes.last(), rel)
    }
}

/// The first registration a walk refuses, with its index and kind: `false`
/// for a catalog already registered at this locale (checked before
/// parsing, as registration does), `true` for a Fluent syntax error.
pub open spec fn reg_failure(
    regs: Seq<FileReg>,
    locale: Seq<char>,
    taken: Set<(Seq<char>, Seq<char>)>,
) -> Option<(int, bool)>
    decreases regs.len(),
{
    if regs.len() == 0 {
        None
    } else {
        let r0 = regs.first();
        let cn = catalog_name(r0.path, r0.stem);
        if !r0.shared && taken.contains((cn, locale)) {
            Some((0, false))
        } else if crate::fluent::fluent_parse_errors(r0.contents).len() != 0 {
            Some((0, true))
        } else {
            match reg_failure(
                regs.drop_first(),
                locale,
                if r0.shared {
                    taken
                } else {
                    taken.insert((cn, locale))
                },
            ) {
                Some(f) => Some((f.0 + 1, f.1)),
                None => None,
            }
        }
    }
}

/// The `(catalog name, locale)` pairs a clean walk adds.
pub open spec fn names_added(regs: Seq<FileReg>, locale: Seq<char>) -> Set<(Seq<char>, Seq<char>)> {
    Set::new(
        |p: (Seq<char>, Seq<char>)|
            p.1 == locale && exists|j: int|
                0 <= j < regs.len() && !((#[trigger] regs[j]).shared) && catalog_name(
                    regs[j].path,
                    regs[j].stem,
                ) == p.0,
    )
}

/// The path-scoped registrations of a clean walk, as directory and store
/// index, the first document landing at `base`.
pub open spec fn reg_unnamed(regs: Seq<FileReg>, base: int) -> Seq<(Seq<Seq<char>>, int)>
    decreases regs.len(),
{
    if regs.len() == 0 {
        Seq::empty()
    } else {
        reg_unnamed(regs.drop_last(), base) + (if regs.last().shared {
            seq![(regs.last().path, base + regs.len() - 1)]
        } else {
            Seq::empty()
        })
    }
}

/// The catalog registrations of a clean walk, as catalog name and store
/// index.
pub open spec fn reg_named(regs: Seq<FileReg>, base: int) -> Seq<(Seq<char>, int)>
    decreases regs.len(),
{
    if regs.len() == 0 {
        Seq::empty()
    } else {
        reg_named(regs.drop_last(), base) + (if !regs.last().shared {
            seq![(catalog_name(regs.last().path, regs.last().stem), base + regs.len() - 1)]
        } else {
            Seq::empty()
        })
    }
}

proof fn lemma_named_pairs_push(events: Seq<NamedEvent>, ev: NamedEvent)
    ensures
        named_pairs(events.push(ev)) == named_pairs(events).insert((ev.name@, ev.locale@)),
{
    assert(named_pairs(events.push(ev)) =~= named_pairs(events).insert((ev.name@, ev.locale@)))
        by {
        assert forall|p: (Seq<char>, Seq<char>)|
            named_pairs(events.push(ev)).contains(p) implies named_pairs(events).insert(
            (ev.name@, ev.locale@),
        ).contains(p) by {
            let j = choose|j: int|
                0 <= j < events.push(ev).len() && (#[trigger] events.push(ev)[j]).name@ == p.0
                    && events.push(ev)[j].locale@ == p.1;
            if j < events.len() {
                assert(events[j] == events.push(ev)[j]);
            }
        }
        assert forall|p: (Seq<char>, Seq<char>)|
            named_pairs(events).insert((ev.name@, ev.locale@)).contains(p) implies named_pairs(
            events.push(ev),
        ).contains(p) by {
            if p == (ev.name@, ev.locale@) {
                assert(events.push(ev)[events.len() as int].name@ == p.0);
            } else {
                let j = choose|j: int|
                    0 <= j < events.len() && (#[trigger] events[j]).name@ == p.0
                        && events[j].locale@ == p.1;
                assert(events.push(ev)[j] == events[j]);
            }
        }
    }
}

proof fn lemma_names_added_append(a: Seq<FileReg>, b: Seq<FileReg>, locale: Seq<char>)
    ensures
        names_added(a + b, locale) == names_added(a, locale).union(names_added(b, locale)),
{
    assert(names_added(a + b, locale) =~= names_added(a, locale).union(names_added(b, locale)))
        by {
        assert forall|p: (Seq<char>, Seq<char>)| names_added(a + b, locale).contains(p) implies
            names_added(a, locale).union(names_added(b, locale)).contains(p) by {
            let j = choose|j: int|
                0 <= j < (a + b).len() && !((#[trigger] (a + b)[j]).shared) && catalog_name(
                    (a + b)[j].path,
                    (a + b)[j].stem,
                ) == p.0;
            if j < a.len() {
                assert((a + b)[j] == a[j]);
            } else {
                assert((a + b)[j] == b[j - a.len()]);
            }
        }
        assert forall|p: (Seq<char>, Seq<char>)|
            names_added(a, locale).union(names_added(b, locale)).contains(p) implies names_added(
            a + b,
            locale,
        ).contains(p) by {
            if names_added(a, locale).contains(p) {
                let j = choose|j: int|
                    0 <= j < a.len() && !((#[trigger] a[j]).shared) && catalog_name(
                        a[j].path,
                        a[j].stem,
                    ) == p.0;
                assert((a + b)[j] == a[j]);
            } else {
                let j = choose|j: int|
                    0 <= j < b.len() && !((#[trigger] b[j]).shared) && catalog_name(
                        b[j].path,
                        b[j].stem,
                    ) == p.0;
                assert((a + b)[j + a.len()] == b[j]);
            }
        }
    }
}

proof fn lemma_reg_failure_append(
    a: Seq<FileReg>,
    b: Seq<FileReg>,
    locale: Seq<char>,
    taken: Set<(Seq<char>, Seq<char>)>,
)
    ensures
        reg_failure(a + b, locale, taken) == match reg_failure(a, locale, taken) {
            Some(f) => Some(f),
            None => match reg_failure(b, locale, taken.union(names_added(a, locale))) {
                Some(f) => Some((f.0 + a.len(), f.1)),
                None => None::<(int, bool)>,
            },
        },
    decreases a.len(),
{
    if a.len() == 0 {
        assert(a + b =~= b);
        assert(names_added(a, locale) =~= Set::<(Seq<char>, Seq<char>)>::empty());
        assert(taken.union(names_added(a, locale)) =~= taken);
    } else {
        let r0 = a.first();
        let cn = catalog_name(r0.path, r0.stem);
        assert((a + b).first() == r0);
        assert((a + b).drop_first() =~= a.drop_first() + b);
        if !r0.shared && taken.contains((cn, locale)) {
        } else if crate::fluent::fluent_parse_errors(r0.contents).len() != 0 {
        } else {
            let taken2 = if r0.shared {
                taken
            } else {
                taken.insert((cn, locale))
            };
            lemma_reg_failure_append(a.drop_first(), b, locale, taken2);
            assert forall|p: (Seq<char>, Seq<char>)|
                names_added(a.drop_first(), locale).contains(p) implies names_added(
                a,
                locale,
            ).contains(p) by {
                let j = choose|j: int|
                    0 <= j < a.drop_first().len() && !((#[trigger] a.drop_first()[j]).shared)
                        && catalog_name(a.drop_first()[j].path, a.drop_first()[j].stem) == p.0;
                assert(a[j + 1] == a.drop_first()[j]);
            }
            assert forall|p: (Seq<char>, Seq<char>)|
                names_added(a, locale).contains(p) && !(!r0.shared && p == (cn, locale)) implies
                names_added(a.drop_first(), locale).contains(p) by {
                let j = choose|j: int|
                    0 <= j < a.len() && !((#[trigger] a[j]).shared) && catalog_name(
                        a[j].path,
                        a[j].stem,
                    ) == p.0;
                if j == 0 {
                    assert(p.0 == cn && p.1 == locale);
                } else {
                    assert(a.drop_first()[j - 1] == a[j]);
                }
            }
            if !r0.shared {
                assert(names_added(a, locale).contains((cn, locale))) by {
                    assert(!a[0].shared && catalog_name(a[0].path, a[0].stem) == cn);
                }
            }
            assert(taken2.union(names_added(a.drop_first(), locale)) =~= taken.union(
                names_added(a, locale),
            ));
        }
    }
}

proof fn lemma_reg_failure_range(
    regs: Seq<FileReg>,
    locale: Seq<char>,
    taken: Set<(Seq<char>, Seq<char>)>,
)
    ensures
        reg_failure(regs, locale, taken) matches Some(f) ==> 0 <= f.0 < regs.len(),
    decreases regs.len(),
{
    if regs.len() > 0 {
        let r0 = regs.first();
        let cn = catalog_name(r0.path, r0.stem);
        if !r0.shared && taken.contains((cn, locale)) {
        } else if crate::fluent::fluent_parse_errors(r0.contents).len() != 0 {
        } else {
            lemma_reg_failure_range(
                regs.drop_first(),
                locale,
                if r0.shared {
                    taken
                } else {
                    taken.insert((cn, locale))
                },
            );
        }
    }
}

proof fn lemma_reg_unnamed_append(a: Seq<FileReg>, b: Seq<FileReg>, base: int)
    ensures
        reg_unnamed(a + b, base) == reg_unnamed(a, base) + reg_unnamed(b, base + a.len()),
    decreases b.len(),
{
    if b.len() == 0 {
        assert(a + b =~= a);
        assert(reg_unnamed(a, base) + reg_unnamed(b, base + a.len()) =~= reg_unnamed(a, base));
    } else {
        assert((a + b).drop_last() =~= a + b.drop_last());
        assert((a + b).last() == b.last());
        lemma_reg_unnamed_append(a, b.drop_last(), base);
        assert((a + b).len() - 1 == (base + a.len()) + b.len() - 1 - base);
        if b.last().shared {
            assert(reg_unnamed(a + b, base) =~= reg_unnamed(a, base) + reg_unnamed(
                b,
                base + a.len(),
            ));
        } else {
            assert(reg_unnamed(a + b, base) =~= reg_unnamed(a, base) + reg_unnamed(
                b,
                base + a.len(),
            ));
        }
    }
}

proof fn lemma_reg_named_append(a: Seq<FileReg>, b: Seq<FileReg>, base: int)
    ensures
        reg_named(a + b, base) == reg_named(a, base) + reg_named(b, base + a.len()),
    decreases b.len(),
{
    if b.len() == 0 {
        assert(a + b =~= a);
        assert(reg_named(a, base) + reg_named(b, base + a.len()) =~= reg_named(a, base));
    } else {
        assert((a + b).drop_last() =~= a + b.drop_last());
        assert((a + b).last() == b.last());
        lemma_reg_named_append(a, b.drop_last(), base);
        if b.last().shared {
            assert(reg_named(a + b, base) =~= reg_named(a, base) + reg_named(b, base + a.len()));
        } else {
            assert(reg_named(a + b, base) =~= reg_named(a, base) + reg_named(b, base + a.len()));
        }
    }
}

proof fn lemma_walk_regs_split(nodes: Seq<TreeNode>, rel: Seq<Seq<char>>, j: int)
    requires
        0 <= j <= nodes.len(),
    ensures
        walk_regs(nodes, rel) == walk_regs(nodes.take(j), rel) + walk_regs(nodes.skip(j), rel),
    decreases nodes.len() - j,
{
    if j == nodes.len() {
        assert(nodes.take(j) =~= nodes);
        assert(walk_regs(nodes.skip(j), rel) =~= Seq::<FileReg>::empty());
        assert(walk_regs(nodes.take(j), rel) + walk_regs(nodes.skip(j), rel) =~= walk_regs(
            nodes,
            rel,
        ));
    } else {
        lemma_walk_regs_split(nodes, rel, j + 1);
        assert(nodes.take(j + 1).drop_last() =~= nodes.take(j));
        assert(nodes.take(j + 1).last() == nodes[j]);
        assert(nodes.skip(j).drop_last()  =~= nodes.skip(j).drop_last());
        // peel the first node of the suffix
        assert(walk_regs(nodes.skip(j), rel) =~= node_regs(nodes[j], rel) + walk_regs(
            nodes.skip(j + 1),
            rel,
        )) by {
            lemma_walk_regs_head(nodes.skip(j), rel);
            assert(nodes.skip(j).first() == nodes[j]);
            assert(nodes.skip(j).drop_first() =~= nodes.skip(j + 1));
        }
        assert(walk_regs(nodes.take(j), rel) + (node_regs(nodes[j], rel) + walk_regs(
            nodes.skip(j + 1),
            rel,
        )) =~= (walk_regs(nodes.take(j), rel) + node_regs(nodes[j], rel)) + walk_regs(
            nodes.skip(j + 1),
            rel,
        ));
    }
}

proof fn lemma_walk_regs_head(nodes: Seq<TreeNode>, rel: Seq<Seq<char>>)
    requires
        nodes.len() > 0,
    ensures
        walk_regs(nodes, rel) == node_regs(nodes.first(), rel) + walk_regs(
            nodes.drop_first(),
            rel,
        ),
    decreases nodes.len(),
{
    if nodes.len() == 1 {
        assert(nodes.drop_last() =~= Seq::<TreeNode>::empty());
        assert(nodes.drop_first() =~= Seq::<TreeNode>::empty());
        assert(nodes.last() == nodes.first());
        assert(walk_regs(nodes, rel) =~= node_regs(nodes.first(), rel) + walk_regs(
            nodes.drop_first(),
            rel,
        ));
    } else {
        lemma_walk_regs_head(nodes.drop_last(), rel);
        assert(nodes.drop_last().first() == nodes.first());
        assert(nodes.drop_last().drop_first() =~= nodes.drop_first().drop_last());
        assert(nodes.drop_first().last() == nodes.last());
        assert(walk_regs(nodes.drop_first(), rel) == walk_regs(nodes.drop_first().drop_last(), rel)
            + node_regs(nodes.drop_first().last(), rel));
        assert((node_regs(nodes.first(), rel) + walk_regs(nodes.drop_first().drop_last(), rel))
            + node_regs(nodes.last(), rel) =~= node_regs(nodes.first(), rel) + (walk_regs(
            nodes.drop_first().drop_last(),
            rel,
        ) + node_regs(nodes.last(), rel)));
    }
}

/// The ancestor directories of a catalog, shallowest first: every proper
/// prefix of its segments, from the root (empty) down to its immediate
/// parent.
pub open spec fn ancestors_of(name: Seq<char>) -> Seq<Seq<Seq<char>>> {
    let segs = crate::utils::split_on_slash(name);
    Seq::new(segs.len() as nat, |i: int| segs.take(i))
}

/// The path-scoped documents registered for exactly this directory and
/// locale, in registration order.
pub open spec fn unnamed_matches(
    events: Seq<UnnamedEvent>,
    p: Seq<Seq<char>>,
    tag: Seq<char>,
) -> Seq<usize>
    decreases events.len(),
{
    if events.len() == 0 {
        Seq::empty()
    } else {
        let rest = unnamed_matches(events.drop_last(), p, tag);
        if segs_view(events.last().path@) == p && events.last().locale@ == tag {
            rest.push(events.last().doc)
        } else {
            rest
        }
    }
}

/// For one directory: its documents for each route locale, most general
/// locale first.
pub open spec fn unnamed_for_prefix(
    events: Seq<UnnamedEvent>,
    p: Seq<Seq<char>>,
    route_rev: Seq<Seq<char>>,
) -> Seq<usize>
    decreases route_rev.len(),
{
    if route_rev.len() == 0 {
        Seq::empty()
    } else {
        unnamed_for_prefix(events, p, route_rev.drop_last()) + unnamed_matches(
            events,
            p,
            route_rev.last(),
        )
    }
}

/// All path-scoped contributions: ancestor directories shallowest first,
/// and within each directory the route locales most general first.
pub open spec fn unnamed_contrib(
    events: Seq<UnnamedEvent>,
    prefixes: Seq<Seq<Seq<char>>>,
    route_rev: Seq<Seq<char>>,
) -> Seq<usize>
    decreases prefixes.len(),
{
    if prefixes.len() == 0 {
        Seq::empty()
    } else {
        unnamed_contrib(events, prefixes.drop_last(), route_rev) + unnamed_for_prefix(
            events,
            prefixes.last(),
            route_rev,
        )
    }
}

/// The first (and, after a successful build, only) registration of the
/// catalog for the locale.
pub open spec fn named_first(events: Seq<NamedEvent>, name: Seq<char>, tag: Seq<char>) -> Option<
    usize,
>
    decreases events.len(),
{
    if events.len() == 0 {
        None
    } else if events.first().name@ == name && events.first().locale@ == tag {
        Some(events.first().doc)
    } else {
        named_first(events.drop_first(), name, tag)
    }
}

/// The catalog's own contributions: its document for each route locale,
/// most general first, where one exists.
pub open spec fn named_contrib(
    events: Seq<NamedEvent>,
    name: Seq<char>,
    route_rev: Seq<Seq<char>>,
) -> Seq<usize>
    decreases route_rev.len(),
{
    if route_rev.len() == 0 {
        Seq::empty()
    } else {
        named_contrib(events, name, route_rev.drop_last()) + (match named_first(
            events,
            name,
            route_rev.last(),
        ) {
            Some(d) => seq![d],
            None => Seq::empty(),
        })
    }
}

/// The full contribution order for one catalog and one resolution route,
/// lowest precedence first: every global document in registration order,
/// then the path-scoped documents (ancestors shallowest first, locales
/// most general first), then the catalog's own documents (most general
/// locale first, the queried locale last).
pub open spec fn contribution_order(
    global: Seq<usize>,
    un: Seq<UnnamedEvent>,
    nm: Seq<NamedEvent>,
    name: Seq<char>,
    route_rev: Seq<Seq<char>>,
) -> Seq<usize> {
    global + unnamed_contrib(un, ancestors_of(name), route_rev) + named_contrib(
        nm,
        name,
        route_rev,
    )
}

/// The append-only resource store and build configuration.
///
/// Of the engine's per-bundle configuration, the isolation flag is plain
/// data and is carried and verified here; value-transform, formatter and
/// custom-function hooks are function values, which the verifier does not
/// support as stored data, so this store does not offer them.
pub struct L10nBuilder {
    locales: Locales,
    docs: Vec<DocSource>,
    global_unnamed: Vec<usize>,
    unnamed: Vec<UnnamedEvent>,
    named: Vec<NamedEvent>,
    use_isolating: bool,
}

impl L10nBuilder {
    /// Soundness: every registration points into the document store.
    pub closed spec fn wf(&self) -> bool {
        &&& forall|i: int|
            0 <= i < self.global_unnamed@.len() ==> ((#[trigger] self.global_unnamed@[i]) as int)
                < self.docs@.len()
        &&& forall|i: int|
            0 <= i < self.unnamed@.len() ==> (#[trigger] self.unnamed@[i]).doc < self.docs@.len()
        &&& forall|i: int|
            0 <= i < self.named@.len() ==> (#[trigger] self.named@[i]).doc < self.docs@.len()
    }

    /// The configured locale graph.
    pub closed spec fn spec_locales(&self) -> Seq<crate::locales::LocaleEntryView> {
        self.locales@
    }

    /// The document store.
    pub closed spec fn spec_docs(&self) -> Seq<DocSource> {
        self.docs@
    }

    /// Global registrations, in order.
    pub closed spec fn spec_global(&self) -> Seq<usize> {
        self.global_unnamed@
    }

    /// Path-scoped registrations, in order.
    pub closed spec fn spec_unnamed(&self) -> Seq<UnnamedEvent> {
        self.unnamed@
    }

    /// Catalog registrations, in order.
    pub closed spec fn spec_named(&self) -> Seq<NamedEvent> {
        self.named@
    }

    /// Whether isolation marks are attached to every bundle built.
    pub closed spec fn spec_use_isolating(&self) -> bool {
        self.use_isolating
    }

    /// A builder for an already validated locale graph, with an empty
    /// store.
    pub fn new(locales: Locales) -> (r: Self)
        ensures
            r.wf(),
            r.spec_locales() == locales@,
            r.spec_docs().len() == 0,
            r.spec_global().len() == 0,
            r.spec_unnamed().len() == 0,
            r.spec_named().len() == 0,
            r.spec_use_isolating(),
    {
        L10nBuilder {
            locales,
            docs: Vec::new(),
            global_unnamed: Vec::new(),
            unnamed: Vec::new(),
            named: Vec::new(),
            use_isolating: true,
        }
    }

    /// Switches directionality isolation for every bundle built later.
    pub fn set_use_isolating(&mut self, use_isolating: bool)
        requires
            old(self).wf(),
        ensures
            final (self).wf(),
            final (self).spec_use_isolating() == use_isolating,
            final (self).spec_locales() == old(self).spec_locales(),
            final (self).spec_docs() == old(self).spec_docs(),
            final (self).spec_global() == old(self).spec_global(),
            final (self).spec_unnamed() == old(self).spec_unnamed(),
            final (self).spec_named() == old(self).spec_named(),
    {
        self.use_isolating = use_isolating;
    }

    /// Parses a source into the store; a syntax error registers nothing.
    fn store_doc(&mut self, source: &str) -> (r: Result<usize, ParserError>)
        requires
            old(self).wf(),
        ensures
            final (self).wf(),
            final (self).spec_locales() == old(self).spec_locales(),
            final (self).spec_global() == old(self).spec_global(),
            final (self).spec_unnamed() == old(self).spec_unnamed(),
            final (self).spec_named() == old(self).spec_named(),
            final (self).spec_use_isolating() == old(self).spec_use_isolating(),
            r is Ok <==> crate::fluent::fluent_parse_errors(source@).len() == 0,
            match r {
                Ok(i) => i as int == old(self).spec_docs().len() && final (self).spec_docs().len()
                    == old(self).spec_docs().len() + 1 && final (self).spec_docs().drop_last()
                    == old(self).spec_docs() && final (self).spec_docs().last().source@ == source@,
                Err(e) => final (self).spec_docs() == old(self).spec_docs() && (
                e matches ParserError::FluentParser { errors } && errors@.map_values(
                    |x: String| x@,
                ) == crate::fluent::fluent_parse_errors(source@)),
            },
    {
        let parsed = parse_fluent(source);
        if parsed.errors.len() > 0 {
            proof {
                assert(parsed.errors@.map_values(|e: String| e@).len() == parsed.errors@.len());
            }
            return Err(ParserError::FluentParser { errors: parsed.errors });
        }
        proof {
            assert(parsed.errors@.map_values(|e: String| e@).len() == parsed.errors@.len());
        }
        let model = Rc::new(model_resource(&parsed.resource));
        let i = self.docs.len();
        self.docs.push(DocSource { source: source.to_owned(), model });
        proof {
            assert(self.docs@.drop_last() =~= old(self).docs@);
        }
        Ok(i)
    }

    /// Registers a document that applies to every catalog and every
    /// locale.
    pub fn add_global_unnamed_resource(&mut self, source: &str) -> (r: Result<(), ParserError>)
        requires
            old(self).wf(),
        ensures
            final (self).wf(),
            final (self).spec_locales() == old(self).spec_locales(),
            final (self).spec_unnamed() == old(self).spec_unnamed(),
            final (self).spec_named() == old(self).spec_named(),
            final (self).spec_use_isolating() == old(self).spec_use_isolating(),
            r is Ok <==> crate::fluent::fluent_parse_errors(source@).len() == 0,
            match r {
                Ok(_) => final (self).spec_docs().len() == old(self).spec_docs().len() + 1
                    && final (self).spec_docs().drop_last() == old(self).spec_docs() && final (
                self).spec_docs().last().source@ == source@ && final (self).spec_global().len()
                    == old(self).spec_global().len() + 1 && final (self).spec_global().drop_last()
                    == old(self).spec_global() && (final (self).spec_global().last() as int)
                    == old(self).spec_docs().len(),
                Err(e) => final (self).spec_docs() == old(self).spec_docs() && final (
                self).spec_global() == old(self).spec_global() && (
                e matches ParserError::FluentParser { errors } && errors@.map_values(
                    |x: String| x@,
                ) == crate::fluent::fluent_parse_errors(source@)),
            },
    {
        let i = self.store_doc(source)?;
        self.global_unnamed.push(i);
        Ok(())
    }

    /// Registers a document visible to every catalog under its directory,
    /// for one locale.
    pub fn add_unnamed_resource(
        &mut self,
        relative_path: &Vec<String>,
        locale: &Locale,
        source: &str,
    ) -> (r: Result<(), ParserError>)
        requires
            old(self).wf(),
        ensures
            final (self).wf(),
            final (self).spec_locales() == old(self).spec_locales(),
            final (self).spec_global() == old(self).spec_global(),
            final (self).spec_named() == old(self).spec_named(),
            final (self).spec_use_isolating() == old(self).spec_use_isolating(),
            r is Ok <==> crate::fluent::fluent_parse_errors(source@).len() == 0,
            match r {
                Ok(_) => final (self).spec_docs().len() == old(self).spec_docs().len() + 1
                    && final (self).spec_docs().drop_last() == old(self).spec_docs() && final (
                self).spec_docs().last().source@ == source@ && final (self).spec_unnamed().len()
                    == old(self).spec_unnamed().len() + 1 && final (
                self).spec_unnamed().drop_last() == old(self).spec_unnamed() && ({
                    let ev = final (self).spec_unnamed().last();
                    &&& ev.path@.map_values(|s: String| s@) == relative_path@.map_values(
                        |s: String| s@,
                    )
                    &&& ev.locale@ == locale@
                    &&& ev.doc as int == old(self).spec_docs().len()
                }),
                Err(e) => final (self).spec_docs() == old(self).spec_docs() && final (
                self).spec_unnamed() == old(self).spec_unnamed() && (
                e matches ParserError::FluentParser { errors } && errors@.map_values(
                    |x: String| x@,
                ) == crate::fluent::fluent_parse_errors(source@)),
            },
    {
        let i = self.store_doc(source)?;
        let mut path: Vec<String> = Vec::new();
        let n = relative_path.len();
        let mut k: usize = 0;
        while k < n
            invariant
                k <= n,
                n == relative_path@.len(),
                path@.len() == k,
                forall|x: int| 0 <= x < k ==> (#[trigger] path@[x])@ == relative_path@[x]@,
            decreases n - k,
        {
            path.push(relative_path[k].clone());
            k += 1;
        }
        self.unnamed.push(UnnamedEvent { path, locale: locale.clone(), doc: i });
        proof {
            assert(self.unnamed@.drop_last() =~= old(self).unnamed@);
            assert(self.unnamed@.last().path@.map_values(|s: String| s@)
                =~= relative_path@.map_values(|s: String| s@));
        }
        Ok(())
    }

    /// Registers a catalog's own document for one locale; the catalog name
    /// is the slash-joined relative path and stem.  Registering the same
    /// `(catalog, locale)` twice is a fatal construction error.
    #[verifier::loop_isolation(false)]
    pub fn add_named_resource(
        &mut self,
        name: &str,
        relative_path: &Vec<String>,
        locale: &Locale,
        source: &str,
    ) -> (r: Result<(), ParserError>)
        requires
            old(self).wf(),
        ensures
            final (self).wf(),
            final (self).spec_locales() == old(self).spec_locales(),
            final (self).spec_global() == old(self).spec_global(),
            final (self).spec_unnamed() == old(self).spec_unnamed(),
            final (self).spec_use_isolating() == old(self).spec_use_isolating(),
            ({
                let cname = catalog_name(relative_path@.map_values(|s: String| s@), name@);
                r is Ok <==> !named_defined(old(self).spec_named(), cname, locale@)
                    && crate::fluent::fluent_parse_errors(source@).len() == 0
            }),
            ({
                let cname = catalog_name(relative_path@.map_values(|s: String| s@), name@);
                match r {
                    Ok(_) => final (self).spec_docs().len() == old(self).spec_docs().len() + 1
                        && final (self).spec_docs().drop_last() == old(self).spec_docs() && final (
                    self).spec_docs().last().source@ == source@ && final (
                    self).spec_named().len() == old(self).spec_named().len() + 1 && final (
                    self).spec_named().drop_last() == old(self).spec_named() && ({
                        let ev = final (self).spec_named().last();
                        &&& ev.name@ == cname
                        &&& ev.locale@ == locale@
                        &&& ev.doc as int == old(self).spec_docs().len()
                    }) && !named_defined(old(self).spec_named(), cname, locale@),
                    Err(ParserError::DuplicateResource { name: n2, locale: l2 }) => final (
                    self).spec_docs() == old(self).spec_docs() && final (self).spec_named() == old(
                        self,
                    ).spec_named() && named_defined(old(self).spec_named(), cname, locale@) && n2@
                        == cname && l2@ == locale@,
                    Err(ParserError::FluentParser { errors }) => final (self).spec_docs() == old(
                        self,
                    ).spec_docs() && final (self).spec_named() == old(self).spec_named()
                        && !named_defined(old(self).spec_named(), cname, locale@)
                        && errors@.map_values(|x: String| x@) == crate::fluent::fluent_parse_errors(
                        source@,
                    ),
                    Err(_) => false,
                }
            }),
    {
        let ghost cname = catalog_name(relative_path@.map_values(|s: String| s@), name@);
        // the normalized catalog name
        let full_name = if relative_path.len() == 0 {
            let r = name.to_owned();
            proof {
                assert(relative_path@.map_values(|s: String| s@).push(name@)
                    =~= seq![name@]);
            }
            r
        } else {
            let mut joined = crate::utils::normalized_path(relative_path);
            joined.append("/");
            joined.append(name);
            proof {
                crate::utils::lemma_join_push(
                    relative_path@.map_values(|s: String| s@),
                    "/"@,
                    name@,
                );
            }
            joined
        };
        proof {
            assert(full_name@ == cname);
        }
        // reject a duplicate registration
        let n = self.named.len();
        let mut k: usize = 0;
        while k < n
            invariant
                k <= n,
                n == self.spec_named().len(),
                full_name@ == cname,
                forall|x: int|
                    0 <= x < k ==> !((#[trigger] self.spec_named()[x]).name@ == cname
                        && self.spec_named()[x].locale@ == locale@),
            decreases n - k,
        {
            if crate::utils::str_eq(self.named[k].name.as_str(), full_name.as_str())
                && self.named[k].locale == *locale {
                return Err(
                    ParserError::DuplicateResource { name: full_name, locale: locale.clone() },
                );
            }
            k += 1;
        }
        proof {
            assert(!named_defined(self.named@, cname, locale@));
        }
        let i = self.store_doc(source)?;
        self.named.push(NamedEvent { name: full_name, locale: locale.clone(), doc: i });
        proof {
            assert(self.named@.drop_last() =~= old(self).named@);
        }
        Ok(())
    }

    /// The names of the registered catalogs, first registration order,
    /// without repetition.
    #[verifier::loop_isolation(false)]
    pub fn named_resource_names(&self) -> (r: Vec<String>)
        ensures
            forall|t: Seq<char>|
                #[trigger] crate::utils::strs_set(r@).contains(t) <==> exists|j: int|
                    0 <= j < self.spec_named().len() && (#[trigger] self.spec_named()[j]).name@
                        == t,
            r@.map_values(|x: String| x@).no_duplicates(),
    {
        let n = self.named.len();
        let mut out: Vec<String> = Vec::new();
        let mut k: usize = 0;
        while k < n
            invariant
                k <= n,
                n == self.spec_named().len(),
                out@.map_values(|x: String| x@).no_duplicates(),
                forall|t: Seq<char>|
                    #[trigger] crate::utils::strs_set(out@).contains(t) <==> exists|j: int|
                        0 <= j < k && (#[trigger] self.spec_named()[j]).name@ == t,
            decreases n - k,
        {
            let ghost snap = crate::utils::strs_set(out@);
            crate::utils::push_unique_str(&mut out, self.named[k].name.as_str());
            proof {
                assert forall|t: Seq<char>| #[trigger]
                    crate::utils::strs_set(out@).contains(t) implies exists|j: int|
                    0 <= j < k + 1 && (#[trigger] self.spec_named()[j]).name@ == t by {
                    if t == self.spec_named()[k as int].name@ {
                        assert(self.spec_named()[k as int].name@ == t);
                    } else {
                        assert(snap.contains(t));
                    }
                }
                assert forall|t: Seq<char>|
                    (exists|j: int| 0 <= j < k + 1 && (#[trigger] self.spec_named()[j]).name@ == t)
                        implies #[trigger] crate::utils::strs_set(out@).contains(t) by {
                    let j = choose|j: int|
                        0 <= j < k + 1 && (#[trigger] self.spec_named()[j]).name@ == t;
                    if j < k {
                        assert(snap.contains(t));
                    }
                }
            }
            k += 1;
        }
        out
    }
}

/// Whether a list of path segments equals the first `pi` segments of
/// another.
fn path_matches(a: &Vec<String>, segs: &Vec<String>, pi: usize) -> (r: bool)
    requires
        pi <= segs@.len(),
    ensures
        r == (segs_view(a@) == segs_view(segs@).take(pi as int)),
{
    if a.len() != pi {
        proof {
            assert(segs_view(a@).len() == a@.len());
            assert(segs_view(segs@).take(pi as int).len() == pi);
        }
        return false;
    }
    let mut k: usize = 0;
    while k < pi
        invariant
            k <= pi,
            pi <= segs@.len(),
            a@.len() == pi,
            forall|x: int| 0 <= x < k ==> (#[trigger] a@[x])@ == segs@[x]@,
        decreases pi - k,
    {
        if !crate::utils::str_eq(a[k].as_str(), segs[k].as_str()) {
            proof {
                assert(segs_view(a@)[k as int] != segs_view(segs@).take(pi as int)[k as int]);
            }
            return false;
        }
        k += 1;
    }
    proof {
        assert(segs_view(a@) =~= segs_view(segs@).take(pi as int));
    }
    true
}

proof fn lemma_named_first_at(events: Seq<NamedEvent>, name: Seq<char>, tag: Seq<char>, i: int)
    requires
        0 <= i < events.len(),
        events[i].name@ == name && events[i].locale@ == tag,
        forall|k: int|
            0 <= k < i ==> !((#[trigger] events[k]).name@ == name && events[k].locale@ == tag),
    ensures
        named_first(events, name, tag) == Some(events[i].doc),
    decreases i,
{
    if i > 0 {
        assert(forall|k: int|
            0 <= k < events.len() - 1 ==> (#[trigger] events.drop_first()[k]) == events[k + 1]);
        lemma_named_first_at(events.drop_first(), name, tag, i - 1);
    }
}

proof fn lemma_named_first_absent(events: Seq<NamedEvent>, name: Seq<char>, tag: Seq<char>)
    requires
        forall|k: int|
            0 <= k < events.len() ==> !((#[trigger] events[k]).name@ == name && events[k].locale@
                == tag),
    ensures
        named_first(events, name, tag) is None,
    decreases events.len(),
{
    if events.len() > 0 {
        assert(forall|k: int|
            0 <= k < events.len() - 1 ==> (#[trigger] events.drop_first()[k]) == events[k + 1]);
        lemma_named_first_absent(events.drop_first(), name, tag);
    }
}

/// The route's locales in reverse: most general first.
fn reverse_locales(v: &Vec<Locale>) -> (r: Vec<Locale>)
    ensures
        r@.map_values(|l: Locale| l@) == v@.map_values(|l: Locale| l@).reverse(),
        r@.len() == v@.len(),
{
    let n = v.len();
    let mut out: Vec<Locale> = Vec::new();
    let mut i: usize = n;
    while i > 0
        invariant
            i <= n,
            n == v@.len(),
            out@.len() == n - i,
            forall|k: int| 0 <= k < n - i ==> (#[trigger] out@[k])@ == v@[n - 1 - k]@,
        decreases i,
    {
        i -= 1;
        out.push(v[i].clone());
    }
    proof {
        assert(out@.map_values(|l: Locale| l@) =~= v@.map_values(|l: Locale| l@).reverse());
    }
    out
}

impl L10nBuilder {
    /// The first registration of the catalog at the locale.
    #[verifier::loop_isolation(false)]
    fn find_named_first(&self, name: &str, tag: &Locale) -> (r: Option<usize>)
        requires
            self.wf(),
        ensures
            r == named_first(self.spec_named(), name@, tag@),
            r matches Some(d) ==> (d as int) < self.spec_docs().len(),
    {
        let n = self.named.len();
        let mut k: usize = 0;
        while k < n
            invariant
                k <= n,
                forall|x: int|
                    0 <= x < k ==> !((#[trigger] self.spec_named()[x]).name@ == name@
                        && self.spec_named()[x].locale@ == tag@),
            decreases n - k,
        {
            if crate::utils::str_eq(self.named[k].name.as_str(), name) && self.named[k].locale
                == *tag {
                proof {
                    lemma_named_first_at(self.spec_named(), name@, tag@, k as int);
                }
                return Some(self.named[k].doc);
            }
            k += 1;
        }
        proof {
            lemma_named_first_absent(self.spec_named(), name@, tag@);
        }
        None
    }

    /// The documents contributing to one catalog for one resolution
    /// route, lowest precedence first, exactly in the fixed precedence
    /// order.
    #[verifier::loop_isolation(false)]
    fn contributing(&self, name: &str, route_rev: &Vec<Locale>) -> (r: Vec<usize>)
        requires
            self.wf(),
        ensures
            r@ == contribution_order(
                self.spec_global(),
                self.spec_unnamed(),
                self.spec_named(),
                name@,
                route_rev@.map_values(|l: Locale| l@),
            ),
            forall|i: int| 0 <= i < r@.len() ==> ((#[trigger] r@[i]) as int) < self.spec_docs().len(),
    {
        let ghost gl = self.spec_global();
        let ghost un = self.spec_unnamed();
        let ghost nm = self.spec_named();
        let ghost rr = route_rev@.map_values(|l: Locale| l@);
        let ghost prefixes = ancestors_of(name@);
        let mut out: Vec<usize> = Vec::new();
        // 1. every global document, in registration order
        let n0 = self.global_unnamed.len();
        let mut i: usize = 0;
        while i < n0
            invariant
                i <= n0,
                out@ == gl.take(i as int),
                forall|x: int|
                    0 <= x < out@.len() ==> ((#[trigger] out@[x]) as int) < self.spec_docs().len(),
            decreases n0 - i,
        {
            out.push(self.global_unnamed[i]);
            proof {
                assert(out@ =~= gl.take(i as int + 1));
            }
            i += 1;
        }
        proof {
            assert(gl.take(n0 as int) =~= gl);
        }
        // 2. path-scoped documents: ancestors shallowest first, locales
        //    most general first, registration order within
        let segs = crate::utils::split_slashes(name);
        proof {
            assert(prefixes.len() == segs@.len());
        }
        let np = segs.len();
        let nr = route_rev.len();
        let ne = self.unnamed.len();
        let mut pi: usize = 0;
        proof {
            assert(gl + unnamed_contrib(un, prefixes.take(0), rr) =~= gl);
        }
        while pi < np
            invariant
                pi <= np,
                out@ == gl + unnamed_contrib(un, prefixes.take(pi as int), rr),
                forall|x: int|
                    0 <= x < out@.len() ==> ((#[trigger] out@[x]) as int) < self.spec_docs().len(),
            decreases np - pi,
        {
            let ghost base_p = out@;
            let ghost pref = prefixes[pi as int];
            proof {
                assert(pref == segs_view(segs@).take(pi as int));
            }
            let mut li: usize = 0;
            proof {
                assert(base_p + unnamed_for_prefix(un, pref, rr.take(0)) =~= base_p);
            }
            while li < nr
                invariant
                    li <= nr,
                    pi < np,
                    pref == prefixes[pi as int],
                    pref == segs_view(segs@).take(pi as int),
                    base_p == gl + unnamed_contrib(un, prefixes.take(pi as int), rr),
                    out@ == base_p + unnamed_for_prefix(un, pref, rr.take(li as int)),
                    forall|x: int|
                        0 <= x < out@.len() ==> ((#[trigger] out@[x]) as int)
                            < self.spec_docs().len(),
                decreases nr - li,
            {
                let ghost base_l = out@;
                let ghost tag = rr[li as int];
                let mut e: usize = 0;
                proof {
                    assert(unnamed_matches(un.take(0), pref, tag) =~= Seq::<usize>::empty());
                    assert(base_l + unnamed_matches(un.take(0), pref, tag) =~= base_l);
                }
                while e < ne
                    invariant
                        e <= ne,
                        li < nr,
                        pi < np,
                        tag == rr[li as int],
                        pref == segs_view(segs@).take(pi as int),
                        out@ == base_l + unnamed_matches(un.take(e as int), pref, tag),
                        forall|x: int|
                            0 <= x < out@.len() ==> ((#[trigger] out@[x]) as int)
                                < self.spec_docs().len(),
                    decreases ne - e,
                {
                    proof {
                        assert(un.take(e as int + 1).drop_last() =~= un.take(e as int));
                    }
                    if path_matches(&self.unnamed[e].path, &segs, pi) && self.unnamed[e].locale
                        == route_rev[li] {
                        out.push(self.unnamed[e].doc);
                        proof {
                            assert(out@ =~= base_l + unnamed_matches(
                                un.take(e as int + 1),
                                pref,
                                tag,
                            ));
                        }
                    }
                    e += 1;
                }
                proof {
                    assert(un.take(ne as int) =~= un);
                    assert(rr.take(li as int + 1).drop_last() =~= rr.take(li as int));
                    assert(rr.take(li as int + 1).last() == tag);
                    assert(base_l + unnamed_matches(un, pref, tag) =~= base_p
                        + unnamed_for_prefix(un, pref, rr.take(li as int + 1)));
                }
                li += 1;
            }
            proof {
                assert(rr.take(nr as int) =~= rr);
                assert(prefixes.take(pi as int + 1).drop_last() =~= prefixes.take(pi as int));
                assert(prefixes.take(pi as int + 1).last() == prefixes[pi as int]);
                assert(base_p + unnamed_for_prefix(un, pref, rr) =~= gl + unnamed_contrib(
                    un,
                    prefixes.take(pi as int + 1),
                    rr,
                ));
            }
            pi += 1;
        }
        proof {
            assert(prefixes.take(np as int) =~= prefixes);
        }
        // 3. the catalog's own documents, most general locale first
        let ghost base_n = out@;
        let mut li: usize = 0;
        proof {
            assert(base_n + named_contrib(nm, name@, rr.take(0)) =~= base_n);
        }
        while li < nr
            invariant
                li <= nr,
                base_n == gl + unnamed_contrib(un, prefixes, rr),
                out@ == base_n + named_contrib(nm, name@, rr.take(li as int)),
                forall|x: int|
                    0 <= x < out@.len() ==> ((#[trigger] out@[x]) as int) < self.spec_docs().len(),
            decreases nr - li,
        {
            proof {
                assert(rr.take(li as int + 1).drop_last() =~= rr.take(li as int));
                assert(rr.take(li as int + 1).last() == rr[li as int]);
            }
            match self.find_named_first(name, &route_rev[li]) {
                Some(d) => {
                    out.push(d);
                    proof {
                        assert(out@ =~= base_n + named_contrib(nm, name@, rr.take(li as int + 1)));
                    }
                },
                None => {
                    proof {
                        assert(out@ =~= base_n + named_contrib(nm, name@, rr.take(li as int + 1)));
                    }
                },
            }
            li += 1;
        }
        proof {
            assert(rr.take(nr as int) =~= rr);
            assert(out@ =~= contribution_order(gl, un, nm, name@, rr));
        }
        out
    }
}

/// The models of the documents at the given store indices, in order.
pub open spec fn models_at(docs: Seq<DocSource>, order: Seq<usize>) -> Seq<Rc<DocumentModel>> {
    order.map_values(|d: usize| docs[d as int].model)
}

/// What a successful build guarantees of one catalog's resource: one
/// bundle per configured entry, in configuration order, each carrying the
/// entry's resolution route and layering exactly the documents of the
/// fixed precedence order.
pub open spec fn resource_built(
    gl: Seq<usize>,
    un: Seq<UnnamedEvent>,
    nm: Seq<NamedEvent>,
    docs: Seq<DocSource>,
    entries: Seq<crate::locales::LocaleEntryView>,
    iso: bool,
    name: Seq<char>,
    res: crate::resource::L10nResource,
) -> bool {
    &&& res.spec_bundles().len() == entries.len()
    &&& forall|bi: int|
        0 <= bi < entries.len() ==> {
            let main = (#[trigger] entries[bi]).main;
            let rt = crate::locales::route(entries, main, entries.len() as nat);
            let b = res.spec_bundles()[bi];
            &&& b.0@ == main
            &&& b.1.spec_locales() == rt
            &&& b.1.spec_isolating() == iso
            &&& b.1.spec_docs() == models_at(
                docs,
                contribution_order(gl, un, nm, name, rt.reverse()),
            )
        }
}

/// The published, immutable engine.
pub struct L10n {
    /// The validated locale graph the engine was built with.
    pub locales: Locales,
    resources: Vec<(String, crate::resource::L10nResource)>,
    docs: Vec<DocSource>,
}

impl L10n {
    #[verifier::type_invariant]
    closed spec fn inv(self) -> bool {
        self.wf()
    }

    /// Soundness: every resource is well formed and catalog names are
    /// unique.
    pub closed spec fn wf(&self) -> bool {
        &&& forall|i: int| 0 <= i < self.resources@.len() ==> (#[trigger] self.resources@[i]).1.wf()
        &&& forall|i: int, j: int|
            0 <= i < j < self.resources@.len() ==> (#[trigger] self.resources@[i]).0@ != (
            #[trigger] self.resources@[j]).0@
    }

    /// The locale graph's entries.
    pub closed spec fn spec_graph(&self) -> Seq<crate::locales::LocaleEntryView> {
        self.locales@
    }

    /// The per-catalog resources, in first-registration order.
    pub closed spec fn spec_resources(&self) -> Seq<(String, crate::resource::L10nResource)> {
        self.resources@
    }

    /// The document store the engine owns.
    pub closed spec fn spec_store(&self) -> Seq<DocSource> {
        self.docs@
    }

    /// Whether a catalog of that name exists.
    pub open spec fn has_resource(&self, name: Seq<char>) -> bool {
        exists|i: int|
            0 <= i < self.spec_resources().len() && (#[trigger] self.spec_resources()[i]).0@
                == name
    }

    /// The catalog's resource.
    pub open spec fn resource_of(&self, name: Seq<char>) -> crate::resource::L10nResource {
        let i = choose|i: int|
            0 <= i < self.spec_resources().len() && (#[trigger] self.spec_resources()[i]).0@
                == name;
        self.spec_resources()[i].1
    }
}

impl L10nBuilder {
    /// Whether the catalog is registered for the locale.
    fn named_defined_exec(&self, name: &str, tag: &Locale) -> (r: bool)
        ensures
            r == named_defined(self.spec_named(), name@, tag@),
    {
        let n = self.named.len();
        let mut k: usize = 0;
        while k < n
            invariant
                k <= n,
                n == self.spec_named().len(),
                forall|x: int|
                    0 <= x < k ==> !((#[trigger] self.spec_named()[x]).name@ == name@
                        && self.spec_named()[x].locale@ == tag@),
            decreases n - k,
        {
            if crate::utils::str_eq(self.named[k].name.as_str(), name) && self.named[k].locale
                == *tag {
                proof {
                    assert(0 <= k < self.spec_named().len() && (#[trigger] self.spec_named()[k as int]).name@
                        == name@ && self.spec_named()[k as int].locale@ == tag@);
                }
                return true;
            }
            k += 1;
        }
        false
    }

    /// The build-time consistency validation: every registered catalog
    /// must have its own content directly at every mandatory locale of
    /// the graph; the violations are collected across all catalogs, not
    /// fail-fast.
    #[verifier::loop_isolation(false)]
    fn check_named_resources_consistency(&self) -> (r: Result<(), BuildErrors>)
        requires
            self.wf(),
        ensures
            r is Ok <==> names_consistent(
                self.spec_named(),
                crate::locales::mandatory_set(self.spec_locales()),
            ),
            r matches Err(BuildErrors(v)) ==> ({
                let mset = crate::locales::mandatory_set(self.spec_locales());
                &&& v@.len() > 0
                &&& (forall|e: int|
                    0 <= e < v@.len() ==> ((#[trigger] v@[e]) matches BuildError::MissingResource {
                        resource,
                        locales,
                    } && {
                        &&& (exists|j: int|
                            0 <= j < self.spec_named().len() && (
                            #[trigger] self.spec_named()[j]).name@ == resource@)
                        &&& crate::locales::tags_of(locales@).to_set() == catalog_missing(
                            self.spec_named(),
                            mset,
                            resource@,
                        )
                        &&& locales@.len() > 0
                        &&& crate::locales::tags_of(locales@).no_duplicates()
                    }))
                &&& (forall|e1: int, e2: int|
                    0 <= e1 < e2 < v@.len() ==> build_error_resource(#[trigger] v@[e1])
                        != build_error_resource(#[trigger] v@[e2]))
                &&& (forall|j: int|
                    0 <= j < self.spec_named().len() ==> (catalog_missing(
                        self.spec_named(),
                        mset,
                        (#[trigger] self.spec_named()[j]).name@,
                    ) != Set::<Seq<char>>::empty() ==> exists|e: int|
                        0 <= e < v@.len() && build_error_resource(#[trigger] v@[e])
                            == self.spec_named()[j].name@))
            }),
    {
        let ghost mset = crate::locales::mandatory_set(self.spec_locales());
        let mandatory = self.locales.mandatory_locales();
        let mut errors: Vec<BuildError> = Vec::new();
        let n = self.named.len();
        let mut k: usize = 0;
        while k < n
            invariant
                k <= n,
                n == self.spec_named().len(),
                errors@.len() == 0 ==> forall|x: int, t: Seq<char>|
                    0 <= x < k && #[trigger] mset.contains(t) ==> named_defined(
                        self.spec_named(),
                        (#[trigger] self.spec_named()[x]).name@,
                        t,
                    ),
                errors@.len() > 0 ==> !names_consistent(self.spec_named(), mset),
                forall|e: int|
                    0 <= e < errors@.len() ==> ((#[trigger] errors@[e]) matches
                        BuildError::MissingResource { resource, locales } && {
                        &&& crate::locales::tags_of(locales@).to_set() == catalog_missing(
                            self.spec_named(),
                            mset,
                            resource@,
                        )
                        &&& locales@.len() > 0
                        &&& crate::locales::tags_of(locales@).no_duplicates()
                    }),
                forall|e: int|
                    0 <= e < errors@.len() ==> exists|x: int|
                        0 <= x < k && (#[trigger] self.spec_named()[x]).name@
                            == build_error_resource(#[trigger] errors@[e]),
                forall|e1: int, e2: int|
                    0 <= e1 < e2 < errors@.len() ==> build_error_resource(#[trigger] errors@[e1])
                        != build_error_resource(#[trigger] errors@[e2]),
                forall|x: int|
                    0 <= x < k ==> (catalog_missing(
                        self.spec_named(),
                        mset,
                        (#[trigger] self.spec_named()[x]).name@,
                    ) != Set::<Seq<char>>::empty() ==> exists|e: int|
                        0 <= e < errors@.len() && build_error_resource(#[trigger] errors@[e])
                            == self.spec_named()[x].name@),
            decreases n - k,
        {
            // each catalog name once, at its first registration
            let mut seen = false;
            let mut x: usize = 0;
            while x < k
                invariant
                    x <= k,
                    k < n,
                    n == self.spec_named().len(),
                    seen <==> exists|y: int|
                        0 <= y < x && (#[trigger] self.spec_named()[y]).name@
                            == self.spec_named()[k as int].name@,
                decreases k - x,
            {
                if crate::utils::str_eq(
                    self.named[x].name.as_str(),
                    self.named[k].name.as_str(),
                ) {
                    seen = true;
                }
                x += 1;
            }
            if !seen {
                let name = &self.named[k].name;
                let ghost cname = self.spec_named()[k as int].name@;
                let mut missing: Vec<Locale> = Vec::new();
                let ghost mut cm: Set<Seq<char>> = Set::empty();
                let m = mandatory.len();
                let mut mi: usize = 0;
                proof {
                    assert(crate::locales::tags_of(missing@).to_set() =~= cm);
                    assert(cm =~= catalog_missing_upto(mandatory@, self.spec_named(), cname, 0));
                }
                while mi < m
                    invariant
                        mi <= m,
                        m == mandatory@.len(),
                        k < n,
                        n == self.spec_named().len(),
                        name == &self.named@[k as int].name,
                        cname == self.spec_named()[k as int].name@,
                        crate::locales::tags_of(missing@).to_set() == cm,
                        cm == catalog_missing_upto(
                            mandatory@,
                            self.spec_named(),
                            cname,
                            mi as int,
                        ),
                        crate::locales::tags_of(missing@).no_duplicates(),
                    decreases m - mi,
                {
                    let ghost msnap = missing@;
                    let ghost tag = mandatory@[mi as int]@;
                    if !self.named_defined_exec(name.as_str(), &mandatory[mi]) {
                        proof {
                            assert(!cm.contains(tag)) by {
                                if catalog_missing_upto(
                                    mandatory@,
                                    self.spec_named(),
                                    cname,
                                    mi as int,
                                ).contains(tag) {
                                    let y = choose|y: int|
                                        0 <= y < mi && (#[trigger] mandatory@[y])@ == tag
                                            && !named_defined(self.spec_named(), cname, tag);
                                    assert(crate::locales::tags_of(mandatory@)[y]
                                        == crate::locales::tags_of(mandatory@)[mi as int]);
                                }
                            }
                        }
                        missing.push(mandatory[mi].clone());
                        proof {
                            let om = crate::locales::tags_of(msnap);
                            let mm = crate::locales::tags_of(missing@);
                            assert(mm =~= om.push(tag));
                            crate::locales::lemma_tag_set_push(om, mm, tag);
                            assert(mm.no_duplicates()) by {
                                assert forall|a: int, b: int|
                                    0 <= a < b < mm.len() implies mm[a] != mm[b] by {
                                    if b == mm.len() - 1 && mm[a] == mm[b] {
                                        assert(om[a] == mm[a]);
                                        assert(om.to_set().contains(tag));
                                    }
                                }
                            }
                            cm = cm.insert(tag);
                            assert(cm =~= catalog_missing_upto(
                                mandatory@,
                                self.spec_named(),
                                cname,
                                mi as int + 1,
                            )) by {
                                assert forall|t: Seq<char>|
                                    catalog_missing_upto(
                                        mandatory@,
                                        self.spec_named(),
                                        cname,
                                        mi as int + 1,
                                    ).contains(t) implies catalog_missing_upto(
                                    mandatory@,
                                    self.spec_named(),
                                    cname,
                                    mi as int,
                                ).insert(tag).contains(t) by {
                                    let y = choose|y: int|
                                        0 <= y < mi + 1 && (#[trigger] mandatory@[y])@ == t
                                            && !named_defined(self.spec_named(), cname, t);
                                }
                                assert forall|t: Seq<char>|
                                    catalog_missing_upto(
                                        mandatory@,
                                        self.spec_named(),
                                        cname,
                                        mi as int,
                                    ).insert(tag).contains(t) implies catalog_missing_upto(
                                    mandatory@,
                                    self.spec_named(),
                                    cname,
                                    mi as int + 1,
                                ).contains(t) by {
                                    if t == tag {
                                        assert((#[trigger] mandatory@[mi as int])@ == t);
                                    }
                                }
                            }
                        }
                    } else {
                        proof {
                            assert(cm =~= catalog_missing_upto(
                                mandatory@,
                                self.spec_named(),
                                cname,
                                mi as int + 1,
                            )) by {
                                assert forall|t: Seq<char>|
                                    catalog_missing_upto(
                                        mandatory@,
                                        self.spec_named(),
                                        cname,
                                        mi as int + 1,
                                    ).contains(t) implies catalog_missing_upto(
                                    mandatory@,
                                    self.spec_named(),
                                    cname,
                                    mi as int,
                                ).contains(t) by {
                                    let y = choose|y: int|
                                        0 <= y < mi + 1 && (#[trigger] mandatory@[y])@ == t
                                            && !named_defined(self.spec_named(), cname, t);
                                    assert(y < mi);
                                }
                            }
                        }
                    }
                    mi += 1;
                }
                proof {
                    assert(cm =~= catalog_missing(self.spec_named(), mset, cname)) by {
                        assert forall|t: Seq<char>|
                            catalog_missing(self.spec_named(), mset, cname).contains(t) implies
                            #[trigger] cm.contains(t) by {
                            let mv = crate::locales::tags_of(mandatory@);
                            assert(mv.to_set().contains(t));
                            let y = choose|y: int| 0 <= y < mv.len() && mv[y] == t;
                            assert(mandatory@[y]@ == t);
                        }
                        assert forall|t: Seq<char>| #[trigger] cm.contains(t) implies
                            catalog_missing(self.spec_named(), mset, cname).contains(t) by {
                            let y = choose|y: int|
                                0 <= y < m && (#[trigger] mandatory@[y])@ == t && !named_defined(
                                    self.spec_named(),
                                    cname,
                                    t,
                                );
                            let mv = crate::locales::tags_of(mandatory@);
                            assert(mv[y] == t);
                            assert(mv.to_set().contains(t));
                        }
                    }
                }
                if missing.len() > 0 {
                    proof {
                        let mm = crate::locales::tags_of(missing@);
                        assert(mm.to_set().contains(mm[0])) by {
                            assert(mm[0] == missing@[0]@);
                        }
                        let t0 = mm[0];
                        assert(mset.contains(t0));
                        assert(!names_consistent(self.spec_named(), mset));
                    }
                    let ghost esnap = errors@;
                    errors.push(
                        BuildError::MissingResource { resource: name.clone(), locales: missing },
                    );
                    proof {
                        assert(errors@.drop_last() =~= esnap);
                        assert(build_error_resource(errors@[errors@.len() - 1]) == cname);
                        assert forall|e1: int, e2: int|
                            0 <= e1 < e2 < errors@.len() implies build_error_resource(
                            #[trigger] errors@[e1],
                        ) != build_error_resource(#[trigger] errors@[e2]) by {
                            if e2 == errors@.len() - 1 {
                                assert(errors@[e1] == esnap[e1]);
                                let x = choose|x: int|
                                    0 <= x < k && (#[trigger] self.spec_named()[x]).name@
                                        == build_error_resource(esnap[e1]);
                            }
                        }
                        assert forall|e: int| 0 <= e < errors@.len() implies exists|x: int|
                            0 <= x < k + 1 && (#[trigger] self.spec_named()[x]).name@
                                == build_error_resource(#[trigger] errors@[e]) by {
                            if e < errors@.len() - 1 {
                                assert(errors@[e] == esnap[e]);
                            } else {
                                assert((#[trigger] self.spec_named()[k as int]).name@
                                    == build_error_resource(errors@[e]));
                            }
                        }
                    }
                } else {
                    proof {
                        assert forall|t: Seq<char>| #[trigger]
                            mset.contains(t) implies named_defined(
                            self.spec_named(),
                            self.spec_named()[k as int].name@,
                            t,
                        ) by {
                            if !named_defined(self.spec_named(), cname, t) {
                                assert(catalog_missing(self.spec_named(), mset, cname).contains(
                                    t,
                                ));
                                assert(cm.contains(t));
                                let mm = crate::locales::tags_of(missing@);
                                let w = choose|w: int| 0 <= w < mm.len() && mm[w] == t;
                            }
                        }
                        assert(catalog_missing(self.spec_named(), mset, cname)
                            =~= Set::<Seq<char>>::empty());
                    }
                }
            }
            proof {
                if seen {
                    let y0 = choose|y: int|
                        0 <= y < k && (#[trigger] self.spec_named()[y]).name@
                            == self.spec_named()[k as int].name@;
                    assert(catalog_missing(
                        self.spec_named(),
                        mset,
                        self.spec_named()[k as int].name@,
                    ) == catalog_missing(self.spec_named(), mset, self.spec_named()[y0].name@));
                }
                assert forall|x: int|
                    0 <= x < k + 1 implies (catalog_missing(
                    self.spec_named(),
                    mset,
                    (#[trigger] self.spec_named()[x]).name@,
                ) != Set::<Seq<char>>::empty() ==> exists|e: int|
                    0 <= e < errors@.len() && build_error_resource(#[trigger] errors@[e])
                        == self.spec_named()[x].name@) by {
                    if x == k as int && !seen {
                        if catalog_missing(self.spec_named(), mset, self.spec_named()[x].name@)
                            != Set::<Seq<char>>::empty() {
                            assert(build_error_resource(errors@[errors@.len() - 1])
                                == self.spec_named()[k as int].name@);
                        }
                    }
                }
            }
            proof {
                if errors@.len() == 0 {
                    assert forall|x: int, t: Seq<char>|
                        0 <= x < k + 1 && #[trigger] mset.contains(t) implies named_defined(
                        self.spec_named(),
                        (#[trigger] self.spec_named()[x]).name@,
                        t,
                    ) by {
                        if x == k as int {
                            if seen {
                                let y = choose|y: int|
                                    0 <= y < k && (#[trigger] self.spec_named()[y]).name@
                                        == self.spec_named()[k as int].name@;
                                assert(named_defined(
                                    self.spec_named(),
                                    self.spec_named()[y].name@,
                                    t,
                                ));
                            }
                        }
                    }
                }
            }
            k += 1;
        }
        if errors.len() > 0 {
            return Err(BuildErrors(errors));
        }
        proof {
            assert(names_consistent(self.spec_named(), mset));
        }
        Ok(())
    }

    /// Builds the engine: validates consistency, then constructs, for
    /// every registered catalog and every configured main locale, one
    /// bundle layering exactly the documents of the fixed precedence
    /// order.
    #[verifier::loop_isolation(false)]
    pub fn build(self) -> (r: Result<L10n, BuildErrors>)
        requires
            self.wf(),
        ensures
            r is Ok <==> names_consistent(
                self.spec_named(),
                crate::locales::mandatory_set(self.spec_locales()),
            ),
            r matches Err(BuildErrors(v)) ==> ({
                let mset = crate::locales::mandatory_set(self.spec_locales());
                &&& v@.len() > 0
                &&& (forall|e: int|
                    0 <= e < v@.len() ==> ((#[trigger] v@[e]) matches BuildError::MissingResource {
                        resource,
                        locales,
                    } && {
                        &&& crate::locales::tags_of(locales@).to_set() == catalog_missing(
                            self.spec_named(),
                            mset,
                            resource@,
                        )
                        &&& locales@.len() > 0
                        &&& crate::locales::tags_of(locales@).no_duplicates()
                    }))
                &&& (forall|e1: int, e2: int|
                    0 <= e1 < e2 < v@.len() ==> build_error_resource(#[trigger] v@[e1])
                        != build_error_resource(#[trigger] v@[e2]))
                &&& (forall|j: int|
                    0 <= j < self.spec_named().len() ==> (catalog_missing(
                        self.spec_named(),
                        mset,
                        (#[trigger] self.spec_named()[j]).name@,
                    ) != Set::<Seq<char>>::empty() ==> exists|e: int|
                        0 <= e < v@.len() && build_error_resource(#[trigger] v@[e])
                            == self.spec_named()[j].name@))
            }),
            r matches Ok(e) ==> {
                &&& e.wf()
                &&& e.spec_graph() == self.spec_locales()
                &&& e.spec_store() == self.spec_docs()
                &&& (forall|t: Seq<char>|
                    #[trigger] e.has_resource(t) <==> exists|j: int|
                        0 <= j < self.spec_named().len() && (#[trigger] self.spec_named()[j]).name@
                            == t)
                &&& forall|i: int|
                    0 <= i < e.spec_resources().len() ==> resource_built(
                        self.spec_global(),
                        self.spec_unnamed(),
                        self.spec_named(),
                        self.spec_docs(),
                        self.spec_locales(),
                        self.spec_use_isolating(),
                        (#[trigger] e.spec_resources()[i]).0@,
                        e.spec_resources()[i].1,
                    )
            },
    {
        match self.check_named_resources_consistency() {
            Ok(()) => {},
            Err(e) => {
                return Err(e);
            },
        }
        let ghost gl = self.spec_global();
        let ghost un = self.spec_unnamed();
        let ghost nm = self.spec_named();
        let ghost entries = self.spec_locales();
        self.locales.invariants();
        let names = self.named_resource_names();
        let mains = self.locales.main_locales();
        let nn = names.len();
        let nb = mains.len();
        let mut resources: Vec<(String, crate::resource::L10nResource)> = Vec::new();
        let mut ci: usize = 0;
        while ci < nn
            invariant
                ci <= nn,
                nn == names@.len(),
                nb == mains@.len(),
                self.wf(),
                gl == self.spec_global(),
                un == self.spec_unnamed(),
                nm == self.spec_named(),
                entries == self.spec_locales(),
                crate::locales::mains_distinct(entries),
                crate::locales::graph_acyclic(entries),
                mains@.map_values(|l: Locale| l@) == Seq::new(
                    entries.len(),
                    |i: int| entries[i].main,
                ),
                names@.map_values(|x: String| x@).no_duplicates(),
                resources@.len() == ci,
                forall|i: int|
                    0 <= i < ci ==> (#[trigger] resources@[i]).0@ == names@[i]@,
                forall|i: int|
                    0 <= i < ci ==> (#[trigger] resources@[i]).1.wf(),
                forall|i: int|
                    0 <= i < ci ==> resource_built(
                        gl,
                        un,
                        nm,
                        self.spec_docs(),
                        entries,
                        self.spec_use_isolating(),
                        (#[trigger] resources@[i]).0@,
                        resources@[i].1,
                    ),
            decreases nn - ci,
        {
            let name = &names[ci];
            let mut res = crate::resource::L10nResource::new();
            let mut bi: usize = 0;
            while bi < nb
                invariant
                    bi <= nb,
                    ci < nn,
                    nn == names@.len(),
                    nb == mains@.len(),
                    self.wf(),
                    gl == self.spec_global(),
                    un == self.spec_unnamed(),
                    nm == self.spec_named(),
                    entries == self.spec_locales(),
                    crate::locales::mains_distinct(entries),
                    crate::locales::graph_acyclic(entries),
                    mains@.map_values(|l: Locale| l@) == Seq::new(
                        entries.len(),
                        |i: int| entries[i].main,
                    ),
                    name == &names@[ci as int],
                    res.wf(),
                    res.spec_bundles().len() == bi,
                    forall|x: int|
                        0 <= x < bi ==> (#[trigger] res.spec_bundles()[x]).0@ == entries[x].main,
                    forall|x: int|
                        0 <= x < bi ==> {
                            let main = (#[trigger] entries[x]).main;
                            let rt = crate::locales::route(entries, main, entries.len() as nat);
                            let b = res.spec_bundles()[x];
                            &&& b.1.spec_locales() == rt
                            &&& b.1.spec_isolating() == self.spec_use_isolating()
                            &&& b.1.spec_docs() == models_at(
                                self.spec_docs(),
                                contribution_order(gl, un, nm, names@[ci as int]@, rt.reverse()),
                            )
                        },
                decreases nb - bi,
            {
                proof {
                    assert(mains@.map_values(|l: Locale| l@).len() == mains@.len());
                    assert(Seq::new(entries.len(), |i: int| entries[i].main).len()
                        == entries.len());
                    assert(mains@.len() == entries.len());
                    assert(mains@[bi as int]@ == entries[bi as int].main) by {
                        assert(mains@.map_values(|l: Locale| l@)[bi as int] == mains@[bi as int]@);
                        assert(Seq::new(entries.len(), |i: int| entries[i].main)[bi as int]
                            == entries[bi as int].main);
                    }
                    crate::locales::lemma_is_main_at(entries, bi as int);
                }
                let route_v = self.locales.locale_resolution_route(&mains[bi]).unwrap();
                let ghost rt = crate::locales::route(
                    entries,
                    entries[bi as int].main,
                    entries.len() as nat,
                );
                let route_rev = reverse_locales(&route_v);
                let order = self.contributing(name.as_str(), &route_rev);
                proof {
                    assert(route_rev@.map_values(|l: Locale| l@) == rt.reverse());
                }
                let mut bundle = crate::bundle::L10nBundle::new(route_v);
                let no = order.len();
                let mut k: usize = 0;
                proof {
                    assert(bundle.spec_docs() =~= models_at(self.spec_docs(), order@.take(0)));
                }
                while k < no
                    invariant
                        k <= no,
                        no == order@.len(),
                        self.wf(),
                        forall|x: int|
                            0 <= x < order@.len() ==> ((#[trigger] order@[x]) as int)
                                < self.spec_docs().len(),
                        bundle.wf(),
                        bundle.spec_locales() == rt,
                        bundle.spec_docs() == models_at(self.spec_docs(), order@.take(k as int)),
                    decreases no - k,
                {
                    let d = order[k];
                    bundle.add_doc(self.docs[d].source.as_str(), share_doc(&self.docs[d].model));
                    proof {
                        assert(order@.take(k as int + 1).drop_last() =~= order@.take(k as int));
                        assert(bundle.spec_docs() =~= models_at(
                            self.spec_docs(),
                            order@.take(k as int + 1),
                        ));
                    }
                    k += 1;
                }
                proof {
                    assert(order@.take(no as int) =~= order@);
                }
                bundle.set_use_isolating(self.use_isolating);
                proof {
                    if res.has_locale(mains@[bi as int]@) {
                        let w = choose|w: int|
                            0 <= w < res.spec_bundles().len() && (
                            #[trigger] res.spec_bundles()[w]).0@ == mains@[bi as int]@;
                        assert(entries[w].main == entries[bi as int].main);
                    }
                }
                res.add_bundle(mains[bi].clone(), bundle);
                bi += 1;
            }
            proof {
                assert(mains@.map_values(|l: Locale| l@).len() == mains@.len());
                assert(Seq::new(entries.len(), |i: int| entries[i].main).len() == entries.len());
                assert(nb as int == entries.len());
                if ci > 0 {
                    assert forall|i: int, j: int|
                        0 <= i < j < ci + 1 implies names@[i]@ != names@[j]@ by {
                        let m = names@.map_values(|x: String| x@);
                        assert(m[i] == names@[i]@ && m[j] == names@[j]@);
                    }
                }
            }
            let ghost rsnap = resources@;
            resources.push((name.clone(), res));
            proof {
                assert(resources@[ci as int].0@ == names@[ci as int]@);
                assert(forall|i: int| 0 <= i < ci ==> resources@[i] == rsnap[i]);
                assert(resource_built(
                    gl,
                    un,
                    nm,
                    self.spec_docs(),
                    entries,
                    self.spec_use_isolating(),
                    resources@[ci as int].0@,
                    resources@[ci as int].1,
                ));
            }
            ci += 1;
        }
        proof {
            assert forall|i: int, j: int|
                0 <= i < j < resources@.len() implies (#[trigger] resources@[i]).0@ != (
            #[trigger] resources@[j]).0@ by {
                let m = names@.map_values(|x: String| x@);
                assert(m[i] == names@[i]@ && m[j] == names@[j]@);
            }
        }
        let L10nBuilder { locales, docs, .. } = self;
        let engine = L10n { locales, resources, docs };
        proof {
            assert(engine.wf());
            assert forall|t: Seq<char>| #[trigger] engine.has_resource(t) implies exists|j: int|
                0 <= j < nm.len() && (#[trigger] nm[j]).name@ == t by {
                let i = choose|i: int|
                    0 <= i < engine.spec_resources().len() && (
                    #[trigger] engine.spec_resources()[i]).0@ == t;
                assert(names@[i]@ == t);
                assert(crate::utils::strs_set(names@).contains(t)) by {
                    let m = names@.map_values(|x: String| x@);
                    assert(m[i] == t);
                }
            }
            assert forall|t: Seq<char>|
                (exists|j: int| 0 <= j < nm.len() && (#[trigger] nm[j]).name@ == t) implies
                #[trigger] engine.has_resource(t) by {
                assert(crate::utils::strs_set(names@).contains(t));
                let m = names@.map_values(|x: String| x@);
                let i = choose|i: int| 0 <= i < m.len() && m[i] == t;
                assert(engine.spec_resources()[i].0@ == t);
            }
        }
        Ok(engine)
    }
}

/// A copy of a segment path.
fn clone_segs(v: &Vec<String>) -> (r: Vec<String>)
    ensures
        segs_view(r@) == segs_view(v@),
{
    let n = v.len();
    let mut out: Vec<String> = Vec::new();
    let mut i: usize = 0;
    while i < n
        invariant
            i <= n,
            n == v@.len(),
            out@.len() == i,
            forall|k: int| 0 <= k < i ==> (#[trigger] out@[k])@ == v@[k]@,
        decreases n - i,
    {
        out.push(v[i].clone());
        i += 1;
    }
    proof {
        assert(segs_view(out@) =~= segs_view(v@));
    }
    out
}

impl L10nBuilder {
    /// The same store and configuration, under another locale graph.
    fn with_locales(self, locales: Locales) -> (r: Self)
        requires
            self.wf(),
        ensures
            r.wf(),
            r.spec_locales() == locales@,
            r.spec_docs() == self.spec_docs(),
            r.spec_global() == self.spec_global(),
            r.spec_unnamed() == self.spec_unnamed(),
            r.spec_named() == self.spec_named(),
            r.spec_use_isolating() == self.spec_use_isolating(),
    {
        let L10nBuilder { docs, global_unnamed, unnamed, named, use_isolating, .. } = self;
        L10nBuilder { locales, docs, global_unnamed, unnamed, named, use_isolating }
    }

    /// Walks one locale's subtree: files with the private prefix are
    /// registered as path-scoped shared content for the current directory,
    /// other resource files as the catalog they name; everything else is
    /// ignored, and subdirectories extend the relative path.  The walk
    /// performs exactly the registrations of `walk_regs`, in order, and
    /// stops at the first one that registration refuses.
    #[verifier::loop_isolation(false)]
    fn parse_locale_directory(
        &mut self,
        locale: &Locale,
        nodes: &Vec<TreeNode>,
        relative_path: &Vec<String>,
    ) -> (r: Result<(), ParserError>)
        requires
            old(self).wf(),
        ensures
            final (self).wf(),
            final (self).spec_locales() == old(self).spec_locales(),
            final (self).spec_use_isolating() == old(self).spec_use_isolating(),
            final (self).spec_global() == old(self).spec_global(),
            ({
                let regs = walk_regs(nodes@, segs_view(relative_path@));
                let taken = named_pairs(old(self).spec_named());
                let base = old(self).spec_docs().len() as int;
                let bu = old(self).spec_unnamed().len() as int;
                let bn = old(self).spec_named().len() as int;
                &&& (r is Ok <==> reg_failure(regs, locale@, taken) is None)
                &&& (r is Ok ==> {
                    &&& final (self).spec_docs().len() == base + regs.len()
                    &&& (forall|k: int|
                        0 <= k < base ==> final (self).spec_docs()[k] == old(self).spec_docs()[k])
                    &&& (forall|k: int|
                        0 <= k < regs.len() ==> (#[trigger] final (self).spec_docs()[base
                            + k]).source@ == regs[k].contents)
                    &&& final (self).spec_unnamed().len() == bu + reg_unnamed(regs, base).len()
                    &&& (forall|k: int|
                        0 <= k < bu ==> final (self).spec_unnamed()[k] == old(
                            self,
                        ).spec_unnamed()[k])
                    &&& (forall|k: int|
                        0 <= k < reg_unnamed(regs, base).len() ==> {
                            &&& segs_view((#[trigger] final (self).spec_unnamed()[bu
                                + k]).path@) == reg_unnamed(regs, base)[k].0
                            &&& final (self).spec_unnamed()[bu + k].doc as int == reg_unnamed(
                                regs,
                                base,
                            )[k].1
                            &&& final (self).spec_unnamed()[bu + k].locale@ == locale@
                        })
                    &&& final (self).spec_named().len() == bn + reg_named(regs, base).len()
                    &&& (forall|k: int|
                        0 <= k < bn ==> final (self).spec_named()[k] == old(self).spec_named()[k])
                    &&& (forall|k: int|
                        0 <= k < reg_named(regs, base).len() ==> {
                            &&& (#[trigger] final (self).spec_named()[bn + k]).name@ == reg_named(
                                regs,
                                base,
                            )[k].0
                            &&& final (self).spec_named()[bn + k].doc as int == reg_named(
                                regs,
                                base,
                            )[k].1
                            &&& final (self).spec_named()[bn + k].locale@ == locale@
                        })
                    &&& named_pairs(final (self).spec_named()) == taken.union(
                        names_added(regs, locale@),
                    )
                })
                &&& (r matches Err(e) ==> match reg_failure(regs, locale@, taken) {
                    Some(f) => if f.1 {
                        e matches ParserError::FluentParser { errors } && errors@.map_values(
                            |x: String| x@,
                        ) == crate::fluent::fluent_parse_errors(regs[f.0].contents)
                    } else {
                        e matches ParserError::DuplicateResource { name, locale: l } && name@
                            == catalog_name(regs[f.0].path, regs[f.0].stem) && l@ == locale@
                    },
                    None => false,
                })
            }),
        decreases *nodes,
    {
        let ghost relv = segs_view(relative_path@);
        let ghost taken0 = named_pairs(old(self).spec_named());
        let ghost base = old(self).spec_docs().len() as int;
        let ghost bu = old(self).spec_unnamed().len() as int;
        let ghost bn = old(self).spec_named().len() as int;
        let n = nodes.len();
        let mut i: usize = 0;
        proof {
            assert(walk_regs(nodes@.take(0), relv) =~= Seq::<FileReg>::empty());
            assert(names_added(Seq::<FileReg>::empty(), locale@) =~= Set::<(
                Seq<char>,
                Seq<char>,
            )>::empty());
            assert(taken0.union(names_added(Seq::<FileReg>::empty(), locale@)) =~= taken0);
        }
        while i < n
            invariant
                i <= n,
                n == nodes@.len(),
                self.wf(),
                self.spec_locales() == old(self).spec_locales(),
                self.spec_use_isolating() == old(self).spec_use_isolating(),
                self.spec_global() == old(self).spec_global(),
                ({
                    let pre = walk_regs(nodes@.take(i as int), relv);
                    &&& reg_failure(pre, locale@, taken0) is None
                    &&& self.spec_docs().len() == base + pre.len()
                    &&& (forall|k: int|
                        0 <= k < base ==> self.spec_docs()[k] == old(self).spec_docs()[k])
                    &&& (forall|k: int|
                        0 <= k < pre.len() ==> (#[trigger] self.spec_docs()[base + k]).source@
                            == pre[k].contents)
                    &&& self.spec_unnamed().len() == bu + reg_unnamed(pre, base).len()
                    &&& (forall|k: int|
                        0 <= k < bu ==> self.spec_unnamed()[k] == old(self).spec_unnamed()[k])
                    &&& (forall|k: int|
                        0 <= k < reg_unnamed(pre, base).len() ==> {
                            &&& segs_view((#[trigger] self.spec_unnamed()[bu + k]).path@)
                                == reg_unnamed(pre, base)[k].0
                            &&& self.spec_unnamed()[bu + k].doc as int == reg_unnamed(
                                pre,
                                base,
                            )[k].1
                            &&& self.spec_unnamed()[bu + k].locale@ == locale@
                        })
                    &&& self.spec_named().len() == bn + reg_named(pre, base).len()
                    &&& (forall|k: int|
                        0 <= k < bn ==> self.spec_named()[k] == old(self).spec_named()[k])
                    &&& (forall|k: int|
                        0 <= k < reg_named(pre, base).len() ==> {
                            &&& (#[trigger] self.spec_named()[bn + k]).name@ == reg_named(
                                pre,
                                base,
                            )[k].0
                            &&& self.spec_named()[bn + k].doc as int == reg_named(pre, base)[k].1
                            &&& self.spec_named()[bn + k].locale@ == locale@
                        })
                    &&& named_pairs(self.spec_named()) == taken0.union(names_added(pre, locale@))
                }),
            decreases n - i,
        {
            let ghost pre = walk_regs(nodes@.take(i as int), relv);
            let ghost regs1 = node_regs(nodes@[i as int], relv);
            let ghost pre2 = pre + regs1;
            let ghost docs_head = self.spec_docs();
            let ghost un_head = self.spec_unnamed();
            let ghost nm_head = self.spec_named();
            proof {
                assert(nodes@.take(i as int + 1).drop_last() =~= nodes@.take(i as int));
                assert(nodes@.take(i as int + 1).last() == nodes@[i as int]);
                assert(walk_regs(nodes@.take(i as int + 1), relv) == pre2);
            }
            match &nodes[i] {
                TreeNode::File { name, contents } => {
                    match crate::utils::file_stem(name.as_str()) {
                        None => {
                            proof {
                                assert(regs1 =~= Seq::<FileReg>::empty());
                                assert(pre2 =~= pre);
                            }
                        },
                        Some(stem) => {
                            let ghost reg = FileReg {
                                path: relv,
                                stem: stem@,
                                contents: contents@,
                                shared: stem@.len() > 0 && stem@[0] == '_',
                            };
                            proof {
                                assert(regs1 =~= seq![reg]);
                                assert(regs1.first() == reg);
                                assert(regs1.drop_first() =~= Seq::<FileReg>::empty());
                                assert(regs1.drop_last() =~= Seq::<FileReg>::empty());
                                lemma_reg_failure_append(pre, regs1, locale@, taken0);
                                lemma_reg_unnamed_append(pre, regs1, base);
                                lemma_reg_named_append(pre, regs1, base);
                                lemma_names_added_append(pre, regs1, locale@);
                            }
                            if crate::utils::has_private_prefix(stem.as_str()) {
                                let ghost unnamed_before = self.spec_unnamed();
                                let ghost docs_before = self.spec_docs();
                                match self.add_unnamed_resource(
                                    relative_path,
                                    locale,
                                    contents.as_str(),
                                ) {
                                    Ok(()) => {
                                        proof {
                                            reveal_with_fuel(reg_failure, 2);
                                            reveal_with_fuel(reg_unnamed, 2);
                                            reveal_with_fuel(reg_named, 2);
                                            assert(reg.shared);
                                            assert(regs1.last() == reg);
                                            assert(crate::fluent::fluent_parse_errors(
                                                reg.contents,
                                            ).len() == 0);
                                            assert(reg_failure(
                                                regs1,
                                                locale@,
                                                taken0.union(names_added(pre, locale@)),
                                            ) is None);
                                            assert(reg_unnamed(regs1, base + pre.len()) =~= seq![
                                                (reg.path, base + pre.len()),
                                            ]);
                                            assert(reg_named(regs1, base + pre.len())
                                                =~= Seq::<(Seq<char>, int)>::empty());
                                            assert(names_added(regs1, locale@) =~= Set::<(
                                                Seq<char>,
                                                Seq<char>,
                                            )>::empty());
                                            assert(taken0.union(names_added(pre2, locale@))
                                                =~= taken0.union(names_added(pre, locale@)));
                                            assert(self.spec_unnamed().drop_last()
                                                =~= unnamed_before);
                                            assert(self.spec_unnamed()[bu + reg_unnamed(
                                                pre,
                                                base,
                                            ).len()] == self.spec_unnamed().last());
                                            assert(self.spec_docs().drop_last() =~= docs_before);
                                            assert(self.spec_docs()[base + pre.len()]
                                                == self.spec_docs().last());
                                        }
                                    },
                                    Err(e) => {
                                        proof {
                                            assert(reg_failure(
                                                regs1,
                                                locale@,
                                                taken0.union(names_added(pre, locale@)),
                                            ) == Some((0int, true)));
                                            assert(reg_failure(pre2, locale@, taken0) == Some(
                                                (pre.len() as int, true),
                                            ));
                                            lemma_walk_regs_split(nodes@, relv, i as int + 1);
                                            let suffix = walk_regs(nodes@.skip(i as int + 1), relv);
                                            lemma_reg_failure_append(pre2, suffix, locale@, taken0);
                                            assert(walk_regs(nodes@, relv) == pre2 + suffix);
                                            assert((pre2 + suffix)[pre.len() as int] == reg);
                                        }
                                        return Err(e);
                                    },
                                }
                            } else {
                                let ghost cname = catalog_name(reg.path, reg.stem);
                                proof {
                                    assert(named_defined(self.spec_named(), cname, locale@)
                                        <==> named_pairs(self.spec_named()).contains(
                                        (cname, locale@),
                                    ));
                                }
                                let ghost named_before = self.spec_named();
                                let ghost docs_before = self.spec_docs();
                                match self.add_named_resource(
                                    stem.as_str(),
                                    relative_path,
                                    locale,
                                    contents.as_str(),
                                ) {
                                    Ok(()) => {
                                        proof {
                                            reveal_with_fuel(reg_failure, 2);
                                            reveal_with_fuel(reg_unnamed, 2);
                                            reveal_with_fuel(reg_named, 2);
                                            assert(!reg.shared);
                                            assert(regs1.last() == reg);
                                            assert(!named_pairs(named_before).contains(
                                                (cname, locale@),
                                            ));
                                            assert(crate::fluent::fluent_parse_errors(
                                                reg.contents,
                                            ).len() == 0);
                                            assert(reg_failure(
                                                regs1,
                                                locale@,
                                                taken0.union(names_added(pre, locale@)),
                                            ) is None);
                                            assert(reg_named(regs1, base + pre.len()) =~= seq![
                                                (cname, base + pre.len()),
                                            ]);
                                            assert(reg_unnamed(regs1, base + pre.len())
                                                =~= Seq::<(Seq<Seq<char>>, int)>::empty());
                                            assert(names_added(regs1, locale@) =~= Set::<(
                                                Seq<char>,
                                                Seq<char>,
                                            )>::empty().insert((cname, locale@)));
                                            assert(self.spec_named().drop_last()
                                                =~= named_before);
                                            assert(self.spec_named() =~= named_before.push(
                                                self.spec_named().last(),
                                            ));
                                            lemma_named_pairs_push(
                                                named_before,
                                                self.spec_named().last(),
                                            );
                                            assert(named_pairs(self.spec_named()) =~= taken0.union(
                                                names_added(pre2, locale@),
                                            ));
                                            assert(self.spec_named()[bn + reg_named(
                                                pre,
                                                base,
                                            ).len()] == self.spec_named().last());
                                            assert(self.spec_docs().drop_last() =~= docs_before);
                                            assert(self.spec_docs()[base + pre.len()]
                                                == self.spec_docs().last());
                                        }
                                    },
                                    Err(e) => {
                                        proof {
                                            lemma_walk_regs_split(nodes@, relv, i as int + 1);
                                            let suffix = walk_regs(nodes@.skip(i as int + 1), relv);
                                            lemma_reg_failure_append(pre2, suffix, locale@, taken0);
                                            assert(walk_regs(nodes@, relv) == pre2 + suffix);
                                            assert((pre2 + suffix)[pre.len() as int] == reg);
                                            if named_pairs(named_before).contains(
                                                (cname, locale@),
                                            ) {
                                                assert(reg_failure(
                                                    regs1,
                                                    locale@,
                                                    taken0.union(names_added(pre, locale@)),
                                                ) == Some((0int, false)));
                                                assert(reg_failure(pre2, locale@, taken0) == Some(
                                                    (pre.len() as int, false),
                                                ));
                                            } else {
                                                assert(reg_failure(
                                                    regs1,
                                                    locale@,
                                                    taken0.union(names_added(pre, locale@)),
                                                ) == Some((0int, true)));
                                                assert(reg_failure(pre2, locale@, taken0) == Some(
                                                    (pre.len() as int, true),
                                                ));
                                            }
                                        }
                                        return Err(e);
                                    },
                                }
                            }
                        },
                    }
                },
                TreeNode::Dir { name, children } => {
                    let mut sub = clone_segs(relative_path);
                    sub.push(name.clone());
                    proof {
                        assert(segs_view(sub@) =~= relv.push(name@));
                        assert(regs1 == walk_regs(children@, relv.push(name@)));
                        lemma_reg_failure_append(pre, regs1, locale@, taken0);
                        lemma_reg_unnamed_append(pre, regs1, base);
                        lemma_reg_named_append(pre, regs1, base);
                        lemma_names_added_append(pre, regs1, locale@);
                    }
                    let ghost taken_here = named_pairs(self.spec_named());
                    match self.parse_locale_directory(locale, children, &sub) {
                        Ok(()) => {
                            proof {
                                assert(taken_here.union(names_added(regs1, locale@))
                                    =~= taken0.union(names_added(pre2, locale@)));
                            }
                        },
                        Err(e) => {
                            proof {
                                lemma_walk_regs_split(nodes@, relv, i as int + 1);
                                let suffix = walk_regs(nodes@.skip(i as int + 1), relv);
                                lemma_reg_failure_append(pre2, suffix, locale@, taken0);
                                assert(walk_regs(nodes@, relv) == pre2 + suffix);
                                lemma_reg_failure_range(regs1, locale@, taken_here);
                                let f = reg_failure(regs1, locale@, taken_here)->0;
                                assert((pre2 + suffix)[pre.len() + f.0] == regs1[f.0]);
                            }
                            return Err(e);
                        },
                    }
                },
            }
            proof {
                let pre2b = walk_regs(nodes@.take(i as int + 1), relv);
                assert(pre2b == pre2);
                assert(reg_failure(pre2b, locale@, taken0) is None);
                assert(self.spec_docs().len() == base + pre2b.len());
                assert(forall|k: int|
                    0 <= k < base ==> self.spec_docs()[k] == old(self).spec_docs()[k]);
                assert forall|k: int|
                    0 <= k < pre2b.len() implies (#[trigger] self.spec_docs()[base + k]).source@
                        == pre2b[k].contents by {
                    if k < pre.len() {
                        assert(pre2b[k] == pre[k]);
                        assert(docs_head[base + k].source@ == pre[k].contents);
                        assert(self.spec_docs()[base + k] == docs_head[base + k]);
                    } else {
                        assert(pre2b[k] == regs1[k - pre.len()]);
                        assert(self.spec_docs()[base + k] == self.spec_docs()[(base + pre.len())
                            + (k - pre.len())]);
                    }
                }
                assert(self.spec_unnamed().len() == bu + reg_unnamed(pre2b, base).len());
                assert(forall|k: int|
                    0 <= k < bu ==> self.spec_unnamed()[k] == old(self).spec_unnamed()[k]);
                assert forall|k: int|
                    0 <= k < reg_unnamed(pre2b, base).len() implies {
                        &&& segs_view((#[trigger] self.spec_unnamed()[bu + k]).path@)
                            == reg_unnamed(pre2b, base)[k].0
                        &&& self.spec_unnamed()[bu + k].doc as int == reg_unnamed(
                            pre2b,
                            base,
                        )[k].1
                        &&& self.spec_unnamed()[bu + k].locale@ == locale@
                    } by {
                    assert(reg_unnamed(pre2b, base) == reg_unnamed(pre, base) + reg_unnamed(
                        regs1,
                        base + pre.len(),
                    ));
                    if k < reg_unnamed(pre, base).len() {
                        assert(reg_unnamed(pre2b, base)[k] == reg_unnamed(pre, base)[k]);
                        assert(segs_view(un_head[bu + k].path@) == reg_unnamed(pre, base)[k].0
                            && un_head[bu + k].doc as int == reg_unnamed(pre, base)[k].1
                            && un_head[bu + k].locale@ == locale@);
                        assert(self.spec_unnamed()[bu + k] == un_head[bu + k]);
                    } else {
                        assert(reg_unnamed(pre2b, base)[k] == reg_unnamed(
                            regs1,
                            base + pre.len(),
                        )[k - reg_unnamed(pre, base).len()]);
                        assert(self.spec_unnamed()[bu + k] == self.spec_unnamed()[(bu
                            + reg_unnamed(pre, base).len()) + (k - reg_unnamed(
                            pre,
                            base,
                        ).len())]);
                    }
                }
                assert(self.spec_named().len() == bn + reg_named(pre2b, base).len());
                assert(forall|k: int|
                    0 <= k < bn ==> self.spec_named()[k] == old(self).spec_named()[k]);
                assert forall|k: int|
                    0 <= k < reg_named(pre2b, base).len() implies {
                        &&& (#[trigger] self.spec_named()[bn + k]).name@ == reg_named(
                            pre2b,
                            base,
                        )[k].0
                        &&& self.spec_named()[bn + k].doc as int == reg_named(pre2b, base)[k].1
                        &&& self.spec_named()[bn + k].locale@ == locale@
                    } by {
                    assert(reg_named(pre2b, base) == reg_named(pre, base) + reg_named(
                        regs1,
                        base + pre.len(),
                    ));
                    if k < reg_named(pre, base).len() {
                        assert(reg_named(pre2b, base)[k] == reg_named(pre, base)[k]);
                        assert(nm_head[bn + k].name@ == reg_named(pre, base)[k].0
                            && nm_head[bn + k].doc as int == reg_named(pre, base)[k].1
                            && nm_head[bn + k].locale@ == locale@);
                        assert(self.spec_named()[bn + k] == nm_head[bn + k]);
                    } else {
                        assert(reg_named(pre2b, base)[k] == reg_named(regs1, base + pre.len())[k
                            - reg_named(pre, base).len()]);
                        assert(self.spec_named()[bn + k] == self.spec_named()[(bn + reg_named(
                            pre,
                            base,
                        ).len()) + (k - reg_named(pre, base).len())]);
                    }
                }
                assert(named_pairs(self.spec_named()) == taken0.union(
                    names_added(pre2b, locale@),
                ));
            }
            i += 1;
        }
        proof {
            assert(nodes@.take(n as int) =~= nodes@);
        }
        Ok(())
    }

    /// Walks a whole resource tree.  Files directly under the root must be
    /// marked private and become global content; subdirectories are locale
    /// names — skipped when an explicit locale set does not list them, a
    /// fatal error when no explicit set was given and the name is not a
    /// language tag.  After the walk every mandatory locale must have been
    /// visited, else the exact set of missing mandatory locales is the
    /// error; without an explicit set, the graph is derived from the
    /// visited locales in first-visit order.
    #[verifier::loop_isolation(false)]
    #[verifier::rlimit(30)]
    pub fn build_from_entries(root: Vec<TreeNode>, locales_option: Option<Locales>) -> (r: Result<
        L10nBuilder,
        ParserError,
    >)
        ensures
            ({
                let opt = match locales_option {
                    Some(l) => Some(l@),
                    None => None,
                };
                let fail = root_failure(root@, opt, Set::empty());
                let visited = visited_acc(root@, opt, Seq::empty());
                &&& (r is Ok <==> fail is None && (locales_option matches Some(l)
                    ==> crate::locales::mandatory_set(l@).subset_of(visited.to_set())))
                &&& (r matches Ok(b) ==> {
                    &&& b.wf()
                    &&& (locales_option matches Some(l) ==> b.spec_locales() == l@)
                    &&& (locales_option is None ==> b.spec_locales()
                        == crate::locales::derived_entries(visited))
                    &&& b.spec_use_isolating()
                    &&& b.spec_docs().len() == root_docs(root@, opt).len()
                    &&& (forall|k: int|
                        0 <= k < root_docs(root@, opt).len() ==> (#[trigger] b.spec_docs()[k]).source@
                            == root_docs(root@, opt)[k])
                    &&& b.spec_global().len() == root_globals(root@, opt).len()
                    &&& (forall|k: int|
                        0 <= k < root_globals(root@, opt).len() ==> ((#[trigger] b.spec_global()[k]) as int)
                            == root_globals(root@, opt)[k])
                    &&& b.spec_unnamed().len() == root_unnamed(root@, opt).len()
                    &&& (forall|k: int|
                        0 <= k < root_unnamed(root@, opt).len() ==> {
                            &&& segs_view((#[trigger] b.spec_unnamed()[k]).path@) == root_unnamed(
                                root@,
                                opt,
                            )[k].0
                            &&& b.spec_unnamed()[k].locale@ == root_unnamed(root@, opt)[k].1
                            &&& b.spec_unnamed()[k].doc as int == root_unnamed(root@, opt)[k].2
                        })
                    &&& b.spec_named().len() == root_named(root@, opt).len()
                    &&& (forall|k: int|
                        0 <= k < root_named(root@, opt).len() ==> {
                            &&& (#[trigger] b.spec_named()[k]).name@ == root_named(
                                root@,
                                opt,
                            )[k].0
                            &&& b.spec_named()[k].locale@ == root_named(root@, opt)[k].1
                            &&& b.spec_named()[k].doc as int == root_named(root@, opt)[k].2
                        })
                })
                &&& (r matches Err(e) ==> match fail {
                    Some(BuildFail::GlobalUnprefixed { name }) => e matches
                        ParserError::GlobalNamedResource { path } && path@ == name,
                    Some(BuildFail::BadSyntax { contents }) => e matches
                        ParserError::FluentParser { errors } && errors@.map_values(
                        |x: String| x@,
                    ) == crate::fluent::fluent_parse_errors(contents),
                    Some(BuildFail::BadDir { name }) => e matches ParserError::ParseLangDir {
                        dir_name,
                        ..
                    } && dir_name@ == name,
                    Some(BuildFail::DuplicateName { name, locale }) => e matches
                        ParserError::DuplicateResource { name: n2, locale: l2 } && n2@ == name
                        && l2@ == locale,
                    None => locales_option matches Some(l) && (e matches
                        ParserError::MissingLocales(v) && v@.len() > 0 && v@.map_values(
                        |x: Locale| x@,
                    ).no_duplicates() && v@.map_values(|x: Locale| x@).to_set()
                        == crate::locales::mandatory_set(l@).difference(visited.to_set())),
                })
            }),
    {
        let ghost opt: Option<Seq<crate::locales::LocaleEntryView>> = match &locales_option {
            Some(l) => Some(l@),
            None => None,
        };
        let mut builder = L10nBuilder::new(Locales::default());
        let locales_to_visit: Option<Vec<Locale>> = match &locales_option {
            Some(l) => Some(l.all_locales()),
            None => None,
        };
        let mut visited: Vec<Locale> = Vec::new();
        let n = root.len();
        let mut i: usize = 0;
        proof {
            assert(root_failure(root@.take(0), opt, Set::empty()) is None);
            assert(named_pairs(builder.spec_named()) =~= Set::<(Seq<char>, Seq<char>)>::empty());
            assert(root_taken(root@.take(0), opt, Set::empty())
                =~= Set::<(Seq<char>, Seq<char>)>::empty());
            assert(visited@.map_values(|x: Locale| x@) =~= visited_acc(
                root@.take(0),
                opt,
                Seq::empty(),
            ));
        }
        while i < n
            invariant
                i <= n,
                n == root@.len(),
                builder.wf(),
                builder.spec_use_isolating(),
                locales_to_visit is Some <==> locales_option is Some,
                opt == match locales_option {
                    Some(l) => Some(l@),
                    None => None::<Seq<crate::locales::LocaleEntryView>>,
                },
                locales_to_visit matches Some(v) ==> (locales_option matches Some(l)
                    && v@.map_values(|x: Locale| x@).to_set() == crate::locales::all_set(l@)),
                root_failure(root@.take(i as int), opt, Set::empty()) is None,
                named_pairs(builder.spec_named()) == root_taken(
                    root@.take(i as int),
                    opt,
                    Set::empty(),
                ),
                builder.spec_docs().len() == root_docs(root@.take(i as int), opt).len(),
                forall|k: int|
                    0 <= k < root_docs(root@.take(i as int), opt).len() ==> (
                    #[trigger] builder.spec_docs()[k]).source@ == root_docs(
                        root@.take(i as int),
                        opt,
                    )[k],
                builder.spec_global().len() == root_globals(root@.take(i as int), opt).len(),
                forall|k: int|
                    0 <= k < root_globals(root@.take(i as int), opt).len() ==> ((
                    #[trigger] builder.spec_global()[k]) as int) == root_globals(
                        root@.take(i as int),
                        opt,
                    )[k],
                builder.spec_unnamed().len() == root_unnamed(root@.take(i as int), opt).len(),
                forall|k: int|
                    0 <= k < root_unnamed(root@.take(i as int), opt).len() ==> {
                        &&& segs_view((#[trigger] builder.spec_unnamed()[k]).path@)
                            == root_unnamed(root@.take(i as int), opt)[k].0
                        &&& builder.spec_unnamed()[k].locale@ == root_unnamed(
                            root@.take(i as int),
                            opt,
                        )[k].1
                        &&& builder.spec_unnamed()[k].doc as int == root_unnamed(
                            root@.take(i as int),
                            opt,
                        )[k].2
                    },
                builder.spec_named().len() == root_named(root@.take(i as int), opt).len(),
                forall|k: int|
                    0 <= k < root_named(root@.take(i as int), opt).len() ==> {
                        &&& (#[trigger] builder.spec_named()[k]).name@ == root_named(
                            root@.take(i as int),
                            opt,
                        )[k].0
                        &&& builder.spec_named()[k].locale@ == root_named(
                            root@.take(i as int),
                            opt,
                        )[k].1
                        &&& builder.spec_named()[k].doc as int == root_named(
                            root@.take(i as int),
                            opt,
                        )[k].2
                    },
                visited@.map_values(|x: Locale| x@) == visited_acc(
                    root@.take(i as int),
                    opt,
                    Seq::empty(),
                ),
                forall|a: int, b: int|
                    0 <= a < b < visited@.len() ==> (#[trigger] visited@[a])@ != (
                    #[trigger] visited@[b])@,
            decreases n - i,
        {
            let ghost pre_nodes = root@.take(i as int);
            let ghost one = root@.subrange(i as int, i as int + 1);
            let ghost vacc_i = visited_acc(pre_nodes, opt, Seq::empty());
            let ghost docs_head = builder.spec_docs();
            let ghost gl_head = builder.spec_global();
            let ghost un_head = builder.spec_unnamed();
            let ghost nm_head = builder.spec_named();
            proof {
                reveal_with_fuel(root_failure, 2);
                reveal_with_fuel(root_taken, 2);
                reveal_with_fuel(visited_acc, 2);
                assert(root@.take(i as int + 1) =~= pre_nodes + one);
                assert(one.first() == root@[i as int]);
                assert(one.drop_first() =~= Seq::<TreeNode>::empty());
                lemma_root_failure_append(pre_nodes, one, opt, Set::empty());
                lemma_visited_acc_append(pre_nodes, one, opt, Seq::empty());
                lemma_root_taken_append(pre_nodes, one, opt, Set::empty());
            }
            match &root[i] {
                TreeNode::File { name, contents } => {
                    match crate::utils::file_stem(name.as_str()) {
                        None => {},
                        Some(stem) => {
                            if !crate::utils::has_private_prefix(stem.as_str()) {
                                proof {
                                    assert(root@.take(n as int) =~= root@);
                                    lemma_root_failure_append(
                                        pre_nodes,
                                        root@.skip(i as int),
                                        opt,
                                        Set::empty(),
                                    );
                                    assert(pre_nodes + root@.skip(i as int) =~= root@);
                                    assert(root@.skip(i as int).first() == root@[i as int]);
                                    assert(root_failure(root@, opt, Set::empty()) == Some(
                                        BuildFail::GlobalUnprefixed { name: name@ },
                                    ));
                                }
                                return Err(ParserError::GlobalNamedResource { path: name.clone() });
                            }
                            match builder.add_global_unnamed_resource(contents.as_str()) {
                                Ok(()) => {},
                                Err(e) => {
                                    proof {
                                        lemma_root_failure_append(
                                            pre_nodes,
                                            root@.skip(i as int),
                                            opt,
                                            Set::empty(),
                                        );
                                        assert(pre_nodes + root@.skip(i as int) =~= root@);
                                        assert(root@.skip(i as int).first() == root@[i as int]);
                                        assert(root_failure(root@, opt, Set::empty()) == Some(
                                            BuildFail::BadSyntax { contents: contents@ },
                                        ));
                                    }
                                    return Err(e);
                                },
                            }
                        },
                    }
                },
                TreeNode::Dir { name, children } => {
                    let parsed = Locale::parse(name.as_str());
                    let locale = match (&locales_to_visit, parsed) {
                        (Some(ltv), Ok(loc)) => {
                            if contains_locale_vec(ltv, &loc) {
                                proof {
                                    let m = ltv@.map_values(|x: Locale| x@);
                                    let w = choose|w: int|
                                        0 <= w < ltv@.len() && (#[trigger] ltv@[w])@ == loc@;
                                    assert(m[w] == loc@);
                                    assert(m.to_set().contains(loc@));
                                    assert(dir_selected(opt, name@) == Some(loc@));
                                }
                                Some(loc)
                            } else {
                                proof {
                                    if opt is Some && crate::locales::all_set(opt->0).contains(
                                        loc@,
                                    ) {
                                        let m = ltv@.map_values(|x: Locale| x@);
                                        let w = choose|w: int| 0 <= w < m.len() && m[w] == loc@;
                                        assert(ltv@[w]@ == loc@);
                                    }
                                    assert(dir_selected(opt, name@) is None);
                                }
                                None
                            }
                        },
                        (Some(_), Err(_)) => {
                            proof {
                                assert(dir_selected(opt, name@) is None);
                            }
                            None
                        },
                        (None, Ok(loc)) => {
                            proof {
                                assert(dir_selected(opt, name@) == Some(loc@));
                            }
                            Some(loc)
                        },
                        (None, Err(message)) => {
                            proof {
                                lemma_root_failure_append(
                                    pre_nodes,
                                    root@.skip(i as int),
                                    opt,
                                    Set::empty(),
                                );
                                assert(pre_nodes + root@.skip(i as int) =~= root@);
                                assert(root@.skip(i as int).first() == root@[i as int]);
                                assert(root_failure(root@, opt, Set::empty()) == Some(
                                    BuildFail::BadDir { name: name@ },
                                ));
                            }
                            return Err(
                                ParserError::ParseLangDir { dir_name: name.clone(), message },
                            );
                        },
                    };
                    match locale {
                        None => {},
                        Some(locale) => {
                            if !contains_locale_vec(&visited, &locale) {
                                let ghost vsnap = visited@;
                                visited.push(locale.clone());
                                proof {
                                    assert(visited@.map_values(|x: Locale| x@) =~= vsnap
                                        .map_values(|x: Locale| x@).push(locale@));
                                    assert forall|a: int, b: int|
                                        0 <= a < b < visited@.len() implies (
                                    #[trigger] visited@[a])@ != (#[trigger] visited@[b])@ by {
                                        if b == visited@.len() - 1 {
                                            assert(vsnap[a] == visited@[a]);
                                        }
                                    }
                                }
                            } else {
                                proof {
                                    let w = choose|w: int|
                                        0 <= w < visited@.len() && (#[trigger] visited@[w])@
                                            == locale@;
                                    assert(visited@.map_values(|x: Locale| x@)[w] == locale@);
                                    assert(vacc_i.contains(locale@));
                                }
                            }
                            let empty_path: Vec<String> = Vec::new();
                            proof {
                                assert(segs_view(empty_path@) =~= Seq::<Seq<char>>::empty());
                            }
                            let ghost taken_here = named_pairs(builder.spec_named());
                            match builder.parse_locale_directory(
                                &locale,
                                children,
                                &empty_path,
                            ) {
                                Ok(()) => {
                                    proof {
                                        if !vacc_i.contains(locale@) {
                                            assert(visited@.map_values(|x: Locale| x@)
                                                =~= visited_acc(
                                                root@.take(i as int + 1),
                                                opt,
                                                Seq::empty(),
                                            ));
                                        }
                                    }
                                },
                                Err(e) => {
                                    proof {
                                        let regs = walk_regs(children@, Seq::empty());
                                        lemma_reg_failure_range(regs, locale@, taken_here);
                                        lemma_root_failure_append(
                                            pre_nodes,
                                            root@.skip(i as int),
                                            opt,
                                            Set::empty(),
                                        );
                                        assert(pre_nodes + root@.skip(i as int) =~= root@);
                                        assert(root@.skip(i as int).first() == root@[i as int]);
                                    }
                                    return Err(e);
                                },
                            }
                        },
                    }
                },
            }
            proof {
                let pre1 = root@.take(i as int);
                let post1 = root@.take(i as int + 1);
                let nd = node_docs(root@[i as int], opt);
                assert(post1.drop_last() =~= pre1);
                assert(post1.last() == root@[i as int]);
                assert(root_docs(post1, opt) == root_docs(pre1, opt) + nd);
                assert forall|k: int|
                    0 <= k < root_docs(post1, opt).len() implies (
                #[trigger] builder.spec_docs()[k]).source@ == root_docs(post1, opt)[k] by {
                    if k < docs_head.len() {
                        assert(root_docs(post1, opt)[k] == root_docs(pre1, opt)[k]);
                        assert(docs_head[k].source@ == root_docs(pre1, opt)[k]);
                        assert(builder.spec_docs()[k] == docs_head[k]);
                    } else {
                        assert(root_docs(post1, opt)[k] == nd[k - docs_head.len()]);
                        assert(builder.spec_docs()[k] == builder.spec_docs()[docs_head.len() as int
                            + (k - docs_head.len())]);
                    }
                }
                assert forall|k: int|
                    0 <= k < root_globals(post1, opt).len() implies ((
                #[trigger] builder.spec_global()[k]) as int) == root_globals(post1, opt)[k] by {
                    if k < gl_head.len() {
                        assert(root_globals(post1, opt)[k] == root_globals(pre1, opt)[k]);
                        assert((gl_head[k] as int) == root_globals(pre1, opt)[k]);
                        assert(builder.spec_global()[k] == gl_head[k]);
                    } else {
                        match root@[i as int] {
                            TreeNode::File { .. } => {
                                assert(k == gl_head.len());
                                assert(root_globals(post1, opt)[k] == root_docs(
                                    pre1,
                                    opt,
                                ).len() as int);
                                assert(builder.spec_global()[k]
                                    == builder.spec_global()[builder.spec_global().len() - 1]);
                            },
                            TreeNode::Dir { .. } => {
                                assert(root_globals(post1, opt).len() == gl_head.len());
                            },
                        }
                    }
                }
                assert forall|k: int|
                    0 <= k < root_unnamed(post1, opt).len() implies {
                        &&& segs_view((#[trigger] builder.spec_unnamed()[k]).path@)
                            == root_unnamed(post1, opt)[k].0
                        &&& builder.spec_unnamed()[k].locale@ == root_unnamed(post1, opt)[k].1
                        &&& builder.spec_unnamed()[k].doc as int == root_unnamed(post1, opt)[k].2
                    } by {
                    if k < un_head.len() {
                        assert(root_unnamed(post1, opt)[k] == root_unnamed(pre1, opt)[k]);
                        assert(segs_view(un_head[k].path@) == root_unnamed(pre1, opt)[k].0
                            && un_head[k].locale@ == root_unnamed(pre1, opt)[k].1
                            && un_head[k].doc as int == root_unnamed(pre1, opt)[k].2);
                        assert(builder.spec_unnamed()[k] == un_head[k]);
                    } else {
                        match root@[i as int] {
                            TreeNode::Dir { name, children } => {
                                match dir_selected(opt, name@) {
                                    Some(t) => {
                                        assert(root_unnamed(post1, opt)[k] == with_locale_u(
                                            reg_unnamed(
                                                walk_regs(children@, Seq::empty()),
                                                root_docs(pre1, opt).len() as int,
                                            ),
                                            t,
                                        )[k - un_head.len()]);
                                        assert(builder.spec_unnamed()[k]
                                            == builder.spec_unnamed()[un_head.len() as int + (k
                                            - un_head.len())]);
                                    },
                                    None => {
                                        assert(root_unnamed(post1, opt).len() == un_head.len());
                                    },
                                }
                            },
                            TreeNode::File { .. } => {
                                assert(root_unnamed(post1, opt).len() == un_head.len());
                            },
                        }
                    }
                }
                assert forall|k: int|
                    0 <= k < root_named(post1, opt).len() implies {
                        &&& (#[trigger] builder.spec_named()[k]).name@ == root_named(
                            post1,
                            opt,
                        )[k].0
                        &&& builder.spec_named()[k].locale@ == root_named(post1, opt)[k].1
                        &&& builder.spec_named()[k].doc as int == root_named(post1, opt)[k].2
                    } by {
                    if k < nm_head.len() {
                        assert(root_named(post1, opt)[k] == root_named(pre1, opt)[k]);
                        assert(nm_head[k].name@ == root_named(pre1, opt)[k].0 && nm_head[k].locale@
                            == root_named(pre1, opt)[k].1 && nm_head[k].doc as int == root_named(
                            pre1,
                            opt,
                        )[k].2);
                        assert(builder.spec_named()[k] == nm_head[k]);
                    } else {
                        match root@[i as int] {
                            TreeNode::Dir { name, children } => {
                                match dir_selected(opt, name@) {
                                    Some(t) => {
                                        assert(root_named(post1, opt)[k] == with_locale_n(
                                            reg_named(
                                                walk_regs(children@, Seq::empty()),
                                                root_docs(pre1, opt).len() as int,
                                            ),
                                            t,
                                        )[k - nm_head.len()]);
                                        assert(builder.spec_named()[k]
                                            == builder.spec_named()[nm_head.len() as int + (k
                                            - nm_head.len())]);
                                    },
                                    None => {
                                        assert(root_named(post1, opt).len() == nm_head.len());
                                    },
                                }
                            },
                            TreeNode::File { .. } => {
                                assert(root_named(post1, opt).len() == nm_head.len());
                            },
                        }
                    }
                }
            }
            i += 1;
        }
        proof {
            assert(root@.take(n as int) =~= root@);
        }
        if let Some(l) = &locales_option {
            let ghost vset = crate::locales::tags_of(visited@).to_set();
            let mandatory = l.mandatory_locales();
            let mut missing: Vec<Locale> = Vec::new();
            let ghost mut mset: Set<Seq<char>> = Set::empty();
            let m = mandatory.len();
            let mut mi: usize = 0;
            proof {
                assert(crate::locales::tags_of(missing@).to_set() =~= mset);
                assert(mset =~= missing_upto(mandatory@, vset, 0));
            }
            while mi < m
                invariant
                    mi <= m,
                    m == mandatory@.len(),
                    vset == crate::locales::tags_of(visited@).to_set(),
                    crate::locales::tags_of(mandatory@).to_set()
                        == crate::locales::mandatory_set(l@),
                    crate::locales::tags_of(mandatory@).no_duplicates(),
                    crate::locales::tags_of(missing@).no_duplicates(),
                    crate::locales::tags_of(missing@).to_set() == mset,
                    mset == missing_upto(mandatory@, vset, mi as int),
                decreases m - mi,
            {
                let ghost msnap = missing@;
                let ghost tag = mandatory@[mi as int]@;
                if !contains_locale_vec(&visited, &mandatory[mi]) {
                    proof {
                        assert(!vset.contains(tag)) by {
                            if vset.contains(tag) {
                                let vm = crate::locales::tags_of(visited@);
                                let w = choose|w: int| 0 <= w < vm.len() && vm[w] == tag;
                                assert(visited@[w]@ == tag);
                            }
                        }
                        assert(!mset.contains(tag)) by {
                            if missing_upto(mandatory@, vset, mi as int).contains(tag) {
                                let x = choose|x: int|
                                    0 <= x < mi && (#[trigger] mandatory@[x])@ == tag
                                        && !vset.contains(tag);
                                assert(crate::locales::tags_of(mandatory@)[x]
                                    == crate::locales::tags_of(mandatory@)[mi as int]);
                            }
                        }
                    }
                    missing.push(mandatory[mi].clone());
                    proof {
                        let om = crate::locales::tags_of(msnap);
                        let mm = crate::locales::tags_of(missing@);
                        assert(mm =~= om.push(tag));
                        crate::locales::lemma_tag_set_push(om, mm, tag);
                        assert(mm.no_duplicates()) by {
                            assert forall|a: int, b: int|
                                0 <= a < b < mm.len() implies mm[a] != mm[b] by {
                                if b == mm.len() - 1 && mm[a] == mm[b] {
                                    assert(om[a] == mm[a]);
                                    assert(om.to_set().contains(tag));
                                }
                            }
                        }
                        mset = mset.insert(tag);
                        assert(mset =~= missing_upto(mandatory@, vset, mi as int + 1)) by {
                            assert forall|t: Seq<char>|
                                missing_upto(mandatory@, vset, mi as int).insert(tag).contains(
                                    t,
                                ) implies missing_upto(mandatory@, vset, mi as int + 1).contains(
                                t,
                            ) by {
                                if t == tag {
                                    assert((#[trigger] mandatory@[mi as int])@ == t);
                                }
                            }
                            assert forall|t: Seq<char>|
                                missing_upto(mandatory@, vset, mi as int + 1).contains(t) implies
                                missing_upto(mandatory@, vset, mi as int).insert(tag).contains(
                                t,
                            ) by {
                                let x = choose|x: int|
                                    0 <= x < mi + 1 && (#[trigger] mandatory@[x])@ == t
                                        && !vset.contains(t);
                            }
                        }
                    }
                } else {
                    proof {
                        let w = choose|w: int|
                            0 <= w < visited@.len() && (#[trigger] visited@[w])@ == tag;
                        assert(crate::locales::tags_of(visited@)[w] == tag);
                        assert(vset.contains(tag));
                        assert(mset =~= missing_upto(mandatory@, vset, mi as int + 1)) by {
                            assert forall|t: Seq<char>|
                                missing_upto(mandatory@, vset, mi as int + 1).contains(t) implies
                                missing_upto(mandatory@, vset, mi as int).contains(t) by {
                                let x = choose|x: int|
                                    0 <= x < mi + 1 && (#[trigger] mandatory@[x])@ == t
                                        && !vset.contains(t);
                                assert(x < mi);
                            }
                        }
                    }
                }
                mi += 1;
            }
            proof {
                assert(mset =~= crate::locales::mandatory_set(l@).difference(vset)) by {
                    assert forall|t: Seq<char>|
                        crate::locales::mandatory_set(l@).difference(vset).contains(t) implies
                        #[trigger] mset.contains(t) by {
                        let mv = crate::locales::tags_of(mandatory@);
                        assert(mv.to_set().contains(t));
                        let x = choose|x: int| 0 <= x < mv.len() && mv[x] == t;
                        assert(mandatory@[x]@ == t);
                        assert(missing_upto(mandatory@, vset, m as int).contains(t));
                    }
                    assert forall|t: Seq<char>| #[trigger] mset.contains(t) implies
                        crate::locales::mandatory_set(l@).difference(vset).contains(t) by {
                        let x = choose|x: int|
                            0 <= x < m && (#[trigger] mandatory@[x])@ == t && !vset.contains(t);
                        let mv = crate::locales::tags_of(mandatory@);
                        assert(mv[x] == t);
                        assert(mv.to_set().contains(t));
                    }
                }
            }
            if missing.len() > 0 {
                proof {
                    let mm = crate::locales::tags_of(missing@);
                    assert(mm.to_set().contains(mm[0])) by {
                        assert(mm[0] == missing@[0]@);
                    }
                }
                return Err(ParserError::MissingLocales(missing));
            }
            proof {
                assert(crate::locales::mandatory_set(l@).subset_of(vset)) by {
                    assert forall|t: Seq<char>|
                        crate::locales::mandatory_set(l@).contains(t) implies vset.contains(
                        t,
                    ) by {
                        if !vset.contains(t) {
                            assert(mset.contains(t));
                            let mm = crate::locales::tags_of(missing@);
                            let w = choose|w: int| 0 <= w < mm.len() && mm[w] == t;
                        }
                    }
                }
            }
        }
        let final_locales = match locales_option {
            Some(l) => l,
            None => Locales::from_locales(visited),
        };
        Ok(builder.with_locales(final_locales))
    }
}

/// Whether the list holds a locale with this tag.
fn contains_locale_vec(v: &Vec<Locale>, l: &Locale) -> (r: bool)
    ensures
        r == exists|i: int| 0 <= i < v@.len() && (#[trigger] v@[i])@ == l@,
{
    let n = v.len();
    let mut i: usize = 0;
    while i < n
        invariant
            i <= n,
            n == v@.len(),
            forall|k: int| 0 <= k < i ==> (#[trigger] v@[k])@ != l@,
        decreases n - i,
    {
        if v[i] == *l {
            return true;
        }
        i += 1;
    }
    false
}

/// The texts of a walk's registrations, in order.
pub open spec fn regs_contents(regs: Seq<FileReg>) -> Seq<Seq<char>> {
    regs.map_values(|r: FileReg| r.contents)
}

/// Path-scoped registrations tagged with their locale.
pub open spec fn with_locale_u(s: Seq<(Seq<Seq<char>>, int)>, t: Seq<char>) -> Seq<
    (Seq<Seq<char>>, Seq<char>, int),
> {
    s.map_values(|p: (Seq<Seq<char>>, int)| (p.0, t, p.1))
}

/// Catalog registrations tagged with their locale.
pub open spec fn with_locale_n(s: Seq<(Seq<char>, int)>, t: Seq<char>) -> Seq<
    (Seq<char>, Seq<char>, int),
> {
    s.map_values(|p: (Seq<char>, int)| (p.0, t, p.1))
}

/// The document texts one root node stores: an eligible root file's text,
/// or all the texts of a selected locale subtree.
pub open spec fn node_docs(n: TreeNode, opt: Option<Seq<crate::locales::LocaleEntryView>>) -> Seq<
    Seq<char>,
> {
    match n {
        TreeNode::File { name, contents } => match crate::utils::resource_stem(name@) {
            Some(_) => seq![contents@],
            None => Seq::empty(),
        },
        TreeNode::Dir { name, children } => match dir_selected(opt, name@) {
            Some(_) => regs_contents(walk_regs(children@, Seq::empty())),
            None => Seq::empty(),
        },
    }
}

/// The document texts a clean whole-tree walk stores, in store order.
pub open spec fn root_docs(
    nodes: Seq<TreeNode>,
    opt: Option<Seq<crate::locales::LocaleEntryView>>,
) -> Seq<Seq<char>>
    decreases nodes.len(),
{
    if nodes.len() == 0 {
        Seq::empty()
    } else {
        root_docs(nodes.drop_last(), opt) + node_docs(nodes.last(), opt)
    }
}

/// The store indices of the global documents of a clean whole-tree walk.
pub open spec fn root_globals(
    nodes: Seq<TreeNode>,
    opt: Option<Seq<crate::locales::LocaleEntryView>>,
) -> Seq<int>
    decreases nodes.len(),
{
    if nodes.len() == 0 {
        Seq::empty()
    } else {
        root_globals(nodes.drop_last(), opt) + (match nodes.last() {
            TreeNode::File { name, .. } => match crate::utils::resource_stem(name@) {
                Some(_) => seq![root_docs(nodes.drop_last(), opt).len() as int],
                None => Seq::empty(),
            },
            _ => Seq::empty(),
        })
    }
}

/// The path-scoped registrations of a clean whole-tree walk.
pub open spec fn root_unnamed(
    nodes: Seq<TreeNode>,
    opt: Option<Seq<crate::locales::LocaleEntryView>>,
) -> Seq<(Seq<Seq<char>>, Seq<char>, int)>
    decreases nodes.len(),
{
    if nodes.len() == 0 {
        Seq::empty()
    } else {
        root_unnamed(nodes.drop_last(), opt) + (match nodes.last() {
            TreeNode::Dir { name, children } => match dir_selected(opt, name@) {
                Some(t) => with_locale_u(
                    reg_unnamed(
                        walk_regs(children@, Seq::empty()),
                        root_docs(nodes.drop_last(), opt).len() as int,
                    ),
                    t,
                ),
                None => Seq::empty(),
            },
            _ => Seq::empty(),
        })
    }
}

/// The catalog registrations of a clean whole-tree walk.
pub open spec fn root_named(
    nodes: Seq<TreeNode>,
    opt: Option<Seq<crate::locales::LocaleEntryView>>,
) -> Seq<(Seq<char>, Seq<char>, int)>
    decreases nodes.len(),
{
    if nodes.len() == 0 {
        Seq::empty()
    } else {
        root_named(nodes.drop_last(), opt) + (match nodes.last() {
            TreeNode::Dir { name, children } => match dir_selected(opt, name@) {
                Some(t) => with_locale_n(
                    reg_named(
                        walk_regs(children@, Seq::empty()),
                        root_docs(nodes.drop_last(), opt).len() as int,
                    ),
                    t,
                ),
                None => Seq::empty(),
            },
            _ => Seq::empty(),
        })
    }
}

/// Whether (and as which locale) a root directory is walked: its name
/// must be a language tag, and where an explicit locale set was given the
/// tag must be one the set mentions; otherwise the directory is skipped,
/// or, with no explicit set, an unparsable name is an error.
pub open spec fn dir_selected(
    opt: Option<Seq<crate::locales::LocaleEntryView>>,
    name: Seq<char>,
) -> Option<Seq<char>> {
    match crate::langid::canonical_tag(name) {
        None => None,
        Some(t) => match opt {
            None => Some(t),
            Some(entries) => if crate::locales::all_set(entries).contains(t) {
                Some(t)
            } else {
                None
            },
        },
    }
}

/// How a whole-tree walk fails.
pub ghost enum BuildFail {
    /// An eligible root resource file without the private prefix.
    GlobalUnprefixed { name: Seq<char> },
    /// A file whose Fluent parse reports errors.
    BadSyntax { contents: Seq<char> },
    /// A directory name that is not a language tag, with no explicit set.
    BadDir { name: Seq<char> },
    /// A catalog registered twice for one locale.
    DuplicateName { name: Seq<char>, locale: Seq<char> },
}

/// The first failure of a whole-tree walk: root files must be private and
/// parse, selected locale subtrees must register cleanly (threading the
/// catalog pairs already taken), and with no explicit set every directory
/// name must be a language tag.
pub open spec fn root_failure(
    nodes: Seq<TreeNode>,
    opt: Option<Seq<crate::locales::LocaleEntryView>>,
    taken: Set<(Seq<char>, Seq<char>)>,
) -> Option<BuildFail>
    decreases nodes.len(),
{
    if nodes.len() == 0 {
        None
    } else {
        match nodes.first() {
            TreeNode::File { name, contents } => match crate::utils::resource_stem(name@) {
                Some(stem) => if !(stem.len() > 0 && stem[0] == '_') {
                    Some(BuildFail::GlobalUnprefixed { name: name@ })
                } else if crate::fluent::fluent_parse_errors(contents@).len() != 0 {
                    Some(BuildFail::BadSyntax { contents: contents@ })
                } else {
                    root_failure(nodes.drop_first(), opt, taken)
                },
                None => root_failure(nodes.drop_first(), opt, taken),
            },
            TreeNode::Dir { name, children } => match dir_selected(opt, name@) {
                Some(t) => {
                    let regs = walk_regs(children@, Seq::empty());
                    match reg_failure(regs, t, taken) {
                        Some(f) => if f.1 {
                            Some(BuildFail::BadSyntax { contents: regs[f.0].contents })
                        } else {
                            Some(
                                BuildFail::DuplicateName {
                                    name: catalog_name(regs[f.0].path, regs[f.0].stem),
                                    locale: t,
                                },
                            )
                        },
                        None => root_failure(
                            nodes.drop_first(),
                            opt,
                            taken.union(names_added(regs, t)),
                        ),
                    }
                },
                None => if opt is None {
                    Some(BuildFail::BadDir { name: name@ })
                } else {
                    root_failure(nodes.drop_first(), opt, taken)
                },
            },
        }
    }
}

/// The locale directories a walk visits, first visit order, without
/// repetition.
pub open spec fn visited_acc(
    nodes: Seq<TreeNode>,
    opt: Option<Seq<crate::locales::LocaleEntryView>>,
    acc: Seq<Seq<char>>,
) -> Seq<Seq<char>>
    decreases nodes.len(),
{
    if nodes.len() == 0 {
        acc
    } else {
        match nodes.first() {
            TreeNode::Dir { name, .. } => match dir_selected(opt, name@) {
                Some(t) => visited_acc(
                    nodes.drop_first(),
                    opt,
                    if acc.contains(t) {
                        acc
                    } else {
                        acc.push(t)
                    },
                ),
                None => visited_acc(nodes.drop_first(), opt, acc),
            },
            _ => visited_acc(nodes.drop_first(), opt, acc),
        }
    }
}

proof fn lemma_visited_acc_append(
    a: Seq<TreeNode>,
    b: Seq<TreeNode>,
    opt: Option<Seq<crate::locales::LocaleEntryView>>,
    acc: Seq<Seq<char>>,
)
    ensures
        visited_acc(a + b, opt, acc) == visited_acc(b, opt, visited_acc(a, opt, acc)),
    decreases a.len(),
{
    if a.len() == 0 {
        assert(a + b =~= b);
    } else {
        assert((a + b).first() == a.first());
        assert((a + b).drop_first() =~= a.drop_first() + b);
        match a.first() {
            TreeNode::Dir { name, .. } => match dir_selected(opt, name@) {
                Some(t) => {
                    lemma_visited_acc_append(
                        a.drop_first(),
                        b,
                        opt,
                        if acc.contains(t) {
                            acc
                        } else {
                            acc.push(t)
                        },
                    );
                },
                None => {
                    lemma_visited_acc_append(a.drop_first(), b, opt, acc);
                },
            },
            _ => {
                lemma_visited_acc_append(a.drop_first(), b, opt, acc);
            },
        }
    }
}

proof fn lemma_root_failure_append(
    a: Seq<TreeNode>,
    b: Seq<TreeNode>,
    opt: Option<Seq<crate::locales::LocaleEntryView>>,
    taken: Set<(Seq<char>, Seq<char>)>,
)
    ensures
        root_failure(a, opt, taken) is None ==> root_failure(a + b, opt, taken) == root_failure(
            b,
            opt,
            root_taken(a, opt, taken),
        ),
        root_failure(a, opt, taken) is Some ==> root_failure(a + b, opt, taken) == root_failure(
            a,
            opt,
            taken,
        ),
    decreases a.len(),
{
    if a.len() == 0 {
        assert(a + b =~= b);
    } else {
        assert((a + b).first() == a.first());
        assert((a + b).drop_first() =~= a.drop_first() + b);
        match a.first() {
            TreeNode::File { name, contents } => match crate::utils::resource_stem(name@) {
                Some(stem) => {
                    if stem.len() > 0 && stem[0] == '_' && crate::fluent::fluent_parse_errors(
                        contents@,
                    ).len() == 0 {
                        lemma_root_failure_append(a.drop_first(), b, opt, taken);
                    }
                },
                None => {
                    lemma_root_failure_append(a.drop_first(), b, opt, taken);
                },
            },
            TreeNode::Dir { name, children } => match dir_selected(opt, name@) {
                Some(t) => {
                    let regs = walk_regs(children@, Seq::empty());
                    if reg_failure(regs, t, taken) is None {
                        lemma_root_failure_append(
                            a.drop_first(),
                            b,
                            opt,
                            taken.union(names_added(regs, t)),
                        );
                    }
                },
                None => {
                    if opt is Some {
                        lemma_root_failure_append(a.drop_first(), b, opt, taken);
                    }
                },
            },
        }
    }
}

proof fn lemma_root_taken_append(
    a: Seq<TreeNode>,
    b: Seq<TreeNode>,
    opt: Option<Seq<crate::locales::LocaleEntryView>>,
    taken: Set<(Seq<char>, Seq<char>)>,
)
    ensures
        root_taken(a + b, opt, taken) == root_taken(b, opt, root_taken(a, opt, taken)),
    decreases a.len(),
{
    if a.len() == 0 {
        assert(a + b =~= b);
    } else {
        assert((a + b).first() == a.first());
        assert((a + b).drop_first() =~= a.drop_first() + b);
        match a.first() {
            TreeNode::Dir { name, children } => match dir_selected(opt, name@) {
                Some(t) => {
                    lemma_root_taken_append(
                        a.drop_first(),
                        b,
                        opt,
                        taken.union(names_added(walk_regs(children@, Seq::empty()), t)),
                    );
                },
                None => {
                    lemma_root_taken_append(a.drop_first(), b, opt, taken);
                },
            },
            _ => {
                lemma_root_taken_append(a.drop_first(), b, opt, taken);
            },
        }
    }
}

/// The catalog pairs taken after a clean whole-tree walk.
pub open spec fn root_taken(
    nodes: Seq<TreeNode>,
    opt: Option<Seq<crate::locales::LocaleEntryView>>,
    taken: Set<(Seq<char>, Seq<char>)>,
) -> Set<(Seq<char>, Seq<char>)>
    decreases nodes.len(),
{
    if nodes.len() == 0 {
        taken
    } else {
        match nodes.first() {
            TreeNode::Dir { name, children } => match dir_selected(opt, name@) {
                Some(t) => root_taken(
                    nodes.drop_first(),
                    opt,
                    taken.union(names_added(walk_regs(children@, Seq::empty()), t)),
                ),
                None => root_taken(nodes.drop_first(), opt, taken),
            },
            _ => root_taken(nodes.drop_first(), opt, taken),
        }
    }
}

/// The function names referenced anywhere in the store's documents.
pub open spec fn store_funcs(docs: Seq<DocSource>) -> Set<Seq<char>>
    decreases docs.len(),
{
    if docs.len() == 0 {
        Set::empty()
    } else {
        store_funcs(docs.drop_last()).union(crate::ast::doc_funcs(*docs.last().model))
    }
}

impl L10n {
    fn find_resource(&self, name: &str) -> (r: Option<usize>)
        ensures
            match r {
                Some(i) => i < self.spec_resources().len() && self.spec_resources()[i as int].0@
                    == name@ && self.has_resource(name@) && self.resource_of(name@)
                    == self.spec_resources()[i as int].1,
                None => !self.has_resource(name@),
            },
    {
        proof {
            use_type_invariant(self);
        }
        let n = self.resources.len();
        let mut i: usize = 0;
        while i < n
            invariant
                i <= n,
                n == self.resources@.len(),
                self.wf(),
                forall|k: int| 0 <= k < i ==> (#[trigger] self.resources@[k]).0@ != name@,
            decreases n - i,
        {
            if crate::utils::str_eq(self.resources[i].0.as_str(), name) {
                proof {
                    let w = choose|w: int|
                        0 <= w < self.spec_resources().len() && (
                        #[trigger] self.spec_resources()[w]).0@ == name@;
                    assert(w == i as int);
                }
                return Some(i);
            }
            i += 1;
        }
        None
    }

    /// Resolves and formats a message of one catalog for one locale; the
    /// fallible entry point of the query surface.
    pub fn try_translate_with_args(
        &self,
        lang: &Locale,
        resource: &str,
        key: &str,
        args: Option<&crate::args::TranslationArgs>,
    ) -> (r: Result<String, TranslateError>)
        ensures
            !self.has_resource(resource@) <==> (r matches Err(TranslateError::ResourceNotExists(n))
                && n@ == resource@),
            self.has_resource(resource@) ==> ({
                let res0 = self.resource_of(resource@);
                &&& (!res0.has_locale(lang@) <==> (r matches Err(
                    TranslateError::LocaleNotSupported { locale: l },
                ) && l@ == lang@))
                &&& res0.has_locale(lang@) ==> ({
                    let b = res0.bundle_of(lang@);
                    match crate::bundle::resolve(
                        b.spec_docs(),
                        b.messages(),
                        crate::utils::split_key(key@).0,
                        crate::utils::split_key(key@).1,
                    ) {
                        crate::bundle::Resolution::NoMessage => r matches Err(
                            TranslateError::MessageIdNotExists { id, locale: l },
                        ) && id@ == crate::utils::split_key(key@).0 && l@ == b.spec_locales()[0],
                        crate::bundle::Resolution::NoAttribute => r matches Err(
                            TranslateError::MessageAttributeNotExists { attribute, id, locale: l },
                        ) && Some(attribute@) == crate::utils::split_key(key@).1 && id@
                            == crate::utils::split_key(key@).0 && l@ == b.spec_locales()[0],
                        crate::bundle::Resolution::NoValue => r matches Err(
                            TranslateError::MessageIdValueNotExists { id, locale: l },
                        ) && id@ == crate::utils::split_key(key@).0 && l@ == b.spec_locales()[0],
                        crate::bundle::Resolution::Found(_) => ({
                            let out = crate::bundle::format_outcome(
                                b.spec_sources(),
                                b.spec_locales(),
                                b.spec_isolating(),
                                crate::utils::split_key(key@).0,
                                crate::utils::split_key(key@).1,
                                match args {
                                    Some(a) => a@,
                                    None => Map::empty(),
                                },
                            );
                            match out {
                                Ok(t) => r matches Ok(s) && s@ == t,
                                Err(es) => r matches Err(TranslateError::FormatErrors(v))
                                    && v@.map_values(|x: String| x@) == es,
                            }
                        }),
                    }
                })
            }),
    {
        proof {
            use_type_invariant(self);
        }
        let i = match self.find_resource(resource) {
            None => {
                return Err(TranslateError::ResourceNotExists(resource.to_owned()));
            },
            Some(i) => i,
        };
        self.resources[i].1.translate(lang, key, args)
    }

    /// The variables a caller must supply for the key of one catalog, as
    /// the union across every supported locale.
    pub fn required_variables(&self, resource: &str, key: &str) -> (r: Result<
        Vec<String>,
        TranslateError,
    >)
        ensures
            !self.has_resource(resource@) ==> (r matches Err(TranslateError::ResourceNotExists(n))
                && n@ == resource@),
            self.has_resource(resource@) ==> ({
                let res0 = self.resource_of(resource@);
                &&& (r is Ok <==> crate::resource::scans(
                    res0.spec_bundles(),
                    crate::utils::split_key(key@).0,
                    crate::utils::split_key(key@).1,
                ).ok)
                &&& (r matches Ok(v) ==> crate::utils::strs_set(v@) == crate::resource::scans(
                    res0.spec_bundles(),
                    crate::utils::split_key(key@).0,
                    crate::utils::split_key(key@).1,
                ).vars)
                &&& (r matches Err(e) ==> exists|i: int|
                    {
                        &&& 0 <= i < res0.spec_bundles().len()
                        &&& !crate::bundle::bundle_scan(
                            (#[trigger] res0.spec_bundles()[i]).1,
                            crate::utils::split_key(key@).0,
                            crate::utils::split_key(key@).1,
                        ).ok
                        &&& per_key_error(e)
                        &&& translate_error_locale(e) == Some(
                            res0.spec_bundles()[i].1.spec_locales()[0],
                        )
                    })
            }),
    {
        proof {
            use_type_invariant(self);
        }
        let i = match self.find_resource(resource) {
            None => {
                return Err(TranslateError::ResourceNotExists(resource.to_owned()));
            },
            Some(i) => i,
        };
        self.resources[i].1.required_variables(key)
    }

    /// Every function name referenced across every raw parsed document the
    /// engine owns — function availability is a global build-time
    /// contract, independent of locale resolution.
    #[verifier::loop_isolation(false)]
    pub fn required_functions(&self) -> (r: Vec<String>)
        ensures
            crate::utils::strs_set(r@) == store_funcs(self.spec_store()),
            r@.map_values(|x: String| x@).no_duplicates(),
    {
        let ghost docs = self.spec_store();
        let mut out: Vec<String> = Vec::new();
        let n = self.docs.len();
        let mut i: usize = 0;
        proof {
            assert(crate::utils::strs_set(out@) =~= store_funcs(docs.take(0)));
        }
        while i < n
            invariant
                i <= n,
                n == docs.len(),
                docs == self.spec_store(),
                out@.map_values(|x: String| x@).no_duplicates(),
                crate::utils::strs_set(out@) == store_funcs(docs.take(i as int)),
            decreases n - i,
        {
            proof {
                assert(docs.take(i as int + 1).drop_last() =~= docs.take(i as int));
                assert(docs.take(i as int + 1).last() == docs[i as int]);
            }
            let ghost base = crate::utils::strs_set(out@);
            let model = &self.docs[i].model;
            let m = model.entries.len();
            let mut j: usize = 0;
            proof {
                assert(base.union(crate::ast::entries_funcs(model.entries@.take(0))) =~= base);
            }
            while j < m
                invariant
                    j <= m,
                    i < n,
                    m == model.entries@.len(),
                    out@.map_values(|x: String| x@).no_duplicates(),
                    crate::utils::strs_set(out@) == base.union(
                        crate::ast::entries_funcs(model.entries@.take(j as int)),
                    ),
                decreases m - j,
            {
                proof {
                    assert(model.entries@.take(j as int + 1).drop_last() =~= model.entries@.take(
                        j as int,
                    ));
                }
                crate::ast::collect_entry_funcs(&model.entries[j], &mut out);
                proof {
                    assert(base.union(
                        crate::ast::entries_funcs(model.entries@.take(j as int)),
                    ).union(crate::ast::entry_funcs(model.entries@[j as int])) =~= base.union(
                        crate::ast::entries_funcs(model.entries@.take(j as int + 1)),
                    ));
                }
                j += 1;
            }
            proof {
                assert(model.entries@.take(m as int) =~= model.entries@);
                assert(crate::ast::doc_funcs(*docs[i as int].model) == crate::ast::entries_funcs(
                    model.entries@,
                ));
            }
            i += 1;
        }
        proof {
            assert(docs.take(n as int) =~= docs);
        }
        out
    }
}

} // verus!
