//! A compiled per-(catalog, locale) bundle.
//!
//! A bundle layers resource documents in a fixed precedence order, lowest
//! precedence first: a later document overrides same-named messages of an
//! earlier one.  The engine's store answers formatting; the verified model
//! answers every structural question (which messages exist, which pattern
//! a key resolves to, which variables a pattern needs).

use vstd::prelude::*;

use std::rc::Rc;

use crate::ast::{
    model_resource, AttributeModel, CallArgsModel, DocumentModel, ElementModel, EntryModel,
    ExpressionModel, InlineModel, PatternModel,
};
use crate::fluent::{
    engine_add_resource, engine_set_use_isolating, new_engine_bundle, parse_fluent, EngineBundle,
};
use crate::locales::Locale;
use crate::utils::{push_unique_str, strs_set};

verus! {

/// The message index after layering one document at position `d`: each
/// message entry of the document overrides the same id from earlier
/// layers.
pub open spec fn layer_entries(
    m: Map<Seq<char>, (int, int)>,
    es: Seq<EntryModel>,
    d: int,
) -> Map<Seq<char>, (int, int)>
    decreases es.len(),
{
    if es.len() == 0 {
        m
    } else {
        let m2 = layer_entries(m, es.drop_last(), d);
        match es.last() {
            EntryModel::Message { id, .. } => m2.insert(id@, (d, es.len() - 1)),
            _ => m2,
        }
    }
}

/// The message index of a whole document stack, layered in order.
pub open spec fn layered(docs: Seq<Rc<DocumentModel>>) -> Map<Seq<char>, (int, int)>
    decreases docs.len(),
{
    if docs.len() == 0 {
        Map::empty()
    } else {
        layer_entries(layered(docs.drop_last()), docs.last().entries@, docs.len() - 1)
    }
}

/// Whether the entries define a message of that id.
pub open spec fn entries_define(es: Seq<EntryModel>, id: Seq<char>) -> bool {
    exists|j: int|
        0 <= j < es.len() && ((#[trigger] es[j]) matches EntryModel::Message { id: mid, .. }
            && mid@ == id)
}

/// Whether the document defines a message of that id.
pub open spec fn doc_defines(doc: Rc<DocumentModel>, id: Seq<char>) -> bool {
    entries_define(doc.entries@, id)
}

proof fn lemma_layer_entries_key(
    m: Map<Seq<char>, (int, int)>,
    es: Seq<EntryModel>,
    d: int,
    id: Seq<char>,
)
    ensures
        layer_entries(m, es, d).contains_key(id) <==> (m.contains_key(id) || entries_define(
            es,
            id,
        )),
        entries_define(es, id) ==> ({
            let loc = layer_entries(m, es, d)[id];
            &&& loc.0 == d
            &&& 0 <= loc.1 < es.len()
            &&& (es[loc.1] matches EntryModel::Message { id: mid, .. } && mid@ == id)
            &&& forall|j: int|
                loc.1 < j < es.len() ==> !((#[trigger] es[j]) matches EntryModel::Message {
                    id: mid,
                    ..
                } && mid@ == id)
        }),
        !entries_define(es, id) && m.contains_key(id) ==> layer_entries(m, es, d)[id] == m[id],
    decreases es.len(),
{
    if es.len() > 0 {
        lemma_layer_entries_key(m, es.drop_last(), d, id);
        let prev = layer_entries(m, es.drop_last(), d);
        match es.last() {
            EntryModel::Message { id: mid, .. } => {
                if mid@ == id {
                    assert(es[es.len() - 1] matches EntryModel::Message { id: m2, .. } && m2@
                        == id);
                } else {
                    if entries_define(es, id) {
                        let j = choose|j: int|
                            0 <= j < es.len() && ((#[trigger] es[j])
                                matches EntryModel::Message { id: m2, .. } && m2@ == id);
                        assert(es.drop_last()[j] == es[j]);
                        assert(entries_define(es.drop_last(), id));
                    }
                    if entries_define(es.drop_last(), id) {
                        assert(entries_define(es, id)) by {
                            let j = choose|j: int|
                                0 <= j < es.drop_last().len() && ((#[trigger] es.drop_last()[j])
                                    matches EntryModel::Message { id: m2, .. } && m2@ == id);
                            assert(es[j] == es.drop_last()[j]);
                        }
                        let loc = prev[id];
                        assert(es[loc.1] == es.drop_last()[loc.1]);
                        assert forall|j: int| loc.1 < j < es.len() implies !((#[trigger] es[j])
                            matches EntryModel::Message { id: m2, .. } && m2@ == id) by {
                            if j < es.len() - 1 {
                                assert(es.drop_last()[j] == es[j]);
                            }
                        }
                    }
                }
            },
            _ => {
                if entries_define(es, id) {
                    let j = choose|j: int|
                        0 <= j < es.len() && ((#[trigger] es[j]) matches EntryModel::Message {
                            id: m2,
                            ..
                        } && m2@ == id);
                    assert(es.drop_last()[j] == es[j]);
                    assert(entries_define(es.drop_last(), id));
                }
                if entries_define(es.drop_last(), id) {
                    assert(entries_define(es, id)) by {
                        let j = choose|j: int|
                            0 <= j < es.drop_last().len() && ((#[trigger] es.drop_last()[j])
                                matches EntryModel::Message { id: m2, .. } && m2@ == id);
                        assert(es[j] == es.drop_last()[j]);
                    }
                    let loc = prev[id];
                    assert(es[loc.1] == es.drop_last()[loc.1]);
                    assert forall|j: int| loc.1 < j < es.len() implies !((#[trigger] es[j])
                        matches EntryModel::Message { id: m2, .. } && m2@ == id) by {
                        if j < es.len() - 1 {
                            assert(es.drop_last()[j] == es[j]);
                        }
                    }
                }
            },
        }
    }
}

/// The override law of layering: a message id is known to a bundle exactly
/// when some layered document defines it, and the definition that answers
/// is the one of the last such document — each later layer overrides
/// same-named definitions from earlier layers.
pub proof fn lemma_layered_override(docs: Seq<Rc<DocumentModel>>, id: Seq<char>)
    ensures
        layered(docs).contains_key(id) <==> exists|k: int|
            0 <= k < docs.len() && doc_defines(#[trigger] docs[k], id),
        layered(docs).contains_key(id) ==> ({
            let loc = layered(docs)[id];
            &&& 0 <= loc.0 < docs.len()
            &&& doc_defines(docs[loc.0], id)
            &&& forall|k: int| loc.0 < k < docs.len() ==> !doc_defines(#[trigger] docs[k], id)
        }),
    decreases docs.len(),
{
    if docs.len() > 0 {
        lemma_layered_override(docs.drop_last(), id);
        lemma_layer_entries_key(
            layered(docs.drop_last()),
            docs.last().entries@,
            docs.len() - 1,
            id,
        );
        if layered(docs).contains_key(id) {
            if entries_define(docs.last().entries@, id) {
                assert(doc_defines(docs[docs.len() - 1], id));
            } else {
                let k = choose|k: int|
                    0 <= k < docs.drop_last().len() && doc_defines(
                        #[trigger] docs.drop_last()[k],
                        id,
                    );
                assert(docs.drop_last()[k] == docs[k]);
                assert(doc_defines(docs[k], id));
                let loc = layered(docs.drop_last())[id];
                assert forall|x: int| loc.0 < x < docs.len() implies !doc_defines(
                    #[trigger] docs[x],
                    id,
                ) by {
                    if x < docs.len() - 1 {
                        assert(docs.drop_last()[x] == docs[x]);
                    }
                }
            }
        }
        if exists|k: int| 0 <= k < docs.len() && doc_defines(#[trigger] docs[k], id) {
            let k = choose|k: int| 0 <= k < docs.len() && doc_defines(#[trigger] docs[k], id);
            if k < docs.len() - 1 {
                assert(docs.drop_last()[k] == docs[k]);
                assert(layered(docs.drop_last()).contains_key(id));
            }
        }
    }
}

/// Whether a message-index entry points at a message of that id inside the
/// document stack.
pub open spec fn loc_wf(docs: Seq<Rc<DocumentModel>>, id: Seq<char>, loc: (int, int)) -> bool {
    &&& 0 <= loc.0 < docs.len()
    &&& 0 <= loc.1 < docs[loc.0].entries@.len()
    &&& docs[loc.0].entries@[loc.1] matches EntryModel::Message { id: mid, .. } && mid@ == id
}

pub open spec fn index_wf(docs: Seq<Rc<DocumentModel>>, m: Map<Seq<char>, (int, int)>) -> bool {
    forall|id: Seq<char>| #[trigger] m.contains_key(id) ==> loc_wf(docs, id, m[id])
}

proof fn lemma_layer_entries_wf(
    docs: Seq<Rc<DocumentModel>>,
    m: Map<Seq<char>, (int, int)>,
    es: Seq<EntryModel>,
    d: int,
)
    requires
        index_wf(docs, m),
        0 <= d < docs.len(),
        es == docs[d].entries@,
    ensures
        index_wf(docs, layer_entries(m, es, d)),
{
    lemma_layer_entries_wf_prefix(docs, m, es, d, es.len() as int);
    assert(es.take(es.len() as int) =~= es);
}

proof fn lemma_layer_entries_wf_prefix(
    docs: Seq<Rc<DocumentModel>>,
    m: Map<Seq<char>, (int, int)>,
    es: Seq<EntryModel>,
    d: int,
    n: int,
)
    requires
        index_wf(docs, m),
        0 <= d < docs.len(),
        es == docs[d].entries@,
        0 <= n <= es.len(),
    ensures
        index_wf(docs, layer_entries(m, es.take(n), d)),
    decreases n,
{
    if n == 0 {
        assert(es.take(0).len() == 0);
    } else {
        lemma_layer_entries_wf_prefix(docs, m, es, d, n - 1);
        assert(es.take(n).drop_last() =~= es.take(n - 1));
        let prev = layer_entries(m, es.take(n - 1), d);
        match es.take(n).last() {
            EntryModel::Message { id, .. } => {
                assert(es[n - 1] == es.take(n).last());
                assert(loc_wf(docs, id@, (d, n - 1)));
                assert forall|x: Seq<char>| #[trigger]
                    layer_entries(m, es.take(n), d).contains_key(x) implies loc_wf(
                    docs,
                    x,
                    layer_entries(m, es.take(n), d)[x],
                ) by {
                    if x != id@ {
                        assert(prev.contains_key(x));
                    }
                }
            },
            _ => {},
        }
    }
}

proof fn lemma_index_wf_push(
    docs: Seq<Rc<DocumentModel>>,
    m: Map<Seq<char>, (int, int)>,
    extra: Rc<DocumentModel>,
)
    requires
        index_wf(docs, m),
    ensures
        index_wf(docs.push(extra), m),
{
    assert forall|id: Seq<char>| #[trigger] m.contains_key(id) implies loc_wf(
        docs.push(extra),
        id,
        m[id],
    ) by {
        assert(loc_wf(docs, id, m[id]));
        assert(docs.push(extra)[m[id].0] == docs[m[id].0]);
    }
}

/// The message index held by the association list, later pairs overriding
/// earlier ones.
pub open spec fn assoc_index(s: Seq<(String, usize, usize)>) -> Map<Seq<char>, (int, int)>
    decreases s.len(),
{
    if s.len() == 0 {
        Map::empty()
    } else {
        assoc_index(s.drop_last()).insert(s.last().0@, (s.last().1 as int, s.last().2 as int))
    }
}

proof fn lemma_assoc_found(s: Seq<(String, usize, usize)>, id: Seq<char>, i: int)
    requires
        0 <= i < s.len(),
        s[i].0@ == id,
        forall|k: int| i < k < s.len() ==> (#[trigger] s[k]).0@ != id,
    ensures
        assoc_index(s).contains_key(id),
        assoc_index(s)[id] == (s[i].1 as int, s[i].2 as int),
    decreases s.len(),
{
    if i == s.len() - 1 {
    } else {
        assert(s.drop_last()[i] == s[i]);
        lemma_assoc_found(s.drop_last(), id, i);
    }
}

proof fn lemma_assoc_absent(s: Seq<(String, usize, usize)>, id: Seq<char>)
    requires
        forall|k: int| 0 <= k < s.len() ==> (#[trigger] s[k]).0@ != id,
    ensures
        !assoc_index(s).contains_key(id),
    decreases s.len(),
{
    if s.len() > 0 {
        lemma_assoc_absent(s.drop_last(), id);
    }
}

/// How a message key resolves against a bundle: to a pattern, or to one of
/// the three structural failures.
pub ghost enum Resolution {
    Found(PatternModel),
    NoMessage,
    NoAttribute,
    NoValue,
}

/// The first attribute of that name, where one exists.
pub open spec fn find_attr(ats: Seq<AttributeModel>, name: Seq<char>) -> Option<PatternModel>
    decreases ats.len(),
{
    if ats.len() == 0 {
        None
    } else if ats[0].id@ == name {
        Some(ats[0].value)
    } else {
        find_attr(ats.drop_first(), name)
    }
}

/// Resolves `id` (and optionally an attribute name) against a message
/// index: the rules of the key split — an unknown id, an unknown
/// attribute, or a message without a default value each fail in their own
/// way.
pub open spec fn resolve(
    docs: Seq<Rc<DocumentModel>>,
    msgs: Map<Seq<char>, (int, int)>,
    id: Seq<char>,
    attr: Option<Seq<char>>,
) -> Resolution {
    if !msgs.contains_key(id) {
        Resolution::NoMessage
    } else if !loc_wf(docs, id, msgs[id]) {
        Resolution::NoMessage
    } else {
        match docs[msgs[id].0].entries@[msgs[id].1] {
            EntryModel::Message { value, attributes, .. } => match attr {
                Some(a) => match find_attr(attributes@, a) {
                    Some(p) => Resolution::Found(p),
                    None => Resolution::NoAttribute,
                },
                None => match value {
                    Some(p) => Resolution::Found(p),
                    None => Resolution::NoValue,
                },
            },
            _ => Resolution::NoMessage,
        }
    }
}

/// The outcome of a variable scan: whether every reference resolved, and
/// the variable names seen.
pub ghost struct VarScan {
    pub ok: bool,
    pub vars: Set<Seq<char>>,
}

/// The variables a pattern needs, resolving message references within the
/// same bundle, spending one unit of fuel per reference; fuel exhaustion
/// counts as a failed scan, which is how a reference cycle is refused.
pub open spec fn pattern_vars(
    docs: Seq<Rc<DocumentModel>>,
    msgs: Map<Seq<char>, (int, int)>,
    p: PatternModel,
    fuel: nat,
) -> VarScan
    decreases fuel, p, 1int,
{
    elements_vars(docs, msgs, p.elements@, fuel)
}

pub open spec fn elements_vars(
    docs: Seq<Rc<DocumentModel>>,
    msgs: Map<Seq<char>, (int, int)>,
    es: Seq<ElementModel>,
    fuel: nat,
) -> VarScan
    decreases fuel, es, 1int,
{
    if es.len() == 0 {
        VarScan { ok: true, vars: Set::empty() }
    } else {
        let a = element_vars(docs, msgs, es.first(), fuel);
        if !a.ok {
            a
        } else {
            let b = elements_vars(docs, msgs, es.drop_first(), fuel);
            VarScan { ok: b.ok, vars: a.vars.union(b.vars) }
        }
    }
}

pub open spec fn element_vars(
    docs: Seq<Rc<DocumentModel>>,
    msgs: Map<Seq<char>, (int, int)>,
    e: ElementModel,
    fuel: nat,
) -> VarScan
    decreases fuel, e, 1int,
{
    match e {
        ElementModel::Text => VarScan { ok: true, vars: Set::empty() },
        ElementModel::Placeable(x) => expr_vars(docs, msgs, x, fuel),
    }
}

pub open spec fn expr_vars(
    docs: Seq<Rc<DocumentModel>>,
    msgs: Map<Seq<char>, (int, int)>,
    x: ExpressionModel,
    fuel: nat,
) -> VarScan
    decreases fuel, x, 1int,
{
    match x {
        ExpressionModel::Select { selector, variants } => {
            let a = inline_vars(docs, msgs, selector, fuel);
            if !a.ok {
                a
            } else {
                let b = patterns_vars(docs, msgs, variants@, fuel);
                VarScan { ok: b.ok, vars: a.vars.union(b.vars) }
            }
        },
        ExpressionModel::Inline(i) => inline_vars(docs, msgs, i, fuel),
    }
}

pub open spec fn patterns_vars(
    docs: Seq<Rc<DocumentModel>>,
    msgs: Map<Seq<char>, (int, int)>,
    ps: Seq<PatternModel>,
    fuel: nat,
) -> VarScan
    decreases fuel, ps, 1int,
{
    if ps.len() == 0 {
        VarScan { ok: true, vars: Set::empty() }
    } else {
        let a = pattern_vars(docs, msgs, ps.first(), fuel);
        if !a.ok {
            a
        } else {
            let b = patterns_vars(docs, msgs, ps.drop_first(), fuel);
            VarScan { ok: b.ok, vars: a.vars.union(b.vars) }
        }
    }
}

pub open spec fn inline_vars(
    docs: Seq<Rc<DocumentModel>>,
    msgs: Map<Seq<char>, (int, int)>,
    i: InlineModel,
    fuel: nat,
) -> VarScan
    decreases fuel, i, 1int,
{
    match i {
        InlineModel::VariableReference { id } => VarScan { ok: true, vars: Set::empty().insert(id@) },
        InlineModel::FunctionReference { arguments, .. } => callargs_vars(
            docs,
            msgs,
            arguments,
            fuel,
        ),
        InlineModel::MessageReference { id, attribute } => {
            if fuel == 0 {
                VarScan { ok: false, vars: Set::empty() }
            } else {
                match resolve(docs, msgs, id@, match attribute {
                    Some(a) => Some(a@),
                    None => None,
                }) {
                    Resolution::Found(p) => pattern_vars(docs, msgs, p, (fuel - 1) as nat),
                    _ => VarScan { ok: false, vars: Set::empty() },
                }
            }
        },
        InlineModel::Placeable(b) => expr_vars(docs, msgs, *b, fuel),
        _ => VarScan { ok: true, vars: Set::empty() },
    }
}

pub open spec fn callargs_vars(
    docs: Seq<Rc<DocumentModel>>,
    msgs: Map<Seq<char>, (int, int)>,
    c: CallArgsModel,
    fuel: nat,
) -> VarScan
    decreases fuel, c, 1int,
{
    let a = inlines_vars(docs, msgs, c.positional@, fuel);
    if !a.ok {
        a
    } else {
        let b = named_vars(docs, msgs, c.named@, fuel);
        VarScan { ok: b.ok, vars: a.vars.union(b.vars) }
    }
}

pub open spec fn inlines_vars(
    docs: Seq<Rc<DocumentModel>>,
    msgs: Map<Seq<char>, (int, int)>,
    is: Seq<InlineModel>,
    fuel: nat,
) -> VarScan
    decreases fuel, is, 1int,
{
    if is.len() == 0 {
        VarScan { ok: true, vars: Set::empty() }
    } else {
        let a = inline_vars(docs, msgs, is.first(), fuel);
        if !a.ok {
            a
        } else {
            let b = inlines_vars(docs, msgs, is.drop_first(), fuel);
            VarScan { ok: b.ok, vars: a.vars.union(b.vars) }
        }
    }
}

pub open spec fn named_vars(
    docs: Seq<Rc<DocumentModel>>,
    msgs: Map<Seq<char>, (int, int)>,
    ns: Seq<crate::ast::NamedArgModel>,
    fuel: nat,
) -> VarScan
    decreases fuel, ns, 1int,
{
    if ns.len() == 0 {
        VarScan { ok: true, vars: Set::empty() }
    } else {
        let a = inline_vars(docs, msgs, ns.first().value, fuel);
        if !a.ok {
            a
        } else {
            let b = named_vars(docs, msgs, ns.drop_first(), fuel);
            VarScan { ok: b.ok, vars: a.vars.union(b.vars) }
        }
    }
}

/// How many reference targets a document offers: one per message value
/// slot plus one per attribute.  A bound on the depth of any acyclic
/// reference chain.
pub open spec fn entry_slots(e: EntryModel) -> int {
    match e {
        EntryModel::Message { attributes, .. } => 1 + attributes@.len() as int,
        _ => 0,
    }
}

pub open spec fn entries_slots(es: Seq<EntryModel>) -> int
    decreases es.len(),
{
    if es.len() == 0 {
        0
    } else {
        entries_slots(es.drop_last()) + entry_slots(es.last())
    }
}

pub open spec fn docs_slots(docs: Seq<Rc<DocumentModel>>) -> int
    decreases docs.len(),
{
    if docs.len() == 0 {
        0
    } else {
        docs_slots(docs.drop_last()) + entries_slots(docs.last().entries@)
    }
}

/// The fuel a variable scan starts with: enough for any acyclic reference
/// chain through the documents, capped at the machine word.
pub open spec fn scan_fuel(docs: Seq<Rc<DocumentModel>>) -> nat {
    if docs_slots(docs) + 1 <= usize::MAX {
        (docs_slots(docs) + 1) as nat
    } else {
        usize::MAX as nat
    }
}

proof fn lemma_entries_slots_nonneg(es: Seq<EntryModel>)
    ensures
        entries_slots(es) >= 0,
    decreases es.len(),
{
    if es.len() > 0 {
        lemma_entries_slots_nonneg(es.drop_last());
    }
}

proof fn lemma_docs_slots_nonneg(docs: Seq<Rc<DocumentModel>>)
    ensures
        docs_slots(docs) >= 0,
    decreases docs.len(),
{
    if docs.len() > 0 {
        lemma_docs_slots_nonneg(docs.drop_last());
        lemma_entries_slots_nonneg(docs.last().entries@);
    }
}

/// A structural failure of a key lookup.
pub enum LookupFailure {
    NoMessage,
    NoAttribute,
    NoValue,
}

/// One compiled bundle: the engine's store for formatting, and the layered
/// message index for every structural question.
pub struct L10nBundle {
    locales: Vec<Locale>,
    docs: Vec<Rc<DocumentModel>>,
    entries: Vec<(String, usize, usize)>,
    sources: Vec<String>,
    isolating: bool,
    fl: EngineBundle,
}

impl L10nBundle {
    /// Structural soundness of a bundle: a non-empty locale chain, and a
    /// message index that matches the layered documents.  Every bundle the
    /// library builds satisfies it.
    pub closed spec fn wf(&self) -> bool {
        &&& self.locales@.len() >= 1
        &&& assoc_index(self.entries@) == layered(self.docs@)
        &&& index_wf(self.docs@, layered(self.docs@))
        &&& self.sources@.len() == self.docs@.len()
    }

    /// The documents layered into the bundle, lowest precedence first.
    pub closed spec fn spec_docs(&self) -> Seq<Rc<DocumentModel>> {
        self.docs@
    }

    /// The message index: each message id maps to the document and entry
    /// that finally defines it after layering.
    pub open spec fn messages(&self) -> Map<Seq<char>, (int, int)> {
        layered(self.spec_docs())
    }

    /// The locale chain the bundle was built for, queried locale first.
    pub closed spec fn spec_locales(&self) -> Seq<Seq<char>> {
        self.locales@.map_values(|l: Locale| l@)
    }

    /// The source texts layered into the bundle, in layering order; with
    /// the locale chain and the isolation flag they determine the engine's
    /// store exactly.
    pub closed spec fn spec_sources(&self) -> Seq<Seq<char>> {
        self.sources@.map_values(|s: String| s@)
    }

    /// Whether the engine attaches directionality isolation marks for this
    /// bundle.
    pub closed spec fn spec_isolating(&self) -> bool {
        self.isolating
    }

    /// A fresh bundle for a locale chain, holding no documents.
    pub fn new(locales: Vec<Locale>) -> (r: Self)
        requires
            locales@.len() >= 1,
        ensures
            r.wf(),
            r.spec_docs() == Seq::<Rc<DocumentModel>>::empty(),
            r.spec_sources() == Seq::<Seq<char>>::empty(),
            r.spec_locales() == locales@.map_values(|l: Locale| l@),
            r.spec_isolating(),
    {
        let n = locales.len();
        let mut ids: Vec<unic_langid::LanguageIdentifier> = Vec::new();
        let mut i: usize = 0;
        while i < n
            invariant
                i <= n,
                n == locales.len(),
            decreases n - i,
        {
            ids.push(crate::langid::to_language_identifier(locales[i].tag()));
            i += 1;
        }
        let fl = new_engine_bundle(ids);
        let r = L10nBundle {
            locales,
            docs: Vec::new(),
            entries: Vec::new(),
            sources: Vec::new(),
            isolating: true,
            fl,
        };
        proof {
            assert(r.docs@ =~= Seq::<Rc<DocumentModel>>::empty());
            assert(r.sources@.map_values(|s: String| s@) =~= Seq::<Seq<char>>::empty());
            assert(assoc_index(r.entries@) =~= layered(r.docs@));
        }
        r
    }

    /// The queried locale of the bundle: the first of its chain.
    pub fn locale(&self) -> (r: &Locale)
        requires
            self.wf(),
        ensures
            r@ == self.spec_locales()[0],
    {
        &self.locales[0]
    }

    /// Switches the engine's directionality isolation on or off for this
    /// bundle; the layered content is untouched.
    pub fn set_use_isolating(&mut self, value: bool)
        requires
            old(self).wf(),
        ensures
            final (self).wf(),
            final (self).spec_docs() == old(self).spec_docs(),
            final (self).spec_sources() == old(self).spec_sources(),
            final (self).spec_locales() == old(self).spec_locales(),
            final (self).spec_isolating() == value,
    {
        engine_set_use_isolating(&mut self.fl, value);
        self.isolating = value;
    }

    /// Layers one parsed document on top of the bundle: its messages
    /// override same-named messages of earlier layers, in the engine's
    /// store and in the index alike.
    #[verifier::loop_isolation(false)]
    fn add_parts(
        &mut self,
        source: &str,
        resource: fluent_bundle::FluentResource,
        doc: Rc<DocumentModel>,
    )
        requires
            old(self).wf(),
        ensures
            final (self).wf(),
            final (self).spec_docs() == old(self).spec_docs().push(doc),
            final (self).spec_sources() == old(self).spec_sources().push(source@),
            final (self).spec_locales() == old(self).spec_locales(),
            final (self).spec_isolating() == old(self).spec_isolating(),
    {
        engine_add_resource(&mut self.fl, resource);
        self.sources.push(source.to_owned());
        proof {
            assert(self.sources@.map_values(|s: String| s@) =~= old(self).sources@.map_values(
                |s: String| s@,
            ).push(source@));
        }
        let es = &mut self.entries;
        let ds = &mut self.docs;
        let d = ds.len();
        let ghost startmap = assoc_index(es@);
        let n = doc.entries.len();
        let mut j: usize = 0;
        while j < n
            invariant
                j <= n,
                n == doc.entries@.len(),
                assoc_index(es@) == layer_entries(startmap, doc.entries@.take(j as int), d as int),
            decreases n - j,
        {
            proof {
                assert(doc.entries@.take(j as int + 1).drop_last() =~= doc.entries@.take(
                    j as int,
                ));
            }
            let ghost snap = es@;
            match &doc.entries[j] {
                EntryModel::Message { id, .. } => {
                    es.push((id.clone(), d, j));
                    proof {
                        assert(es@.drop_last() =~= snap);
                    }
                },
                _ => {},
            }
            j += 1;
        }
        ds.push(doc);
        proof {
            assert(doc.entries@.take(n as int) =~= doc.entries@);
            assert(self.docs@.drop_last() =~= old(self).docs@);
            assert(self.docs@.last() == doc);
            assert(assoc_index(self.entries@) == layered(self.docs@));
            lemma_index_wf_push(old(self).docs@, layered(old(self).docs@), doc);
            lemma_layer_entries_wf(self.docs@, layered(old(self).docs@), doc.entries@, d as int);
            assert(index_wf(self.docs@, layered(self.docs@)));
        }
    }

    /// Layers a document whose model is already known; the source is the
    /// text the model was taken from.
    pub fn add_doc(&mut self, source: &str, doc: Rc<DocumentModel>)
        requires
            old(self).wf(),
        ensures
            final (self).wf(),
            final (self).spec_docs() == old(self).spec_docs().push(doc),
            final (self).spec_sources() == old(self).spec_sources().push(source@),
            final (self).spec_locales() == old(self).spec_locales(),
            final (self).spec_isolating() == old(self).spec_isolating(),
    {
        let parsed = parse_fluent(source);
        self.add_parts(source, parsed.resource, doc);
    }

    /// Parses a source text, layers it, and reports its syntax errors.
    pub fn add_source(&mut self, source: &str) -> (errs: Vec<String>)
        requires
            old(self).wf(),
        ensures
            final (self).wf(),
            final (self).spec_docs().len() == old(self).spec_docs().len() + 1,
            final (self).spec_docs().drop_last() == old(self).spec_docs(),
            final (self).spec_sources() == old(self).spec_sources().push(source@),
            final (self).spec_locales() == old(self).spec_locales(),
            final (self).spec_isolating() == old(self).spec_isolating(),
            errs@.map_values(|e: String| e@) == crate::fluent::fluent_parse_errors(source@),
    {
        let parsed = parse_fluent(source);
        let doc = Rc::new(model_resource(&parsed.resource));
        self.add_parts(source, parsed.resource, doc);
        proof {
            assert(final (self).spec_docs().drop_last() =~= old(self).spec_docs());
        }
        parsed.errors
    }
}

/// One bundle's scan of a key: resolve the key, then collect the
/// variables of the resolved pattern with the bundle's fuel.
pub open spec fn bundle_scan(b: L10nBundle, id: Seq<char>, attr: Option<Seq<char>>) -> VarScan {
    match resolve(b.spec_docs(), b.messages(), id, attr) {
        Resolution::Found(p) => pattern_vars(
            b.spec_docs(),
            b.messages(),
            p,
            scan_fuel(b.spec_docs()),
        ),
        _ => VarScan { ok: false, vars: Set::empty() },
    }
}

impl L10nBundle {
    /// Relies on `FluentBundle::get_message` and `FluentBundle::format_pattern`:
    /// looks the queried pattern up in the engine's store and formats it.
    /// The store holds exactly the layered sources under the locale chain
    /// and isolation flag this bundle records, so the outcome is the
    /// engine's deterministic result for those values and the query.
    #[verifier::external_body]
    pub(crate) fn format(
        &self,
        id: &str,
        attribute: Option<&String>,
        args: Option<&crate::args::TranslationArgs>,
    ) -> (r: Result<String, Vec<String>>)
        ensures
            ({
                let out = format_outcome(
                    self.spec_sources(),
                    self.spec_locales(),
                    self.spec_isolating(),
                    id@,
                    match attribute {
                        Some(a) => Some(a@),
                        None => None,
                    },
                    match args {
                        Some(a) => a@,
                        None => Map::empty(),
                    },
                );
                match r {
                    Ok(s) => out matches Ok(t) && s@ == t,
                    Err(v) => out matches Err(es) && v@.map_values(|x: String| x@) == es,
                }
            }),
    {
        crate::fluent::engine_format(&self.fl, id, attribute, &crate::fluent::engine_args(args))
    }

    /// The scan fuel for this bundle's documents, computed with saturation
    /// so that it always fits the machine word.
    #[verifier::loop_isolation(false)]
    pub fn scan_fuel_exec(&self) -> (r: usize)
        ensures
            r as nat == scan_fuel(self.spec_docs()),
    {
        let ghost docs = self.spec_docs();
        let mut acc: usize = 1;
        let n = self.docs.len();
        let mut i: usize = 0;
        proof {
            assert(docs.take(0) =~= Seq::<Rc<DocumentModel>>::empty());
        }
        while i < n
            invariant
                i <= n,
                n == docs.len(),
                acc as int == cap_word(1 + docs_slots(docs.take(i as int))),
            decreases n - i,
        {
            proof {
                assert(docs.take(i as int + 1).drop_last() =~= docs.take(i as int));
                lemma_docs_slots_nonneg(docs.take(i as int));
            }
            let doc = &self.docs[i];
            let m = doc.entries.len();
            let mut j: usize = 0;
            proof {
                assert(doc.entries@.take(0) =~= Seq::<EntryModel>::empty());
            }
            while j < m
                invariant
                    j <= m,
                    m == doc.entries@.len(),
                    i < n,
                    acc as int == cap_word(
                        1 + docs_slots(docs.take(i as int)) + entries_slots(
                            doc.entries@.take(j as int),
                        ),
                    ),
                decreases m - j,
            {
                proof {
                    assert(doc.entries@.take(j as int + 1).drop_last() =~= doc.entries@.take(
                        j as int,
                    ));
                    lemma_docs_slots_nonneg(docs.take(i as int));
                    lemma_entries_slots_nonneg(doc.entries@.take(j as int));
                }
                let x: usize = match &doc.entries[j] {
                    EntryModel::Message { attributes, .. } => {
                        if attributes.len() == usize::MAX {
                            usize::MAX
                        } else {
                            attributes.len() + 1
                        }
                    },
                    _ => 0,
                };
                acc = if x > usize::MAX - acc {
                    usize::MAX
                } else {
                    acc + x
                };
                j += 1;
            }
            proof {
                assert(doc.entries@.take(m as int) =~= doc.entries@);
                assert(docs.take(i as int + 1).last() == docs[i as int]);
            }
            i += 1;
        }
        proof {
            assert(docs.take(n as int) =~= docs);
        }
        acc
    }
}

/// An integer capped at the machine word.
pub open spec fn cap_word(x: int) -> int {
    if x <= usize::MAX {
        x
    } else {
        usize::MAX as int
    }
}

/// The engine's formatting outcome for one query against a store built
/// from the given layered sources, locale chain and isolation flag: the
/// formatted text, or the descriptions of the interpolation problems.
/// The store is constructed deterministically from exactly these values,
/// and the engine keeps no other state, so the outcome is a function of
/// them and the query alone.
pub uninterp spec fn format_outcome(
    sources: Seq<Seq<char>>,
    locales: Seq<Seq<char>>,
    isolating: bool,
    id: Seq<char>,
    attribute: Option<Seq<char>>,
    args: Map<Seq<char>, Seq<char>>,
) -> Result<Seq<char>, Seq<Seq<char>>>;

/// A failed reference seen during a variable scan, with the names that
/// failed.
pub enum ScanError {
    NoMessage { id: String },
    NoAttribute { id: String, attribute: String },
    NoValue { id: String },
    /// The scan ran out of fuel: the reference chain is longer than the
    /// documents could support, so it must revisit a message.
    Cyclic { id: String },
}

proof fn lemma_find_attr_at(ats: Seq<AttributeModel>, name: Seq<char>, i: int)
    requires
        0 <= i < ats.len(),
        ats[i].id@ == name,
        forall|k: int| 0 <= k < i ==> (#[trigger] ats[k]).id@ != name,
    ensures
        find_attr(ats, name) == Some(ats[i].value),
    decreases i,
{
    if i > 0 {
        assert(forall|k: int|
            0 <= k < ats.len() - 1 ==> (#[trigger] ats.drop_first()[k]) == ats[k + 1]);
        lemma_find_attr_at(ats.drop_first(), name, i - 1);
    }
}

proof fn lemma_find_attr_absent(ats: Seq<AttributeModel>, name: Seq<char>)
    requires
        forall|k: int| 0 <= k < ats.len() ==> (#[trigger] ats[k]).id@ != name,
    ensures
        find_attr(ats, name) is None,
    decreases ats.len(),
{
    if ats.len() > 0 {
        assert(forall|k: int|
            0 <= k < ats.len() - 1 ==> (#[trigger] ats.drop_first()[k]) == ats[k + 1]);
        lemma_find_attr_absent(ats.drop_first(), name);
    }
}

impl L10nBundle {
    /// The index entry that finally defines the message, where one does.
    #[verifier::loop_isolation(false)]
    fn find_message(&self, id: &str) -> (r: Option<(usize, usize)>)
        requires
            self.wf(),
        ensures
            match r {
                Some(loc) => self.messages().contains_key(id@) && self.messages()[id@] == (
                    loc.0 as int,
                    loc.1 as int,
                ),
                None => !self.messages().contains_key(id@),
            },
    {
        let n = self.entries.len();
        let mut i: usize = n;
        while i > 0
            invariant
                i <= n,
                n == self.entries@.len(),
                forall|k: int| i <= k < n ==> (#[trigger] self.entries@[k]).0@ != id@,
            decreases i,
        {
            i -= 1;
            if crate::utils::str_eq(self.entries[i].0.as_str(), id) {
                proof {
                    lemma_assoc_found(self.entries@, id@, i as int);
                }
                return Some((self.entries[i].1, self.entries[i].2));
            }
        }
        proof {
            lemma_assoc_absent(self.entries@, id@);
        }
        None
    }

    /// The pattern a key resolves to: the message's attribute where one is
    /// named, its default value otherwise; each structural failure is
    /// reported as its own kind.
    #[verifier::loop_isolation(false)]
    pub fn get_pattern<'a>(&'a self, id: &str, attr: &Option<String>) -> (r: Result<
        &'a PatternModel,
        LookupFailure,
    >)
        requires
            self.wf(),
        ensures
            ({
                let res = resolve(self.spec_docs(), self.messages(), id@, match attr {
                    Some(a) => Some(a@),
                    None => None,
                });
                match r {
                    Ok(p) => res == Resolution::Found(*p),
                    Err(LookupFailure::NoMessage) => res is NoMessage,
                    Err(LookupFailure::NoAttribute) => res is NoAttribute,
                    Err(LookupFailure::NoValue) => res is NoValue,
                }
            }),
    {
        let loc = match self.find_message(id) {
            None => {
                return Err(LookupFailure::NoMessage);
            },
            Some(loc) => loc,
        };
        proof {
            assert(loc_wf(self.spec_docs(), id@, self.messages()[id@]));
        }
        let doc = &self.docs[loc.0];
        match &doc.entries[loc.1] {
            EntryModel::Message { value, attributes, .. } => {
                match attr {
                    Some(a) => {
                        let n = attributes.len();
                        let mut k: usize = 0;
                        while k < n
                            invariant
                                k <= n,
                                forall|x: int|
                                    0 <= x < k ==> (#[trigger] attributes@[x]).id@ != a@,
                            decreases n - k,
                        {
                            if crate::utils::str_eq(attributes[k].id.as_str(), a.as_str()) {
                                proof {
                                    lemma_find_attr_at(attributes@, a@, k as int);
                                }
                                return Ok(&attributes[k].value);
                            }
                            k += 1;
                        }
                        proof {
                            lemma_find_attr_absent(attributes@, a@);
                        }
                        Err(LookupFailure::NoAttribute)
                    },
                    None => match value {
                        Some(p) => Ok(p),
                        None => Err(LookupFailure::NoValue),
                    },
                }
            },
            _ => {
                proof {
                    assert(false);
                }
                Err(LookupFailure::NoMessage)
            },
        }
    }

    /// Collects the variables the pattern needs, resolving message
    /// references within this bundle, spending one unit of fuel per
    /// reference.
    #[verifier::loop_isolation(false)]
    pub(crate) fn scan_pattern_vars(
        &self,
        p: &PatternModel,
        fuel: usize,
        out: &mut Vec<String>,
    ) -> (r: Result<(), ScanError>)
        requires
            self.wf(),
            old(out)@.map_values(|x: String| x@).no_duplicates(),
        ensures
            r is Ok <==> pattern_vars(self.spec_docs(), self.messages(), *p, fuel as nat).ok,
            r is Ok ==> strs_set(final (out)@) == strs_set(old(out)@).union(
                pattern_vars(self.spec_docs(), self.messages(), *p, fuel as nat).vars,
            ),
            final (out)@.map_values(|x: String| x@).no_duplicates(),
        decreases fuel, *p,
    {
        let ghost docs = self.spec_docs();
        let ghost msgs = self.messages();
        let ghost full = elements_vars(docs, msgs, p.elements@, fuel as nat);
        let ghost base = strs_set(out@);
        let ghost mut acc: Set<Seq<char>> = Set::empty();
        let n = p.elements.len();
        let mut j: usize = 0;
        proof {
            assert(p.elements@.skip(0) =~= p.elements@);
            assert(base.union(acc) =~= base);
        }
        while j < n
            invariant
                j <= n,
                n == p.elements@.len(),
                out@.map_values(|x: String| x@).no_duplicates(),
                strs_set(out@) == base.union(acc),
                ({
                    let rest = elements_vars(docs, msgs, p.elements@.skip(j as int), fuel as nat);
                    &&& full.ok == rest.ok
                    &&& (rest.ok ==> full.vars == acc.union(rest.vars))
                }),
            decreases n - j,
        {
            proof {
                assert(p.elements@.skip(j as int).first() == p.elements@[j as int]);
                assert(p.elements@.skip(j as int).drop_first() =~= p.elements@.skip(j as int + 1));
            }
            let ghost before = strs_set(out@);
            match self.scan_element_vars(&p.elements[j], fuel, out) {
                Ok(()) => {},
                Err(e) => {
                    proof {
                        assert(!full.ok);
                    }
                    return Err(e);
                },
            }
            proof {
                let ev = element_vars(docs, msgs, p.elements@[j as int], fuel as nat);
                let rest2 = elements_vars(docs, msgs, p.elements@.skip(j as int + 1), fuel as nat);
                let acc_old = acc;
                acc = acc.union(ev.vars);
                assert(base.union(acc_old).union(ev.vars) =~= base.union(acc));
                if rest2.ok {
                    assert(acc_old.union(ev.vars.union(rest2.vars)) =~= acc.union(rest2.vars));
                }
            }
            j += 1;
        }
        proof {
            assert(p.elements@.skip(n as int) =~= Seq::<ElementModel>::empty());
            assert(full.vars =~= acc);
            assert(strs_set(out@) == base.union(full.vars));
        }
        Ok(())
    }

    fn scan_element_vars(&self, e: &ElementModel, fuel: usize, out: &mut Vec<String>) -> (r: Result<
        (),
        ScanError,
    >)
        requires
            self.wf(),
            old(out)@.map_values(|x: String| x@).no_duplicates(),
        ensures
            r is Ok <==> element_vars(self.spec_docs(), self.messages(), *e, fuel as nat).ok,
            r is Ok ==> strs_set(final (out)@) == strs_set(old(out)@).union(
                element_vars(self.spec_docs(), self.messages(), *e, fuel as nat).vars,
            ),
            final (out)@.map_values(|x: String| x@).no_duplicates(),
        decreases fuel, *e,
    {
        match e {
            ElementModel::Text => {
                proof {
                    assert(strs_set(out@) =~= strs_set(out@).union(Set::empty()));
                }
                Ok(())
            },
            ElementModel::Placeable(x) => self.scan_expression_vars(x, fuel, out),
        }
    }

    #[verifier::loop_isolation(false)]
    fn scan_expression_vars(
        &self,
        x: &ExpressionModel,
        fuel: usize,
        out: &mut Vec<String>,
    ) -> (r: Result<(), ScanError>)
        requires
            self.wf(),
            old(out)@.map_values(|x2: String| x2@).no_duplicates(),
        ensures
            r is Ok <==> expr_vars(self.spec_docs(), self.messages(), *x, fuel as nat).ok,
            r is Ok ==> strs_set(final (out)@) == strs_set(old(out)@).union(
                expr_vars(self.spec_docs(), self.messages(), *x, fuel as nat).vars,
            ),
            final (out)@.map_values(|x2: String| x2@).no_duplicates(),
        decreases fuel, *x,
    {
        let ghost docs = self.spec_docs();
        let ghost msgs = self.messages();
        match x {
            ExpressionModel::Select { selector, variants } => {
                let ghost base = strs_set(out@);
                match self.scan_inline_vars(selector, fuel, out) {
                    Ok(()) => {},
                    Err(e) => {
                        return Err(e);
                    },
                }
                let ghost sv = inline_vars(docs, msgs, *selector, fuel as nat);
                let ghost full = patterns_vars(docs, msgs, variants@, fuel as nat);
                let ghost mid = strs_set(out@);
                let ghost mut acc: Set<Seq<char>> = Set::empty();
                let n = variants.len();
                let mut j: usize = 0;
                proof {
                    assert(variants@.skip(0) =~= variants@);
                    assert(mid.union(acc) =~= mid);
                }
                while j < n
                    invariant
                        j <= n,
                        n == variants@.len(),
                        out@.map_values(|x2: String| x2@).no_duplicates(),
                        strs_set(out@) == mid.union(acc),
                        ({
                            let rest = patterns_vars(docs, msgs, variants@.skip(j as int), fuel as nat);
                            &&& full.ok == rest.ok
                            &&& (rest.ok ==> full.vars == acc.union(rest.vars))
                        }),
                    decreases n - j,
                {
                    proof {
                        assert(variants@.skip(j as int).first() == variants@[j as int]);
                        assert(variants@.skip(j as int).drop_first() =~= variants@.skip(
                            j as int + 1,
                        ));
                    }
                    match self.scan_pattern_vars(&variants[j], fuel, out) {
                        Ok(()) => {},
                        Err(e) => {
                            proof {
                                assert(!full.ok);
                            }
                            return Err(e);
                        },
                    }
                    proof {
                        let pv = pattern_vars(docs, msgs, variants@[j as int], fuel as nat);
                        let rest2 = patterns_vars(docs, msgs, variants@.skip(j as int + 1), fuel as nat);
                        let acc_old = acc;
                        acc = acc.union(pv.vars);
                        assert(mid.union(acc_old).union(pv.vars) =~= mid.union(acc));
                        if rest2.ok {
                            assert(acc_old.union(pv.vars.union(rest2.vars)) =~= acc.union(
                                rest2.vars,
                            ));
                        }
                    }
                    j += 1;
                }
                proof {
                    assert(variants@.skip(n as int) =~= Seq::<PatternModel>::empty());
                    assert(full.vars =~= acc);
                    assert(base.union(sv.vars).union(full.vars) =~= base.union(
                        sv.vars.union(full.vars),
                    ));
                }
                Ok(())
            },
            ExpressionModel::Inline(i) => self.scan_inline_vars(i, fuel, out),
        }
    }

    fn scan_inline_vars(&self, i: &InlineModel, fuel: usize, out: &mut Vec<String>) -> (r: Result<
        (),
        ScanError,
    >)
        requires
            self.wf(),
            old(out)@.map_values(|x: String| x@).no_duplicates(),
        ensures
            r is Ok <==> inline_vars(self.spec_docs(), self.messages(), *i, fuel as nat).ok,
            r is Ok ==> strs_set(final (out)@) == strs_set(old(out)@).union(
                inline_vars(self.spec_docs(), self.messages(), *i, fuel as nat).vars,
            ),
            final (out)@.map_values(|x: String| x@).no_duplicates(),
        decreases fuel, *i,
    {
        let ghost docs = self.spec_docs();
        let ghost msgs = self.messages();
        match i {
            InlineModel::VariableReference { id } => {
                push_unique_str(out, id.as_str());
                Ok(())
            },
            InlineModel::FunctionReference { arguments, .. } => self.scan_callargs_vars(
                arguments,
                fuel,
                out,
            ),
            InlineModel::MessageReference { id, attribute } => {
                if fuel == 0 {
                    return Err(ScanError::Cyclic { id: id.clone() });
                }
                match self.get_pattern(id.as_str(), attribute) {
                    Ok(p) => self.scan_pattern_vars(p, fuel - 1, out),
                    Err(LookupFailure::NoMessage) => Err(ScanError::NoMessage { id: id.clone() }),
                    Err(LookupFailure::NoAttribute) => {
                        let a = match attribute {
                            Some(a) => a.clone(),
                            None => String::new(),
                        };
                        Err(ScanError::NoAttribute { id: id.clone(), attribute: a })
                    },
                    Err(LookupFailure::NoValue) => Err(ScanError::NoValue { id: id.clone() }),
                }
            },
            InlineModel::Placeable(b) => self.scan_expression_vars(b, fuel, out),
            _ => {
                proof {
                    assert(strs_set(out@) =~= strs_set(out@).union(Set::empty()));
                }
                Ok(())
            },
        }
    }

    #[verifier::loop_isolation(false)]
    fn scan_callargs_vars(
        &self,
        c: &CallArgsModel,
        fuel: usize,
        out: &mut Vec<String>,
    ) -> (r: Result<(), ScanError>)
        requires
            self.wf(),
            old(out)@.map_values(|x: String| x@).no_duplicates(),
        ensures
            r is Ok <==> callargs_vars(self.spec_docs(), self.messages(), *c, fuel as nat).ok,
            r is Ok ==> strs_set(final (out)@) == strs_set(old(out)@).union(
                callargs_vars(self.spec_docs(), self.messages(), *c, fuel as nat).vars,
            ),
            final (out)@.map_values(|x: String| x@).no_duplicates(),
        decreases fuel, *c,
    {
        let ghost docs = self.spec_docs();
        let ghost msgs = self.messages();
        let ghost base = strs_set(out@);
        let ghost posfull = inlines_vars(docs, msgs, c.positional@, fuel as nat);
        let ghost mut acc: Set<Seq<char>> = Set::empty();
        let n = c.positional.len();
        let mut j: usize = 0;
        proof {
            assert(c.positional@.skip(0) =~= c.positional@);
            assert(base.union(acc) =~= base);
        }
        while j < n
            invariant
                j <= n,
                n == c.positional@.len(),
                out@.map_values(|x: String| x@).no_duplicates(),
                strs_set(out@) == base.union(acc),
                ({
                    let rest = inlines_vars(docs, msgs, c.positional@.skip(j as int), fuel as nat);
                    &&& posfull.ok == rest.ok
                    &&& (rest.ok ==> posfull.vars == acc.union(rest.vars))
                }),
            decreases n - j,
        {
            proof {
                assert(c.positional@.skip(j as int).first() == c.positional@[j as int]);
                assert(c.positional@.skip(j as int).drop_first() =~= c.positional@.skip(
                    j as int + 1,
                ));
            }
            match self.scan_inline_vars(&c.positional[j], fuel, out) {
                Ok(()) => {},
                Err(e) => {
                    proof {
                        assert(!posfull.ok);
                    }
                    return Err(e);
                },
            }
            proof {
                let iv = inline_vars(docs, msgs, c.positional@[j as int], fuel as nat);
                let rest2 = inlines_vars(docs, msgs, c.positional@.skip(j as int + 1), fuel as nat);
                let acc_old = acc;
                acc = acc.union(iv.vars);
                assert(base.union(acc_old).union(iv.vars) =~= base.union(acc));
                if rest2.ok {
                    assert(acc_old.union(iv.vars.union(rest2.vars)) =~= acc.union(rest2.vars));
                }
            }
            j += 1;
        }
        proof {
            assert(c.positional@.skip(n as int) =~= Seq::<InlineModel>::empty());
            assert(posfull.vars =~= acc);
        }
        let ghost namedfull = named_vars(docs, msgs, c.named@, fuel as nat);
        let ghost mid = strs_set(out@);
        let ghost mut acc2: Set<Seq<char>> = Set::empty();
        let m = c.named.len();
        let mut k: usize = 0;
        proof {
            assert(c.named@.skip(0) =~= c.named@);
            assert(mid.union(acc2) =~= mid);
        }
        while k < m
            invariant
                k <= m,
                m == c.named@.len(),
                out@.map_values(|x: String| x@).no_duplicates(),
                strs_set(out@) == mid.union(acc2),
                ({
                    let rest = named_vars(docs, msgs, c.named@.skip(k as int), fuel as nat);
                    &&& namedfull.ok == rest.ok
                    &&& (rest.ok ==> namedfull.vars == acc2.union(rest.vars))
                }),
            decreases m - k,
        {
            proof {
                assert(c.named@.skip(k as int).first() == c.named@[k as int]);
                assert(c.named@.skip(k as int).drop_first() =~= c.named@.skip(k as int + 1));
            }
            match self.scan_inline_vars(&c.named[k].value, fuel, out) {
                Ok(()) => {},
                Err(e) => {
                    proof {
                        assert(!namedfull.ok);
                    }
                    return Err(e);
                },
            }
            proof {
                let iv = inline_vars(docs, msgs, c.named@[k as int].value, fuel as nat);
                let rest2 = named_vars(docs, msgs, c.named@.skip(k as int + 1), fuel as nat);
                let acc_old = acc2;
                acc2 = acc2.union(iv.vars);
                assert(mid.union(acc_old).union(iv.vars) =~= mid.union(acc2));
                if rest2.ok {
                    assert(acc_old.union(iv.vars.union(rest2.vars)) =~= acc2.union(rest2.vars));
                }
            }
            k += 1;
        }
        proof {
            assert(c.named@.skip(m as int) =~= Seq::<crate::ast::NamedArgModel>::empty());
            assert(namedfull.vars =~= acc2);
            assert(base.union(posfull.vars).union(namedfull.vars) =~= base.union(
                posfull.vars.union(namedfull.vars),
            ));
        }
        Ok(())
    }
}

} // verus!
