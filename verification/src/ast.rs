//! The library's model of a parsed resource document.
//!
//! The engine owns the real syntax tree; the library keeps, for every
//! parsed document, a plain-value model holding exactly what its logic
//! reads: entry names, message values and attributes, and the references
//! inside patterns.  The conversions from the engine's tree are trusted;
//! everything computed over the model is verified.

use vstd::prelude::*;

use fluent_syntax::ast::{
    Attribute, CallArguments, Entry, Expression, InlineExpression, Pattern, PatternElement,
};

verus! {

/// The engine's syntax-tree nodes, declared so the trusted conversions
/// below can take them; the library reads only its own models.
#[verifier::external_type_specification]
#[verifier::external_body]
#[verifier::reject_recursive_types(S)]
pub struct ExEntry<S>(Entry<S>);

#[verifier::external_type_specification]
#[verifier::external_body]
#[verifier::reject_recursive_types(S)]
pub struct ExAttribute<S>(Attribute<S>);

#[verifier::external_type_specification]
#[verifier::external_body]
#[verifier::reject_recursive_types(S)]
pub struct ExPattern<S>(Pattern<S>);

#[verifier::external_type_specification]
#[verifier::external_body]
#[verifier::reject_recursive_types(S)]
pub struct ExPatternElement<S>(PatternElement<S>);

#[verifier::external_type_specification]
#[verifier::external_body]
#[verifier::reject_recursive_types(S)]
pub struct ExExpression<S>(Expression<S>);

#[verifier::external_type_specification]
#[verifier::external_body]
#[verifier::reject_recursive_types(S)]
pub struct ExInlineExpression<S>(InlineExpression<S>);

#[verifier::external_type_specification]
#[verifier::external_body]
#[verifier::reject_recursive_types(S)]
pub struct ExCallArguments<S>(CallArguments<S>);

/// The model of one parsed resource document.
pub struct DocumentModel {
    pub entries: Vec<EntryModel>,
}

/// One entry of a document: a message, a term, or something the library
/// does not read (comments, junk).
pub enum EntryModel {
    Message { id: String, value: Option<PatternModel>, attributes: Vec<AttributeModel> },
    Term { id: String, value: PatternModel, attributes: Vec<AttributeModel> },
    Other,
}

/// A named attribute of a message or term.
pub struct AttributeModel {
    pub id: String,
    pub value: PatternModel,
}

/// A message pattern: text runs and placeables.
pub struct PatternModel {
    pub elements: Vec<ElementModel>,
}

/// One pattern element.
pub enum ElementModel {
    Text,
    Placeable(ExpressionModel),
}

/// A placeable expression: a select expression or an inline expression.
pub enum ExpressionModel {
    Select { selector: InlineModel, variants: Vec<PatternModel> },
    Inline(InlineModel),
}

/// An inline expression, reduced to what the requirement extraction reads.
#[allow(inconsistent_fields)]
pub enum InlineModel {
    Literal,
    FunctionReference { id: String, arguments: CallArgsModel },
    MessageReference { id: String, attribute: Option<String> },
    TermReference { arguments: Option<CallArgsModel> },
    VariableReference { id: String },
    Placeable(Box<ExpressionModel>),
}

/// The arguments of a function or term call.
pub struct CallArgsModel {
    pub positional: Vec<InlineModel>,
    pub named: Vec<NamedArgModel>,
}

/// One named call argument.
pub struct NamedArgModel {
    pub name: String,
    pub value: InlineModel,
}

/// Relies on `FluentResource::entries`: yields the document's entries in
/// order; each is modeled by the entry conversion below.
#[verifier::external_body]
pub(crate) fn model_resource(res: &fluent_bundle::FluentResource) -> DocumentModel {
    DocumentModel { entries: res.entries().map(model_entry).collect() }
}

/// Relies on the `Entry` variants of the engine's syntax tree: messages
/// and terms carry an identifier, an optional (for messages) value
/// pattern, and attributes.
#[verifier::external_body]
fn model_entry(e: &Entry<&str>) -> EntryModel {
    match e {
        Entry::Message(m) => EntryModel::Message {
            id: m.id.name.to_string(),
            value: m.value.as_ref().map(model_pattern),
            attributes: m.attributes.iter().map(model_attribute).collect(),
        },
        Entry::Term(t) => EntryModel::Term {
            id: t.id.name.to_string(),
            value: model_pattern(&t.value),
            attributes: t.attributes.iter().map(model_attribute).collect(),
        },
        _ => EntryModel::Other,
    }
}

/// Relies on the `Attribute` shape: an identifier and a value pattern.
#[verifier::external_body]
fn model_attribute(a: &Attribute<&str>) -> AttributeModel {
    AttributeModel { id: a.id.name.to_string(), value: model_pattern(&a.value) }
}

/// Relies on the `Pattern` shape: a list of elements.
#[verifier::external_body]
fn model_pattern(p: &Pattern<&str>) -> PatternModel {
    PatternModel { elements: p.elements.iter().map(model_element).collect() }
}

/// Relies on the `PatternElement` variants: a text run or a placeable.
#[verifier::external_body]
fn model_element(e: &PatternElement<&str>) -> ElementModel {
    match e {
        PatternElement::TextElement { .. } => ElementModel::Text,
        PatternElement::Placeable { expression } => ElementModel::Placeable(
            model_expression(expression),
        ),
    }
}

/// Relies on the `Expression` variants: a select expression with selector
/// and variants, or an inline expression.
#[verifier::external_body]
fn model_expression(x: &Expression<&str>) -> ExpressionModel {
    match x {
        Expression::Select { selector, variants } => ExpressionModel::Select {
            selector: model_inline(selector),
            variants: variants.iter().map(|v| model_pattern(&v.value)).collect(),
        },
        Expression::Inline(i) => ExpressionModel::Inline(model_inline(i)),
    }
}

/// Relies on the `InlineExpression` variants: literals, function, message,
/// term and variable references, and nested placeables.
#[verifier::external_body]
fn model_inline(i: &InlineExpression<&str>) -> InlineModel {
    match i {
        InlineExpression::StringLiteral { .. } => InlineModel::Literal,
        InlineExpression::NumberLiteral { .. } => InlineModel::Literal,
        InlineExpression::FunctionReference { id, arguments } =>
            InlineModel::FunctionReference { id: id.name.to_string(), arguments: model_call_args(arguments) },
        InlineExpression::MessageReference { id, attribute } =>
            InlineModel::MessageReference { id: id.name.to_string(), attribute: attribute.as_ref().map(|a| a.name.to_string()) },
        InlineExpression::TermReference { arguments, .. } =>
            InlineModel::TermReference { arguments: arguments.as_ref().map(model_call_args) },
        InlineExpression::VariableReference { id } =>
            InlineModel::VariableReference { id: id.name.to_string() },
        InlineExpression::Placeable { expression } =>
            InlineModel::Placeable(Box::new(model_expression(expression))),
    }
}

/// Relies on the `CallArguments` shape: positional and named arguments.
#[verifier::external_body]
fn model_call_args(c: &CallArguments<&str>) -> CallArgsModel {
    CallArgsModel {
        positional: c.positional.iter().map(model_inline).collect(),
        named: c.named.iter().map(
            |n| NamedArgModel { name: n.name.name.to_string(), value: model_inline(&n.value) },
        ).collect(),
    }
}

/// The function names referenced anywhere in a document: every message
/// and term, values and attributes alike.
pub open spec fn doc_funcs(d: DocumentModel) -> Set<Seq<char>> {
    entries_funcs(d.entries@)
}

pub open spec fn entries_funcs(es: Seq<EntryModel>) -> Set<Seq<char>>
    decreases es, 1int, 0int,
{
    if es.len() == 0 {
        Set::empty()
    } else {
        entries_funcs(es.drop_last()).union(entry_funcs(es.last()))
    }
}

pub open spec fn entry_funcs(e: EntryModel) -> Set<Seq<char>>
    decreases e, 1int, 0int,
{
    match e {
        EntryModel::Message { value, attributes, .. } => (match value {
            Some(p) => pattern_funcs(p),
            None => Set::empty(),
        }).union(attrs_funcs(attributes@)),
        EntryModel::Term { value, attributes, .. } => pattern_funcs(value).union(
            attrs_funcs(attributes@),
        ),
        EntryModel::Other => Set::empty(),
    }
}

pub open spec fn attrs_funcs(ats: Seq<AttributeModel>) -> Set<Seq<char>>
    decreases ats, 1int, 0int,
{
    if ats.len() == 0 {
        Set::empty()
    } else {
        attrs_funcs(ats.drop_last()).union(pattern_funcs(ats.last().value))
    }
}

/// The function names referenced by a pattern, select variants included
/// whether or not they would be chosen at runtime.
pub open spec fn pattern_funcs(p: PatternModel) -> Set<Seq<char>>
    decreases p, 1int, 0int,
{
    elements_funcs(p.elements@)
}

pub open spec fn elements_funcs(es: Seq<ElementModel>) -> Set<Seq<char>>
    decreases es, 1int, 0int,
{
    if es.len() == 0 {
        Set::empty()
    } else {
        elements_funcs(es.drop_last()).union(element_funcs(es.last()))
    }
}

pub open spec fn element_funcs(e: ElementModel) -> Set<Seq<char>>
    decreases e, 1int, 0int,
{
    match e {
        ElementModel::Text => Set::empty(),
        ElementModel::Placeable(x) => expr_funcs(x),
    }
}

pub open spec fn expr_funcs(x: ExpressionModel) -> Set<Seq<char>>
    decreases x, 1int, 0int,
{
    match x {
        ExpressionModel::Select { selector, variants } => inline_funcs(selector).union(
            patterns_funcs(variants@),
        ),
        ExpressionModel::Inline(i) => inline_funcs(i),
    }
}

pub open spec fn patterns_funcs(ps: Seq<PatternModel>) -> Set<Seq<char>>
    decreases ps, 1int, 0int,
{
    if ps.len() == 0 {
        Set::empty()
    } else {
        patterns_funcs(ps.drop_last()).union(pattern_funcs(ps.last()))
    }
}

pub open spec fn inline_funcs(i: InlineModel) -> Set<Seq<char>>
    decreases i, 1int, 0int,
{
    match i {
        InlineModel::FunctionReference { id, arguments } => callargs_funcs(arguments).insert(id@),
        InlineModel::TermReference { arguments: Some(a) } => callargs_funcs(a),
        InlineModel::Placeable(b) => expr_funcs(*b),
        _ => Set::empty(),
    }
}

pub open spec fn callargs_funcs(c: CallArgsModel) -> Set<Seq<char>>
    decreases c, 1int, 0int,
{
    inlines_funcs(c.positional@).union(named_funcs(c.named@))
}

pub open spec fn inlines_funcs(is: Seq<InlineModel>) -> Set<Seq<char>>
    decreases is, 1int, 0int,
{
    if is.len() == 0 {
        Set::empty()
    } else {
        inlines_funcs(is.drop_last()).union(inline_funcs(is.last()))
    }
}

pub open spec fn named_funcs(ns: Seq<NamedArgModel>) -> Set<Seq<char>>
    decreases ns, 1int, 0int,
{
    if ns.len() == 0 {
        Set::empty()
    } else {
        named_funcs(ns.drop_last()).union(inline_funcs(ns.last().value))
    }
}

proof fn lemma_union_empty(s: Set<Seq<char>>)
    ensures
        s.union(Set::empty()) == s,
{
    assert(s.union(Set::empty()) =~= s);
}

proof fn lemma_union_assoc(a: Set<Seq<char>>, b: Set<Seq<char>>, c: Set<Seq<char>>)
    ensures
        a.union(b).union(c) == a.union(b.union(c)),
{
    assert(a.union(b).union(c) =~= a.union(b.union(c)));
}

/// Adds the function names referenced in the entry to the collection.
#[verifier::loop_isolation(false)]
pub(crate) fn collect_entry_funcs(e: &EntryModel, out: &mut Vec<String>)
    requires
        old(out)@.map_values(|x: String| x@).no_duplicates(),
    ensures
        crate::utils::strs_set(final (out)@) == crate::utils::strs_set(old(out)@).union(
            entry_funcs(*e),
        ),
        final (out)@.map_values(|x: String| x@).no_duplicates(),
    decreases *e,
{
    let ghost base = crate::utils::strs_set(out@);
    match e {
        EntryModel::Message { value, attributes, .. } => {
            match value {
                Some(p) => {
                    collect_pattern_funcs(p, out);
                },
                None => {
                    proof {
                        lemma_union_empty(base);
                    }
                },
            }
            let ghost mid = crate::utils::strs_set(out@);
            let n = attributes.len();
            let mut i: usize = 0;
            proof {
                lemma_union_empty(mid);
            }
            while i < n
                invariant
                    i <= n,
                    n == attributes.len(),
                    out@.map_values(|x: String| x@).no_duplicates(),
                    crate::utils::strs_set(out@) == mid.union(
                        attrs_funcs(attributes@.take(i as int)),
                    ),
                decreases n - i,
            {
                proof {
                    assert(attributes@.take(i as int + 1).drop_last() =~= attributes@.take(
                        i as int,
                    ));
                }
                collect_pattern_funcs(&attributes[i].value, out);
                proof {
                    lemma_union_assoc(
                        mid,
                        attrs_funcs(attributes@.take(i as int)),
                        pattern_funcs(attributes@[i as int].value),
                    );
                }
                i += 1;
            }
            proof {
                assert(attributes@.take(n as int) =~= attributes@);
                match value {
                    Some(p) => {
                        lemma_union_assoc(base, pattern_funcs(*p), attrs_funcs(attributes@));
                    },
                    None => {
                        assert(base.union(entry_funcs(*e)) =~= mid.union(
                            attrs_funcs(attributes@),
                        ));
                    },
                }
            }
        },
        EntryModel::Term { value, attributes, .. } => {
            collect_pattern_funcs(value, out);
            let ghost mid = crate::utils::strs_set(out@);
            let n = attributes.len();
            let mut i: usize = 0;
            proof {
                lemma_union_empty(mid);
            }
            while i < n
                invariant
                    i <= n,
                    n == attributes.len(),
                    out@.map_values(|x: String| x@).no_duplicates(),
                    crate::utils::strs_set(out@) == mid.union(
                        attrs_funcs(attributes@.take(i as int)),
                    ),
                decreases n - i,
            {
                proof {
                    assert(attributes@.take(i as int + 1).drop_last() =~= attributes@.take(
                        i as int,
                    ));
                }
                collect_pattern_funcs(&attributes[i].value, out);
                proof {
                    lemma_union_assoc(
                        mid,
                        attrs_funcs(attributes@.take(i as int)),
                        pattern_funcs(attributes@[i as int].value),
                    );
                }
                i += 1;
            }
            proof {
                assert(attributes@.take(n as int) =~= attributes@);
                lemma_union_assoc(base, pattern_funcs(*value), attrs_funcs(attributes@));
            }
        },
        EntryModel::Other => {
            proof {
                lemma_union_empty(base);
            }
        },
    }
}

/// Adds the function names referenced in the pattern to the collection.
#[verifier::loop_isolation(false)]
pub(crate) fn collect_pattern_funcs(p: &PatternModel, out: &mut Vec<String>)
    requires
        old(out)@.map_values(|x: String| x@).no_duplicates(),
    ensures
        crate::utils::strs_set(final (out)@) == crate::utils::strs_set(old(out)@).union(
            pattern_funcs(*p),
        ),
        final (out)@.map_values(|x: String| x@).no_duplicates(),
    decreases *p,
{
    let ghost base = crate::utils::strs_set(out@);
    let n = p.elements.len();
    let mut i: usize = 0;
    proof {
        lemma_union_empty(base);
    }
    while i < n
        invariant
            i <= n,
            n == p.elements.len(),
            out@.map_values(|x: String| x@).no_duplicates(),
            crate::utils::strs_set(out@) == base.union(elements_funcs(p.elements@.take(i as int))),
        decreases n - i,
    {
        proof {
            assert(p.elements@.take(i as int + 1).drop_last() =~= p.elements@.take(i as int));
        }
        collect_element_funcs(&p.elements[i], out);
        proof {
            lemma_union_assoc(
                base,
                elements_funcs(p.elements@.take(i as int)),
                element_funcs(p.elements@[i as int]),
            );
        }
        i += 1;
    }
    proof {
        assert(p.elements@.take(n as int) =~= p.elements@);
    }
}

#[verifier::loop_isolation(false)]
fn collect_element_funcs(e: &ElementModel, out: &mut Vec<String>)
    requires
        old(out)@.map_values(|x: String| x@).no_duplicates(),
    ensures
        crate::utils::strs_set(final (out)@) == crate::utils::strs_set(old(out)@).union(
            element_funcs(*e),
        ),
        final (out)@.map_values(|x: String| x@).no_duplicates(),
    decreases *e,
{
    match e {
        ElementModel::Text => {
            proof {
                lemma_union_empty(crate::utils::strs_set(out@));
            }
        },
        ElementModel::Placeable(x) => {
            collect_expression_funcs(x, out);
        },
    }
}

#[verifier::loop_isolation(false)]
fn collect_expression_funcs(x: &ExpressionModel, out: &mut Vec<String>)
    requires
        old(out)@.map_values(|x2: String| x2@).no_duplicates(),
    ensures
        crate::utils::strs_set(final (out)@) == crate::utils::strs_set(old(out)@).union(
            expr_funcs(*x),
        ),
        final (out)@.map_values(|x2: String| x2@).no_duplicates(),
    decreases *x,
{
    let ghost base = crate::utils::strs_set(out@);
    match x {
        ExpressionModel::Select { selector, variants } => {
            collect_inline_funcs(selector, out);
            let ghost mid = crate::utils::strs_set(out@);
            let n = variants.len();
            let mut i: usize = 0;
            proof {
                lemma_union_empty(mid);
            }
            while i < n
                invariant
                    i <= n,
                    n == variants.len(),
                    out@.map_values(|x2: String| x2@).no_duplicates(),
                    crate::utils::strs_set(out@) == mid.union(
                        patterns_funcs(variants@.take(i as int)),
                    ),
                decreases n - i,
            {
                proof {
                    assert(variants@.take(i as int + 1).drop_last() =~= variants@.take(i as int));
                }
                collect_pattern_funcs(&variants[i], out);
                proof {
                    lemma_union_assoc(
                        mid,
                        patterns_funcs(variants@.take(i as int)),
                        pattern_funcs(variants@[i as int]),
                    );
                }
                i += 1;
            }
            proof {
                assert(variants@.take(n as int) =~= variants@);
                lemma_union_assoc(base, inline_funcs(*selector), patterns_funcs(variants@));
            }
        },
        ExpressionModel::Inline(i) => {
            collect_inline_funcs(i, out);
        },
    }
}

#[verifier::loop_isolation(false)]
fn collect_inline_funcs(i: &InlineModel, out: &mut Vec<String>)
    requires
        old(out)@.map_values(|x: String| x@).no_duplicates(),
    ensures
        crate::utils::strs_set(final (out)@) == crate::utils::strs_set(old(out)@).union(
            inline_funcs(*i),
        ),
        final (out)@.map_values(|x: String| x@).no_duplicates(),
    decreases *i,
{
    let ghost base = crate::utils::strs_set(out@);
    match i {
        InlineModel::FunctionReference { id, arguments } => {
            collect_callargs_funcs(arguments, out);
            crate::utils::push_unique_str(out, id.as_str());
            proof {
                assert(base.union(callargs_funcs(*arguments)).insert(id@) =~= base.union(
                    callargs_funcs(*arguments).insert(id@),
                ));
            }
        },
        InlineModel::TermReference { arguments } => {
            match arguments {
                Some(a) => {
                    collect_callargs_funcs(a, out);
                },
                None => {
                    proof {
                        lemma_union_empty(base);
                    }
                },
            }
        },
        InlineModel::Placeable(b) => {
            collect_expression_funcs(b, out);
        },
        _ => {
            proof {
                lemma_union_empty(base);
            }
        },
    }
}

#[verifier::loop_isolation(false)]
fn collect_callargs_funcs(c: &CallArgsModel, out: &mut Vec<String>)
    requires
        old(out)@.map_values(|x: String| x@).no_duplicates(),
    ensures
        crate::utils::strs_set(final (out)@) == crate::utils::strs_set(old(out)@).union(
            callargs_funcs(*c),
        ),
        final (out)@.map_values(|x: String| x@).no_duplicates(),
    decreases *c,
{
    let ghost base = crate::utils::strs_set(out@);
    let n = c.positional.len();
    let mut i: usize = 0;
    proof {
        lemma_union_empty(base);
    }
    while i < n
        invariant
            i <= n,
            n == c.positional.len(),
            out@.map_values(|x: String| x@).no_duplicates(),
            crate::utils::strs_set(out@) == base.union(inlines_funcs(c.positional@.take(i as int))),
        decreases n - i,
    {
        proof {
            assert(c.positional@.take(i as int + 1).drop_last() =~= c.positional@.take(i as int));
        }
        collect_inline_funcs(&c.positional[i], out);
        proof {
            lemma_union_assoc(
                base,
                inlines_funcs(c.positional@.take(i as int)),
                inline_funcs(c.positional@[i as int]),
            );
        }
        i += 1;
    }
    proof {
        assert(c.positional@.take(n as int) =~= c.positional@);
    }
    let ghost mid = crate::utils::strs_set(out@);
    let m = c.named.len();
    let mut j: usize = 0;
    proof {
        lemma_union_empty(mid);
    }
    while j < m
        invariant
            j <= m,
            m == c.named.len(),
            out@.map_values(|x: String| x@).no_duplicates(),
            crate::utils::strs_set(out@) == mid.union(named_funcs(c.named@.take(j as int))),
        decreases m - j,
    {
        proof {
            assert(c.named@.take(j as int + 1).drop_last() =~= c.named@.take(j as int));
        }
        collect_inline_funcs(&c.named[j].value, out);
        proof {
            lemma_union_assoc(
                mid,
                named_funcs(c.named@.take(j as int)),
                inline_funcs(c.named@[j as int].value),
            );
        }
        j += 1;
    }
    proof {
        assert(c.named@.take(m as int) =~= c.named@);
        lemma_union_assoc(base, inlines_funcs(c.positional@), named_funcs(c.named@));
    }
}

/// Relies on `Rc::clone`: hands out another handle to the same document.
#[verifier::external_body]
pub(crate) fn share_doc(d: &std::rc::Rc<DocumentModel>) -> (r: std::rc::Rc<DocumentModel>)
    ensures
        r == *d,
{
    std::rc::Rc::clone(d)
}

} // verus!
