//! The locale fallback graph.
//!
//! A configured set of `(main, fallback)` locale pairs, validated to be
//! non-empty, duplicate-free and cycle-free.  Every query about fallback
//! chains (resolution routes, mandatory locales) is answered from this graph.

use vstd::prelude::*;

use crate::langid::{canonical_tag, canonicalize_tag, strip_region, stripped_tag};

verus! {

/// The mathematical content of one configured entry: a main locale tag and
/// an optional fallback tag.
pub ghost struct LocaleEntryView {
    pub main: Seq<char>,
    pub fallback: Option<Seq<char>>,
}

/// The first configured entry whose main tag is `tag`.
pub open spec fn find_main(entries: Seq<LocaleEntryView>, tag: Seq<char>) -> Option<LocaleEntryView>
    decreases entries.len(),
{
    if entries.len() == 0 {
        None
    } else if entries[0].main == tag {
        Some(entries[0])
    } else {
        find_main(entries.drop_first(), tag)
    }
}

/// Whether `tag` is the main locale of some configured entry.
pub open spec fn is_main(entries: Seq<LocaleEntryView>, tag: Seq<char>) -> bool {
    find_main(entries, tag) is Some
}

/// The fallback step out of `tag`: the fallback of its entry, or `None`
/// where `tag` is not a configured main or its entry has no fallback.
pub open spec fn next_of(entries: Seq<LocaleEntryView>, tag: Seq<char>) -> Option<Seq<char>> {
    match find_main(entries, tag) {
        Some(e) => e.fallback,
        None => None,
    }
}

/// The tag reached from `start` after `n` fallback steps, or `None` where
/// the chain ends earlier.
pub open spec fn chain(entries: Seq<LocaleEntryView>, start: Seq<char>, n: nat) -> Option<Seq<char>>
    decreases n,
{
    if n == 0 {
        Some(start)
    } else {
        match chain(entries, start, (n - 1) as nat) {
            Some(t) => next_of(entries, t),
            None => None,
        }
    }
}

/// The fallback chain out of `start` never revisits a tag.
pub open spec fn no_cycle_from(entries: Seq<LocaleEntryView>, start: Seq<char>) -> bool {
    forall|i: nat, j: nat|
        i < j && #[trigger] chain(entries, start, i) is Some && #[trigger] chain(
            entries,
            start,
            j,
        ) is Some ==> chain(entries, start, i) != chain(entries, start, j)
}

/// No two configured entries share a main locale.
pub open spec fn mains_distinct(entries: Seq<LocaleEntryView>) -> bool {
    forall|i: int, j: int|
        0 <= i < j < entries.len() ==> (#[trigger] entries[i]).main != (#[trigger] entries[j]).main
}

/// The fallback chain out of every configured main locale is cycle-free.
pub open spec fn graph_acyclic(entries: Seq<LocaleEntryView>) -> bool {
    forall|k: int| 0 <= k < entries.len() ==> no_cycle_from(entries, (#[trigger] entries[k]).main)
}

/// The resolution route out of `tag`: the tag itself followed by the chain
/// of fallbacks, cut off after `fuel` steps.
pub open spec fn route(entries: Seq<LocaleEntryView>, tag: Seq<char>, fuel: nat) -> Seq<Seq<char>>
    decreases fuel,
{
    match next_of(entries, tag) {
        None => seq![tag],
        Some(f) => if fuel == 0 {
            seq![tag]
        } else {
            seq![tag] + route(entries, f, (fuel - 1) as nat)
        },
    }
}

/// A witness of a fallback cycle as the validator reports it: a linked walk
/// that starts at a configured main and ends on a tag it already visited.
pub open spec fn cycle_path(entries: Seq<LocaleEntryView>, p: Seq<Seq<char>>) -> bool {
    &&& p.len() >= 2
    &&& is_main(entries, p[0])
    &&& forall|i: int| 0 <= i < p.len() - 1 ==> next_of(entries, #[trigger] p[i]) == Some(p[i + 1])
    &&& exists|i: int| 0 <= i < p.len() - 1 && #[trigger] p[i] == p[p.len() - 1]
}

/// The exact walk the validator carries on a cycle error: it starts at
/// the first configured main, in configuration order, whose fallback
/// chain closes a cycle; it then follows that chain, never repeating,
/// until the first tag reached twice, which ends the walk.  These facts
/// determine the sequence uniquely.
pub open spec fn exact_cycle_witness(entries: Seq<LocaleEntryView>, p: Seq<Seq<char>>) -> bool {
    exists|k0: int|
        {
            &&& 0 <= k0 < entries.len()
            &&& !no_cycle_from(entries, (#[trigger] entries[k0]).main)
            &&& (forall|k: int|
                0 <= k < k0 ==> no_cycle_from(entries, (#[trigger] entries[k]).main))
            &&& p.len() >= 2
            &&& (forall|j: int|
                0 <= j < p.len() ==> Some(#[trigger] p[j]) == chain(
                    entries,
                    entries[k0].main,
                    j as nat,
                ))
            &&& (forall|a: int, b: int| 0 <= a < b < p.len() - 1 ==> p[a] != p[b])
            &&& (exists|a: int| 0 <= a < p.len() - 1 && #[trigger] p[a] == p[p.len() - 1])
        }
}

/// An opaque, comparable locale value: a language tag held in canonical
/// form.  Equality is exact tag equality, not linguistic matching.
#[derive(Eq, Hash, Debug)]
pub struct Locale {
    tag: String,
}

impl View for Locale {
    type V = Seq<char>;

    closed spec fn view(&self) -> Seq<char> {
        self.tag@
    }
}

impl Clone for Locale {
    fn clone(&self) -> (r: Self)
        ensures
            r == *self,
    {
        Locale { tag: self.tag.clone() }
    }
}

impl PartialEq for Locale {
    fn eq(&self, other: &Self) -> (r: bool) {
        self.tag == other.tag
    }
}

impl vstd::std_specs::cmp::PartialEqSpecImpl for Locale {
    open spec fn obeys_eq_spec() -> bool {
        true
    }

    open spec fn eq_spec(&self, other: &Self) -> bool {
        self@ == other@
    }
}

impl Locale {
    /// Parses a language tag; the stored value is the canonical form, so two
    /// spellings of the same tag compare equal.  The error carries the
    /// parser's description.
    pub fn parse(s: &str) -> (r: Result<Locale, String>)
        ensures
            r is Ok <==> canonical_tag(s@) is Some,
            r matches Ok(l) ==> Some(l@) == canonical_tag(s@),
    {
        match canonicalize_tag(s) {
            Ok(tag) => Ok(Locale { tag }),
            Err(err) => Err(err),
        }
    }

    /// The canonical tag.
    pub fn tag(&self) -> (r: &str)
        ensures
            r@ == self@,
    {
        self.tag.as_str()
    }

    /// The tag with its region subtag removed, where it has one.
    pub fn region_free(&self) -> (r: Option<Locale>)
        ensures
            r is Some <==> stripped_tag(self@) is Some,
            r matches Some(l) ==> Some(l@) == stripped_tag(self@) && l@ != self@,
    {
        match strip_region(self.tag.as_str()) {
            Some(tag) => Some(Locale { tag }),
            None => None,
        }
    }
}

/// One configured pair of a main locale and an optional fallback locale.
#[derive(Eq, Hash, Debug)]
pub struct LocaleEntry {
    main: Locale,
    fallback: Option<Locale>,
}

impl View for LocaleEntry {
    type V = LocaleEntryView;

    closed spec fn view(&self) -> LocaleEntryView {
        LocaleEntryView {
            main: self.main@,
            fallback: match self.fallback {
                Some(l) => Some(l@),
                None => None,
            },
        }
    }
}

impl Clone for LocaleEntry {
    fn clone(&self) -> (r: Self)
        ensures
            r@ == self@,
    {
        LocaleEntry {
            main: self.main.clone(),
            fallback: match &self.fallback {
                Some(l) => Some(l.clone()),
                None => None,
            },
        }
    }
}

impl PartialEq for LocaleEntry {
    fn eq(&self, other: &Self) -> (r: bool) {
        self.main == other.main && match (&self.fallback, &other.fallback) {
            (Some(a), Some(b)) => a == b,
            (None, None) => true,
            _ => false,
        }
    }
}

impl vstd::std_specs::cmp::PartialEqSpecImpl for LocaleEntry {
    open spec fn obeys_eq_spec() -> bool {
        true
    }

    open spec fn eq_spec(&self, other: &Self) -> bool {
        self@ == other@
    }
}

impl LocaleEntry {
    pub fn new(main: Locale, fallback: Option<Locale>) -> (r: Self)
        ensures
            r@.main == main@,
            r@.fallback == match fallback {
                Some(l) => Some(l@),
                None => None::<Seq<char>>,
            },
    {
        LocaleEntry { main, fallback }
    }

    /// The main locale of the entry.
    pub fn locale(&self) -> (r: &Locale)
        ensures
            r@ == self@.main,
    {
        &self.main
    }

    /// The fallback locale of the entry, where it has one.
    pub fn fallback(&self) -> (r: &Option<Locale>)
        ensures
            *r is Some <==> self@.fallback is Some,
            *r matches Some(l) ==> self@.fallback == Some(l@),
    {
        &self.fallback
    }
}

/// The tags of a vector of locales.
pub open spec fn tags_of(ls: Seq<Locale>) -> Seq<Seq<char>> {
    ls.map_values(|l: Locale| l@)
}

/// The views of a vector of configured entries.
pub open spec fn entries_of(s: Seq<LocaleEntry>) -> Seq<LocaleEntryView> {
    s.map_values(|e: LocaleEntry| e@)
}

proof fn lemma_find_main_at(entries: Seq<LocaleEntryView>, tag: Seq<char>, i: int)
    requires
        0 <= i < entries.len(),
        entries[i].main == tag,
        forall|k: int| 0 <= k < i ==> (#[trigger] entries[k]).main != tag,
    ensures
        find_main(entries, tag) == Some(entries[i]),
    decreases i,
{
    if i == 0 {
    } else {
        assert(entries.drop_first()[i - 1] == entries[i]);
        assert(forall|k: int|
            0 <= k < i - 1 ==> (#[trigger] entries.drop_first()[k]) == entries[k + 1]);
        lemma_find_main_at(entries.drop_first(), tag, i - 1);
    }
}

proof fn lemma_find_main_absent(entries: Seq<LocaleEntryView>, tag: Seq<char>)
    requires
        forall|k: int| 0 <= k < entries.len() ==> (#[trigger] entries[k]).main != tag,
    ensures
        find_main(entries, tag) is None,
    decreases entries.len(),
{
    if entries.len() > 0 {
        assert(forall|k: int|
            0 <= k < entries.len() - 1 ==> (#[trigger] entries.drop_first()[k]) == entries[k + 1]);
        lemma_find_main_absent(entries.drop_first(), tag);
    }
}

/// In a duplicate-free configuration, every entry is found under its own
/// main locale.
pub proof fn lemma_is_main_at(entries: Seq<LocaleEntryView>, i: int)
    requires
        mains_distinct(entries),
        0 <= i < entries.len(),
    ensures
        is_main(entries, entries[i].main),
        find_main(entries, entries[i].main) == Some(entries[i]),
{
    lemma_find_main_at(entries, entries[i].main, i);
}

proof fn lemma_find_main_tag(entries: Seq<LocaleEntryView>, tag: Seq<char>)
    requires
        find_main(entries, tag) is Some,
    ensures
        find_main(entries, tag)->0.main == tag,
    decreases entries.len(),
{
    if entries.len() > 0 && entries[0].main != tag {
        lemma_find_main_tag(entries.drop_first(), tag);
    }
}

proof fn lemma_exact_cycle_at(entries: Seq<LocaleEntryView>, p: Seq<Seq<char>>, k0: int)
    requires
        0 <= k0 < entries.len(),
        !no_cycle_from(entries, entries[k0].main),
        forall|k: int| 0 <= k < k0 ==> no_cycle_from(entries, (#[trigger] entries[k]).main),
        p.len() >= 2,
        forall|j: int|
            0 <= j < p.len() ==> Some(#[trigger] p[j]) == chain(
                entries,
                entries[k0].main,
                j as nat,
            ),
        forall|a: int, b: int| 0 <= a < b < p.len() - 1 ==> p[a] != p[b],
        exists|a: int| 0 <= a < p.len() - 1 && #[trigger] p[a] == p[p.len() - 1],
    ensures
        exact_cycle_witness(entries, p),
{
    assert((#[trigger] entries[k0]).main == entries[k0].main);
}

proof fn lemma_chain_none_stable(entries: Seq<LocaleEntryView>, start: Seq<char>, m: nat, j: nat)
    requires
        chain(entries, start, m) is None,
        m <= j,
    ensures
        chain(entries, start, j) is None,
    decreases j,
{
    if j > m {
        lemma_chain_none_stable(entries, start, m, (j - 1) as nat);
    }
}

/// The first configured entry whose main locale is `tag`, as an index.
fn find_entry_idx(locales: &Vec<LocaleEntry>, tag: &Locale) -> (r: Option<usize>)
    ensures
        match r {
            Some(i) => i < locales.len() && find_main(entries_of(locales@), tag@) == Some(
                locales[i as int]@,
            ) && locales[i as int]@.main == tag@,
            None => find_main(entries_of(locales@), tag@) is None,
        },
{
    let ghost ev = entries_of(locales@);
    let n = locales.len();
    let mut i: usize = 0;
    while i < n
        invariant
            i <= n,
            n == locales.len(),
            ev == entries_of(locales@),
            forall|k: int| 0 <= k < i ==> (#[trigger] ev[k]).main != tag@,
        decreases n - i,
    {
        if locales[i].main == *tag {
            proof {
                lemma_find_main_at(ev, tag@, i as int);
            }
            return Some(i);
        }
        i += 1;
    }
    proof {
        lemma_find_main_absent(ev, tag@);
    }
    None
}

fn contains_locale(v: &Vec<Locale>, l: &Locale) -> (r: bool)
    ensures
        r == exists|i: int| 0 <= i < v.len() && (#[trigger] v[i])@ == l@,
{
    let n = v.len();
    let mut i: usize = 0;
    while i < n
        invariant
            i <= n,
            n == v.len(),
            forall|k: int| 0 <= k < i ==> (#[trigger] v[k])@ != l@,
        decreases n - i,
    {
        if v[i] == *l {
            return true;
        }
        i += 1;
    }
    false
}

/// A violation of the locale-graph invariants, found at construction.
#[derive(Debug)]
pub enum InvariantError {
    /// The visited walk, ending on the locale that was reached twice.
    InfiniteFallbackLoop(Vec<Locale>),
    /// A main locale configured by two entries.
    MainLocaleDuplicate(Locale),
    /// No entry was configured at all.
    Empty,
}

impl InvariantError {
    /// The diagnostic text of the violation.
    pub fn message(&self) -> (r: String)
        ensures
            r@ == match self {
                InvariantError::InfiniteFallbackLoop(p) => "infinite fallback loop detected: ("@
                    + crate::utils::join_seqs(p@.map_values(|l: Locale| l@), " -> "@) + ")"@,
                InvariantError::MainLocaleDuplicate(l) => "main locale duplicate: "@ + l@,
                InvariantError::Empty => "empty"@,
            },
    {
        match self {
            InvariantError::InfiniteFallbackLoop(p) => {
                let mut out = String::new();
                out.append("infinite fallback loop detected: (");
                let joined = crate::utils::locales_to_string(p, " -> ");
                out.append(joined.as_str());
                out.append(")");
                out
            },
            InvariantError::MainLocaleDuplicate(l) => {
                let mut out = String::new();
                out.append("main locale duplicate: ");
                out.append(l.tag());
                out
            },
            InvariantError::Empty => {
                let mut out = String::new();
                out.append("empty");
                out
            },
        }
    }
}

impl TryFromLocalesError {
    /// The diagnostic text of the failure.
    pub fn message(&self) -> (r: String)
        ensures
            r@ == match self {
                TryFromLocalesError::ParseLocale(e) => e@,
                TryFromLocalesError::Invariant(e) => match e {
                    InvariantError::InfiniteFallbackLoop(p) => "infinite fallback loop detected: ("@
                        + crate::utils::join_seqs(p@.map_values(|l: Locale| l@), " -> "@) + ")"@,
                    InvariantError::MainLocaleDuplicate(l) => "main locale duplicate: "@ + l@,
                    InvariantError::Empty => "empty"@,
                },
            },
    {
        match self {
            TryFromLocalesError::ParseLocale(e) => e.clone(),
            TryFromLocalesError::Invariant(e) => e.message(),
        }
    }
}

/// The validated locale fallback graph.
#[derive(Debug)]
pub struct Locales {
    locales: Vec<LocaleEntry>,
}

impl View for Locales {
    type V = Seq<LocaleEntryView>;

    closed spec fn view(&self) -> Seq<LocaleEntryView> {
        entries_of(self.locales@)
    }
}

impl Default for Locales {
    /// An empty, unvalidated graph; a placeholder until a validated one is
    /// supplied.
    fn default() -> (r: Self)
        ensures
            r@ == Seq::<LocaleEntryView>::empty(),
    {
        Locales { locales: Vec::new() }
    }
}

impl Locales {
    #[verifier::type_invariant]
    closed spec fn inv(self) -> bool {
        mains_distinct(self@) && graph_acyclic(self@)
    }

    /// Validates a configured list of entries: rejects an empty list, a
    /// duplicated main locale, and any fallback cycle (the error carries the
    /// walk that closed the cycle).
    #[verifier::rlimit(80)]
    pub fn try_new(locales: Vec<LocaleEntry>) -> (r: Result<Locales, InvariantError>)
        ensures
            r is Ok <==> locales.len() > 0 && mains_distinct(entries_of(locales@)) && graph_acyclic(
                entries_of(locales@),
            ),
            r matches Ok(g) ==> g@ == entries_of(locales@),
            r == Err::<Locales, InvariantError>(InvariantError::Empty) <==> locales.len() == 0,
            r matches Err(InvariantError::MainLocaleDuplicate(l)) ==> exists|i: int, j: int|
                0 <= i < j < locales.len() && (#[trigger] entries_of(locales@)[i]).main == (
                #[trigger] entries_of(locales@)[j]).main && entries_of(locales@)[j].main == l@,
            r matches Err(InvariantError::InfiniteFallbackLoop(p)) ==> cycle_path(
                entries_of(locales@),
                p@.map_values(|l: Locale| l@),
            ) && exact_cycle_witness(entries_of(locales@), p@.map_values(|l: Locale| l@)),
            locales.len() > 0 && mains_distinct(entries_of(locales@)) && !graph_acyclic(
                entries_of(locales@),
            ) ==> r matches Err(InvariantError::InfiniteFallbackLoop(_)),
            locales.len() > 0 && !mains_distinct(entries_of(locales@)) && graph_acyclic(
                entries_of(locales@),
            ) ==> r matches Err(InvariantError::MainLocaleDuplicate(_)),
    {
        let ghost ev = entries_of(locales@);
        let n = locales.len();
        let mut idx: usize = 0;
        while idx < n
            invariant
                idx <= n,
                n == locales.len(),
                ev == entries_of(locales@),
                forall|i: int, j: int|
                    0 <= i < j < idx ==> (#[trigger] ev[i]).main != (#[trigger] ev[j]).main,
                forall|k: int| 0 <= k < idx ==> no_cycle_from(ev, (#[trigger] ev[k]).main),
            decreases n - idx,
        {
            // A main seen twice is a duplicate; the later occurrence is
            // the one reported.
            let mut j: usize = 0;
            while j < idx
                invariant
                    j <= idx,
                    idx < n,
                    n == locales.len(),
                    ev == entries_of(locales@),
                    forall|k: int| 0 <= k < j ==> (#[trigger] ev[k]).main != ev[idx as int].main,
                decreases idx - j,
            {
                if locales[j].main == locales[idx].main {
                    proof {
                        assert(ev[j as int].main == ev[idx as int].main);
                        assert(!mains_distinct(ev));
                        assert(n > 0);
                    }
                    return Err(InvariantError::MainLocaleDuplicate(locales[idx].main.clone()));
                }
                j += 1;
            }

            // Walk the fallback chain out of this entry's main locale; a tag
            // reached twice closes a cycle.
            let ghost m0 = ev[idx as int].main;
            let mut visited: Vec<Locale> = Vec::new();
            let mut cur: Option<usize> = Some(idx);
            let ghost mut gidx: Seq<int> = Seq::empty();
            proof {
                lemma_find_main_at(ev, m0, idx as int);
            }
            loop
                invariant
                    n == locales.len(),
                    ev == entries_of(locales@),
                    0 <= idx < n,
                    m0 == ev[idx as int].main,
                    is_main(ev, m0),
                    forall|k2: int| 0 <= k2 < idx ==> no_cycle_from(ev, (#[trigger] ev[k2]).main),
                    gidx.len() == visited.len(),
                    forall|i: int|
                        0 <= i < visited.len() ==> chain(ev, m0, i as nat) == Some(
                            (#[trigger] visited[i])@,
                        ),
                    forall|i: int, j: int|
                        0 <= i < j < visited.len() ==> (#[trigger] visited[i])@ != (
                        #[trigger] visited[j])@,
                    forall|i: int|
                        0 <= i < gidx.len() ==> 0 <= #[trigger] gidx[i] < n && ev[gidx[i]].main
                            == visited[i]@,
                    match cur {
                        Some(ci) => {
                            &&& ci < n
                            &&& chain(ev, m0, visited.len() as nat) == Some(ev[ci as int].main)
                            &&& find_main(ev, ev[ci as int].main) == Some(ev[ci as int])
                            &&& forall|i: int|
                                0 <= i < visited.len() ==> (#[trigger] visited[i])@ != ev[
                                ci as int].main
                        },
                        None => {
                            ||| chain(ev, m0, visited.len() as nat) is None
                            ||| {
                                &&& chain(ev, m0, visited.len() as nat) matches Some(t)
                                &&& !is_main(ev, chain(ev, m0, visited.len() as nat)->0)
                                &&& forall|i: int|
                                    0 <= i < visited.len() ==> (#[trigger] visited[i])@ != chain(
                                        ev,
                                        m0,
                                        visited.len() as nat,
                                    )->0
                            }
                        },
                    },
                ensures
                    no_cycle_from(ev, m0),
                decreases n - visited.len(),
            {
                let ci = match cur {
                    Some(ci) => ci,
                    None => {
                        proof {
                            let k = visited.len() as nat;
                            assert forall|i: nat, j: nat|
                                i < j && #[trigger] chain(ev, m0, i) is Some && #[trigger] chain(
                                    ev,
                                    m0,
                                    j,
                                ) is Some implies chain(ev, m0, i) != chain(ev, m0, j) by {
                                if chain(ev, m0, k) is None {
                                    if j >= k {
                                        lemma_chain_none_stable(ev, m0, k, j);
                                    } else {
                                        assert(visited[i as int]@ != visited[j as int]@);
                                    }
                                } else {
                                    let t = chain(ev, m0, k)->0;
                                    assert(find_main(ev, t) is None);
                                    assert(chain(ev, m0, k + 1) is None);
                                    if j >= k + 1 {
                                        lemma_chain_none_stable(ev, m0, (k + 1) as nat, j);
                                    } else if j == k {
                                        assert(visited[i as int]@ != t);
                                    } else {
                                        assert(visited[i as int]@ != visited[j as int]@);
                                    }
                                }
                            }
                        }
                        break ;
                    },
                };
                // Pigeonhole: the walk has visited distinct configured mains
                // only, so it cannot take more than `n` steps.
                proof {
                    let vlen = visited.len() as int;
                    assert(gidx.no_duplicates()) by {
                        assert forall|i: int, j: int|
                            0 <= i < vlen && 0 <= j < vlen && i != j implies gidx[i] != gidx[
                        j] by {
                            assert(visited[i]@ != visited[j]@);
                        }
                    }
                    gidx.unique_seq_to_set();
                    assert(gidx.to_set().subset_of(vstd::set_lib::set_int_range(0, n as int))) by {
                        assert forall|x: int| gidx.to_set().contains(x) implies 0 <= x
                            < n as int by {
                            let i = choose|i: int| 0 <= i < gidx.len() && gidx[i] == x;
                        }
                    }
                    vstd::set_lib::lemma_int_range(0, n as int);
                    vstd::set_lib::lemma_len_subset(
                        gidx.to_set(),
                        vstd::set_lib::set_int_range(0, n as int),
                    );
                    // The current entry is none of the visited ones.
                    assert(!gidx.to_set().contains(ci as int));
                    assert(gidx.to_set().insert(ci as int).len() == visited.len() + 1);
                    vstd::set_lib::lemma_len_subset(
                        gidx.to_set().insert(ci as int),
                        vstd::set_lib::set_int_range(0, n as int),
                    );
                    assert(visited.len() < n);
                }
                let ghost k = visited.len() as nat;
                visited.push(locales[ci].main.clone());
                proof {
                    gidx = gidx.push(ci as int);
                }
                match &locales[ci].fallback {
                    Some(fb) => {
                        if contains_locale(&visited, fb) {
                            let ghost vsnap = visited@;
                            let mut path = visited;
                            path.push(fb.clone());
                            proof {
                                let kk = (k + 1) as nat;
                                assert(chain(ev, m0, kk) == Some(fb@));
                                let p = path@.map_values(|l: Locale| l@);
                                assert(path@ =~= vsnap.push(path@[k as int + 1]));
                                assert(p.len() == k + 2);
                                assert(forall|i: int|
                                    0 <= i <= k + 1 ==> #[trigger] p[i] == path@[i]@);
                                let i0 = choose|i: int|
                                    0 <= i < vsnap.len() && (#[trigger] vsnap[i])@ == fb@;
                                assert(chain(ev, m0, i0 as nat) == Some(p[i0]));
                                assert(p[i0] == fb@);
                                assert(!no_cycle_from(ev, m0));
                                assert(!graph_acyclic(ev)) by {
                                    assert(!no_cycle_from(ev, ev[idx as int].main));
                                }
                                assert(cycle_path(ev, p)) by {
                                    assert(p[p.len() - 1] == fb@);
                                    assert(p[0] == m0);
                                    assert(is_main(ev, p[0]));
                                    assert forall|i: int| 0 <= i < p.len() - 1 implies next_of(
                                        ev,
                                        #[trigger] p[i],
                                    ) == Some(p[i + 1]) by {
                                        assert(chain(ev, m0, i as nat) == Some(p[i]));
                                        assert(chain(ev, m0, (i + 1) as nat) == Some(p[i + 1]));
                                    }
                                    assert(0 <= i0 < p.len() - 1 && p[i0] == p[p.len() - 1]);
                                }
                                assert(n > 0);
                                assert forall|j: int| 0 <= j < p.len() implies Some(
                                    #[trigger] p[j],
                                ) == chain(ev, ev[idx as int].main, j as nat) by {
                                    if j <= k as int {
                                        assert(p[j] == vsnap[j]@);
                                    }
                                }
                                assert forall|a: int, b: int|
                                    0 <= a < b < p.len() - 1 implies p[a] != p[b] by {
                                    assert(p[a] == vsnap[a]@ && p[b] == vsnap[b]@);
                                }
                                lemma_exact_cycle_at(ev, p, idx as int);
                            }
                            return Err(InvariantError::InfiniteFallbackLoop(path));
                        }
                        cur = find_entry_idx(&locales, fb);
                        proof {
                            assert(chain(ev, m0, (k + 1) as nat) == Some(fb@));
                        }
                    },
                    None => {
                        proof {
                            assert(chain(ev, m0, (k + 1) as nat) is None);
                        }
                        cur = None;
                    },
                }
            }
            idx += 1;
        }
        if n == 0 {
            return Err(InvariantError::Empty);
        }
        proof {
            assert(mains_distinct(ev));
            assert(graph_acyclic(ev));
        }
        Ok(Locales { locales })
    }

    /// Makes the structural invariants of every constructed graph
    /// available to a caller's proofs.
    pub fn invariants(&self)
        ensures
            mains_distinct(self@),
            graph_acyclic(self@),
    {
        proof {
            use_type_invariant(self);
        }
    }

    /// Whether no entry is configured.
    pub fn is_empty(&self) -> (r: bool)
        ensures
            r == (self@.len() == 0),
    {
        self.locales.is_empty()
    }

    /// The resolution route for a main locale: the locale itself followed by
    /// its chain of fallbacks, ending at the chain's terminal locale.
    /// `None` where the locale is not a configured main, even if it appears
    /// as someone's fallback.
    ///
    /// The route always terminates: it has at most one locale more than the
    /// configuration has entries, its last element has no further fallback
    /// among the configured mains, and where every configured fallback is
    /// itself a configured main it has at most as many locales as there are
    /// entries.
    pub fn locale_resolution_route(&self, locale: &Locale) -> (r: Option<Vec<Locale>>)
        ensures
            r is Some <==> is_main(self@, locale@),
            r matches Some(v) ==> {
                &&& v@.map_values(|l: Locale| l@) == route(self@, locale@, self@.len() as nat)
                &&& 1 <= v.len() <= self@.len() + 1
                &&& next_of(self@, v@.last()@) is None
                &&& (forall|k: int|
                    0 <= k < self@.len() ==> ((#[trigger] self@[k]).fallback matches Some(f)
                        ==> is_main(self@, f))) ==> v.len() <= self@.len()
            },
    {
        proof {
            use_type_invariant(self);
        }
        let ghost ev = self@;
        let n = self.locales.len();
        let first = match find_entry_idx(&self.locales, locale) {
            None => {
                return None;
            },
            Some(i) => i,
        };
        let ghost m0 = locale@;
        let mut res: Vec<Locale> = Vec::new();
        res.push(self.locales[first].main.clone());
        let mut cur: usize = first;
        let ghost mut gidx: Seq<int> = seq![first as int];
        proof {
            assert(ev[first as int].main == m0) by {
                lemma_find_main_tag(ev, m0);
            }
            assert(no_cycle_from(ev, m0));
            assert(route(ev, m0, n as nat) =~= Seq::<Seq<char>>::empty() + route(ev, m0, n as nat));
        }
        loop
            invariant_except_break
                n == self.locales.len(),
                ev == self@,
                mains_distinct(ev),
                no_cycle_from(ev, m0),
                is_main(ev, m0),
                1 <= res.len() <= n,
                gidx.len() == res.len(),
                cur < n,
                forall|i: int|
                    0 <= i < res.len() ==> chain(ev, m0, i as nat) == Some((#[trigger] res[i])@),
                forall|i: int|
                    0 <= i < gidx.len() ==> 0 <= #[trigger] gidx[i] < n && ev[gidx[i]].main
                        == res[i]@,
                ev[cur as int].main == res[res.len() - 1]@,
                find_main(ev, res[res.len() - 1]@) == Some(ev[cur as int]),
                route(ev, m0, n as nat) == res@.map_values(|l: Locale| l@).drop_last() + route(
                    ev,
                    res[res.len() - 1]@,
                    (n - (res.len() - 1)) as nat,
                ),
            ensures
                res@.map_values(|l: Locale| l@) == route(ev, m0, n as nat),
                1 <= res.len() <= n + 1,
                next_of(ev, res@.last()@) is None,
                (forall|k: int|
                    0 <= k < n ==> ((#[trigger] ev[k]).fallback matches Some(f) ==> is_main(
                        ev,
                        f,
                    ))) ==> res.len() <= n,
            decreases n - res.len(),
        {
            let ghost k = res.len() as int;
            let ghost fuel = (n - (k - 1)) as nat;
            match &self.locales[cur].fallback {
                None => {
                    proof {
                        assert(next_of(ev, res[k - 1]@) is None);
                        assert(route(ev, res[k - 1]@, fuel) =~= seq![res[k - 1]@]);
                        assert(res@.map_values(|l: Locale| l@) =~= res@.map_values(
                            |l: Locale| l@,
                        ).drop_last() + seq![res[k - 1]@]);
                    }
                    break ;
                },
                Some(fb) => {
                    proof {
                        assert(next_of(ev, res[k - 1]@) == Some(fb@));
                        assert(chain(ev, m0, k as nat) == Some(fb@));
                        // fuel stays positive: the mains seen so far are
                        // pairwise distinct configured mains
                        assert(gidx.no_duplicates()) by {
                            assert forall|i: int, j: int|
                                0 <= i < k && 0 <= j < k && i != j implies gidx[i] != gidx[j] by {
                                assert(chain(ev, m0, i as nat) == Some(res[i]@));
                                assert(chain(ev, m0, j as nat) == Some(res[j]@));
                                assert(res[i]@ != res[j]@);
                            }
                        }
                        lemma_distinct_indices_bound(gidx, n as int);
                    }
                    let next = find_entry_idx(&self.locales, fb);
                    match next {
                        Some(ci) => {
                            proof {
                                // the fallback's entry is not among the
                                // visited ones: its main is unvisited
                                assert forall|i: int| 0 <= i < k implies (#[trigger] res[i])@
                                    != fb@ by {
                                    assert(chain(ev, m0, i as nat) == Some(res[i]@));
                                    assert(chain(ev, m0, k as nat) == Some(fb@));
                                }
                                assert(!gidx.to_set().contains(ci as int)) by {
                                    if gidx.to_set().contains(ci as int) {
                                        let i = choose|i: int|
                                            0 <= i < gidx.len() && gidx[i] == ci as int;
                                        assert(res[i]@ == ev[ci as int].main);
                                    }
                                }
                                lemma_distinct_indices_plus_one(gidx, ci as int, n as int);
                                assert(k < n);
                                assert(fuel > 0);
                                assert(route(ev, res[k - 1]@, fuel) == seq![res[k - 1]@] + route(
                                    ev,
                                    fb@,
                                    (fuel - 1) as nat,
                                ));
                            }
                            res.push(self.locales[ci].main.clone());
                            cur = ci;
                            proof {
                                gidx = gidx.push(ci as int);
                                assert(res@.map_values(|l: Locale| l@).drop_last()
                                    =~= res@.map_values(|l: Locale| l@).drop_last().drop_last()
                                    + seq![res[k - 1]@]);
                                assert(route(ev, m0, n as nat) == res@.map_values(
                                    |l: Locale| l@,
                                ).drop_last() + route(ev, res[k as int]@, (n - k) as nat));
                            }
                        },
                        None => {
                            res.push(fb.clone());
                            proof {
                                assert(next_of(ev, fb@) is None);
                                assert(fuel > 0);
                                assert(route(ev, res[k - 1]@, fuel) =~= seq![res[k - 1]@] + seq![
                                    fb@,
                                ]);
                                assert(res@.map_values(|l: Locale| l@) =~= res@.map_values(
                                    |l: Locale| l@,
                                ).drop_last().drop_last() + seq![res[k - 1]@] + seq![fb@]);
                                // a configured fallback that is not a main:
                                // the route may exceed the entry count here
                                assert(ev[cur as int].fallback matches Some(f) && !is_main(ev, f));
                            }
                            break ;
                        },
                    }
                },
            }
        }
        Some(res)
    }
}

/// The set of terminal locales: for each entry, the last element of the
/// resolution route out of its main locale.
pub open spec fn mandatory_set(entries: Seq<LocaleEntryView>) -> Set<Seq<char>> {
    Set::new(
        |t: Seq<char>|
            exists|k: int|
                0 <= k < entries.len() && t == route(
                    entries,
                    (#[trigger] entries[k]).main,
                    entries.len() as nat,
                ).last(),
    )
}

spec fn mandatory_prefix_set(entries: Seq<LocaleEntryView>, m: int) -> Set<Seq<char>> {
    Set::new(
        |t: Seq<char>|
            exists|k: int|
                0 <= k < m && t == route(
                    entries,
                    (#[trigger] entries[k]).main,
                    entries.len() as nat,
                ).last(),
    )
}

/// The set of every locale mentioned by the configuration, as a main or as
/// a fallback.
pub open spec fn all_set(entries: Seq<LocaleEntryView>) -> Set<Seq<char>> {
    Set::new(
        |t: Seq<char>|
            exists|k: int|
                0 <= k < entries.len() && ((#[trigger] entries[k]).main == t || entries[k].fallback
                    == Some(t)),
    )
}

spec fn all_prefix_set(entries: Seq<LocaleEntryView>, m: int) -> Set<Seq<char>> {
    Set::new(
        |t: Seq<char>|
            exists|k: int|
                0 <= k < m && ((#[trigger] entries[k]).main == t || entries[k].fallback == Some(
                    t,
                )),
    )
}

pub(crate) proof fn lemma_tag_set_push(om: Seq<Seq<char>>, nm: Seq<Seq<char>>, x: Seq<char>)
    requires
        nm == om.push(x),
    ensures
        nm.to_set() == om.to_set().insert(x),
{
    assert(nm.to_set() =~= om.to_set().insert(x)) by {
        assert forall|t: Seq<char>| nm.to_set().contains(t) implies om.to_set().insert(x).contains(
            t,
        ) by {
            let i = choose|i: int| 0 <= i < nm.len() && nm[i] == t;
            if i < om.len() {
                assert(om[i] == t);
                assert(om.contains(t));
            }
        }
        assert forall|t: Seq<char>| om.to_set().insert(x).contains(t) implies nm.to_set().contains(
            t,
        ) by {
            if t == x {
                assert(nm[nm.len() - 1] == t);
            } else {
                let i = choose|i: int| 0 <= i < om.len() && om[i] == t;
                assert(nm[i] == t);
            }
        }
    }
}

/// Appends the locale where its tag is not yet present.
fn push_unique(v: &mut Vec<Locale>, l: &Locale)
    requires
        old(v)@.map_values(|x: Locale| x@).no_duplicates(),
    ensures
        final (v)@.map_values(|x: Locale| x@).to_set() == old(v)@.map_values(
            |x: Locale| x@,
        ).to_set().insert(l@),
        final (v)@.map_values(|x: Locale| x@).no_duplicates(),
{
    if !contains_locale(v, l) {
        v.push(l.clone());
        proof {
            let om = old(v)@.map_values(|x: Locale| x@);
            let nm = v@.map_values(|x: Locale| x@);
            assert(nm =~= om.push(l@));
            lemma_tag_set_push(om, nm, l@);
            assert(nm.no_duplicates()) by {
                assert forall|i: int, j: int| 0 <= i < j < nm.len() implies nm[i] != nm[j] by {
                    if j == nm.len() - 1 {
                        assert(old(v)@[i]@ != l@);
                    }
                }
            }
        }
    } else {
        proof {
            let om = old(v)@.map_values(|x: Locale| x@);
            let i = choose|i: int| 0 <= i < old(v)@.len() && (#[trigger] old(v)@[i])@ == l@;
            assert(om[i] == l@);
            assert(om.to_set().contains(l@));
            assert(om.to_set() =~= om.to_set().insert(l@));
        }
    }
}

impl Locales {
    /// The set of mandatory locales: for each entry, the terminal locale
    /// reached by following fallbacks to the end of the chain.
    pub fn mandatory_locales(&self) -> (r: Vec<Locale>)
        ensures
            r@.map_values(|l: Locale| l@).to_set() == mandatory_set(self@),
            r@.map_values(|l: Locale| l@).no_duplicates(),
    {
        proof {
            use_type_invariant(self);
        }
        let ghost ev = self@;
        let n = self.locales.len();
        let mut out: Vec<Locale> = Vec::new();
        let mut i: usize = 0;
        proof {
            assert(out@.map_values(|l: Locale| l@).to_set() =~= mandatory_prefix_set(ev, 0));
        }
        while i < n
            invariant
                i <= n,
                n == self.locales.len(),
                ev == self@,
                mains_distinct(ev),
                graph_acyclic(ev),
                out@.map_values(|l: Locale| l@).to_set() == mandatory_prefix_set(ev, i as int),
                out@.map_values(|l: Locale| l@).no_duplicates(),
            decreases n - i,
        {
            proof {
                lemma_find_main_at(ev, ev[i as int].main, i as int);
            }
            let route_v = self.locale_resolution_route(&self.locales[i].main).unwrap();
            let last = &route_v[route_v.len() - 1];
            push_unique(&mut out, last);
            proof {
                assert(last@ == route(ev, ev[i as int].main, n as nat).last());
                assert(out@.map_values(|l: Locale| l@).to_set() =~= mandatory_prefix_set(
                    ev,
                    i as int + 1,
                ));
            }
            i += 1;
        }
        proof {
            assert(mandatory_prefix_set(ev, n as int) =~= mandatory_set(ev));
        }
        out
    }

    /// The set of every locale mentioned by the configuration: every main
    /// and every fallback.
    pub fn all_locales(&self) -> (r: Vec<Locale>)
        ensures
            r@.map_values(|l: Locale| l@).to_set() == all_set(self@),
            r@.map_values(|l: Locale| l@).no_duplicates(),
    {
        let ghost ev = self@;
        let n = self.locales.len();
        let mut out: Vec<Locale> = Vec::new();
        let mut i: usize = 0;
        proof {
            assert(out@.map_values(|l: Locale| l@).to_set() =~= all_prefix_set(ev, 0));
        }
        while i < n
            invariant
                i <= n,
                n == self.locales.len(),
                ev == self@,
                out@.map_values(|l: Locale| l@).to_set() == all_prefix_set(ev, i as int),
                out@.map_values(|l: Locale| l@).no_duplicates(),
            decreases n - i,
        {
            push_unique(&mut out, &self.locales[i].main);
            match &self.locales[i].fallback {
                Some(fb) => {
                    push_unique(&mut out, fb);
                    proof {
                        assert(ev[i as int].fallback == Some(fb@));
                        assert(out@.map_values(|l: Locale| l@).to_set() =~= all_prefix_set(
                            ev,
                            i as int + 1,
                        ));
                    }
                },
                None => {
                    proof {
                        assert(ev[i as int].fallback is None);
                        assert(out@.map_values(|l: Locale| l@).to_set() =~= all_prefix_set(
                            ev,
                            i as int + 1,
                        ));
                    }
                },
            }
            i += 1;
        }
        proof {
            assert(all_prefix_set(ev, n as int) =~= all_set(ev));
        }
        out
    }

    /// The configured main locales, in configuration order.
    pub fn main_locales(&self) -> (r: Vec<Locale>)
        ensures
            r@.map_values(|l: Locale| l@) == Seq::new(self@.len(), |i: int| self@[i].main),
            r@.map_values(|l: Locale| l@).no_duplicates(),
    {
        proof {
            use_type_invariant(self);
        }
        let ghost ev = self@;
        let n = self.locales.len();
        let mut out: Vec<Locale> = Vec::new();
        let mut i: usize = 0;
        while i < n
            invariant
                i <= n,
                n == self.locales.len(),
                ev == self@,
                mains_distinct(ev),
                out@.map_values(|l: Locale| l@) =~= Seq::new(i as nat, |k: int| ev[k].main),
            decreases n - i,
        {
            let ghost om = out@.map_values(|l: Locale| l@);
            out.push(self.locales[i].main.clone());
            proof {
                assert(out@.map_values(|l: Locale| l@) =~= om.push(ev[i as int].main));
                assert(out@.map_values(|l: Locale| l@) =~= Seq::new(
                    (i + 1) as nat,
                    |k: int| ev[k].main,
                ));
            }
            i += 1;
        }
        proof {
            let m = out@.map_values(|l: Locale| l@);
            assert(m.no_duplicates()) by {
                assert forall|i: int, j: int| 0 <= i < j < m.len() implies m[i] != m[j] by {
                    assert(ev[i].main != ev[j].main);
                }
            }
        }
        out
    }
}

/// A failure to build a graph from plain strings: a tag that does not
/// parse, or a violation of the graph invariants.
#[derive(Debug)]
pub enum TryFromLocalesError {
    ParseLocale(String),
    Invariant(InvariantError),
}

/// Whether every tag of the configured pairs parses as a language tag.
pub open spec fn pairs_wf(ps: Seq<(String, Option<String>)>) -> bool {
    forall|i: int|
        0 <= i < ps.len() ==> canonical_tag((#[trigger] ps[i]).0@) is Some && (ps[i].1 matches Some(
            f,
        ) ==> canonical_tag(f@) is Some)
}

/// The entries named by the configured pairs, each tag in canonical form.
pub open spec fn pairs_entries(ps: Seq<(String, Option<String>)>) -> Seq<LocaleEntryView> {
    ps.map_values(
        |p: (String, Option<String>)|
            LocaleEntryView {
                main: canonical_tag(p.0@)->0,
                fallback: match p.1 {
                    Some(f) => Some(canonical_tag(f@)->0),
                    None => None,
                },
            },
    )
}

/// The entries derived from a flat set of locales: each region-qualified
/// locale whose region-stripped form is also present falls back to that
/// form; every other locale gets no fallback.  Region-qualified locales
/// come first, each group in input order.
pub open spec fn derived_entries(tags: Seq<Seq<char>>) -> Seq<LocaleEntryView> {
    let secondary = tags.filter(|t: Seq<char>| stripped_tag(t) is Some);
    let primary = tags.filter(|t: Seq<char>| stripped_tag(t) is None);
    secondary.map_values(
        |t: Seq<char>|
            LocaleEntryView {
                main: t,
                fallback: if primary.contains(stripped_tag(t)->0) {
                    Some(stripped_tag(t)->0)
                } else {
                    None
                },
            },
    ) + primary.map_values(|t: Seq<char>| LocaleEntryView { main: t, fallback: None })
}

proof fn lemma_filter_no_dup(s: Seq<Seq<char>>, p: spec_fn(Seq<char>) -> bool)
    requires
        s.no_duplicates(),
    ensures
        s.filter(p).no_duplicates(),
    decreases s.len(),
{
    reveal(Seq::filter);
    broadcast use vstd::seq_lib::group_filter_ensures;

    if s.len() > 0 {
        assert(s.drop_last().no_duplicates());
        lemma_filter_no_dup(s.drop_last(), p);
        if p(s.last()) {
            let sub = s.drop_last().filter(p);
            assert(!sub.contains(s.last())) by {
                if sub.contains(s.last()) {
                    s.drop_last().lemma_filter_contains_rev(p, s.last());
                    assert(s.drop_last().contains(s.last()));
                    let i = choose|i: int|
                        0 <= i < s.drop_last().len() && s.drop_last()[i] == s.last();
                    assert(s[i] == s[s.len() - 1]);
                }
            }
            assert(sub.push(s.last()).no_duplicates()) by {
                let t = sub.push(s.last());
                assert forall|i: int, j: int| 0 <= i < j < t.len() implies t[i] != t[j] by {
                    if j == t.len() - 1 {
                        assert(sub.contains(t[i])) by {
                            assert(sub[i] == t[i]);
                        }
                    }
                }
            }
        }
    }
}

/// A fallback chain of at most one step never cycles.
proof fn lemma_short_chain_no_cycle(entries: Seq<LocaleEntryView>, m: Seq<char>)
    requires
        match next_of(entries, m) {
            None => true,
            Some(s) => s != m && next_of(entries, s) is None,
        },
    ensures
        no_cycle_from(entries, m),
{
    assert forall|i: nat, j: nat|
        i < j && #[trigger] chain(entries, m, i) is Some && #[trigger] chain(
            entries,
            m,
            j,
        ) is Some implies chain(entries, m, i) != chain(entries, m, j) by {
        assert(chain(entries, m, 0) == Some(m));
        match next_of(entries, m) {
            None => {
                assert(chain(entries, m, 1) is None);
                lemma_chain_none_stable(entries, m, 1, j);
            },
            Some(s) => {
                assert(chain(entries, m, 1) == Some(s));
                assert(chain(entries, m, 2) is None);
                if j >= 2 {
                    lemma_chain_none_stable(entries, m, 2, j);
                } else {
                    assert(i == 0 && j == 1);
                }
            },
        }
    }
}

impl Locales {
    /// Builds a graph from plain `(main, fallback)` tag strings, parsing
    /// each tag and then validating the entries.
    pub fn try_from_pairs(pairs: &Vec<(String, Option<String>)>) -> (r: Result<
        Locales,
        TryFromLocalesError,
    >)
        ensures
            r is Err && (r->Err_0 matches TryFromLocalesError::ParseLocale(_)) <==> !pairs_wf(
                pairs@,
            ),
            pairs_wf(pairs@) ==> ((r is Ok) <==> pairs@.len() > 0 && mains_distinct(
                pairs_entries(pairs@),
            ) && graph_acyclic(pairs_entries(pairs@))),
            r matches Ok(g) ==> g@ == pairs_entries(pairs@),
    {
        let ghost pe = pairs_entries(pairs@);
        let n = pairs.len();
        let mut entries: Vec<LocaleEntry> = Vec::new();
        let mut i: usize = 0;
        while i < n
            invariant
                i <= n,
                n == pairs.len(),
                pe == pairs_entries(pairs@),
                entries.len() == i,
                forall|k: int|
                    0 <= k < i ==> canonical_tag((#[trigger] pairs@[k]).0@) is Some && (
                    pairs@[k].1 matches Some(f) ==> canonical_tag(f@) is Some),
                forall|k: int| 0 <= k < i ==> (#[trigger] entries@[k])@ == pe[k],
            decreases n - i,
        {
            let main = match Locale::parse(pairs[i].0.as_str()) {
                Ok(l) => l,
                Err(e) => {
                    return Err(TryFromLocalesError::ParseLocale(e));
                },
            };
            let fallback = match &pairs[i].1 {
                Some(f) => match Locale::parse(f.as_str()) {
                    Ok(l) => Some(l),
                    Err(e) => {
                        return Err(TryFromLocalesError::ParseLocale(e));
                    },
                },
                None => None,
            };
            entries.push(LocaleEntry { main, fallback });
            i += 1;
        }
        proof {
            assert(pairs_wf(pairs@));
            assert(entries_of(entries@) =~= pe);
        }
        match Self::try_new(entries) {
            Ok(g) => Ok(g),
            Err(e) => Err(TryFromLocalesError::Invariant(e)),
        }
    }

    /// Derives a fallback configuration from a flat set of locales: a
    /// region-qualified locale whose region-stripped form is also present
    /// gets that form as its fallback; every other locale gets none.  This
    /// is a heuristic default, not a general language-matching algorithm.
    pub fn from_locales(locales: Vec<Locale>) -> (r: Locales)
        requires
            forall|i: int, j: int|
                0 <= i < j < locales.len() ==> (#[trigger] locales[i])@ != (#[trigger] locales[j])@,
        ensures
            r@ == derived_entries(locales@.map_values(|l: Locale| l@)),
    {
        let ghost tags = locales@.map_values(|l: Locale| l@);
        let ghost psec = |t: Seq<char>| stripped_tag(t) is Some;
        let ghost pprim = |t: Seq<char>| stripped_tag(t) is None;
        let n = locales.len();
        let mut primary: Vec<Locale> = Vec::new();
        let mut secondary: Vec<Locale> = Vec::new();
        let mut region_free: Vec<Locale> = Vec::new();
        let mut i: usize = 0;
        proof {
            assert(tags.no_duplicates());
            assert(tags.take(0).filter(psec) =~= Seq::<Seq<char>>::empty()) by {
                reveal(Seq::filter);
            }
            assert(tags.take(0).filter(pprim) =~= Seq::<Seq<char>>::empty()) by {
                reveal(Seq::filter);
            }
        }
        while i < n
            invariant
                i <= n,
                n == locales.len(),
                tags == locales@.map_values(|l: Locale| l@),
                tags.no_duplicates(),
                psec == |t: Seq<char>| stripped_tag(t) is Some,
                pprim == |t: Seq<char>| stripped_tag(t) is None,
                primary@.map_values(|l: Locale| l@) == tags.take(i as int).filter(pprim),
                secondary@.map_values(|l: Locale| l@) == tags.take(i as int).filter(psec),
                region_free.len() == secondary.len(),
                forall|k: int|
                    0 <= k < secondary.len() ==> stripped_tag((#[trigger] secondary@[k])@) == Some(
                        region_free@[k]@,
                    ) && region_free@[k]@ != secondary@[k]@,
            decreases n - i,
        {
            let ghost prim_snap = primary@.map_values(|l: Locale| l@);
            let ghost sec_snap = secondary@.map_values(|l: Locale| l@);
            proof {
                assert(tags.take(i as int + 1).drop_last() =~= tags.take(i as int));
                assert(tags.take(i as int + 1).last() == tags[i as int]);
                reveal(Seq::filter);
            }
            match locales[i].region_free() {
                None => {
                    primary.push(locales[i].clone());
                    proof {
                        assert(primary@.map_values(|l: Locale| l@) =~= prim_snap.push(
                            tags[i as int],
                        ));
                    }
                },
                Some(s) => {
                    secondary.push(locales[i].clone());
                    region_free.push(s);
                    proof {
                        assert(secondary@.map_values(|l: Locale| l@) =~= sec_snap.push(
                            tags[i as int],
                        ));
                    }
                },
            }
            i += 1;
        }
        let ghost primseq = tags.filter(pprim);
        let ghost secseq = tags.filter(psec);
        proof {
            assert(tags.take(n as int) =~= tags);
        }
        let ns = secondary.len();
        let mut entries: Vec<LocaleEntry> = Vec::new();
        let mut j: usize = 0;
        while j < ns
            invariant
                j <= ns,
                ns == secondary.len(),
                region_free.len() == secondary.len(),
                primary@.map_values(|l: Locale| l@) == primseq,
                secondary@.map_values(|l: Locale| l@) == secseq,
                secseq == tags.filter(psec),
                primseq == tags.filter(pprim),
                psec == |t: Seq<char>| stripped_tag(t) is Some,
                pprim == |t: Seq<char>| stripped_tag(t) is None,
                forall|k: int|
                    0 <= k < secondary.len() ==> stripped_tag((#[trigger] secondary@[k])@) == Some(
                        region_free@[k]@,
                    ) && region_free@[k]@ != secondary@[k]@,
                entries.len() == j,
                forall|k: int|
                    0 <= k < j ==> (#[trigger] entries@[k])@ == derived_entries(tags)[k],
            decreases ns - j,
        {
            let fb = if contains_locale(&primary, &region_free[j]) {
                Some(region_free[j].clone())
            } else {
                None
            };
            proof {
                if primseq.contains(stripped_tag(secseq[j as int])->0) {
                    let x = choose|x: int|
                        0 <= x < primseq.len() && primseq[x] == stripped_tag(secseq[j as int])->0;
                    assert(primary@[x]@ == stripped_tag(secseq[j as int])->0);
                }
                if fb is Some {
                    let x = choose|x: int|
                        0 <= x < primary.len() && (#[trigger] primary@[x])@ == region_free@[j as int]@;
                    assert(primseq[x] == stripped_tag(secseq[j as int])->0);
                    assert(primseq.contains(stripped_tag(secseq[j as int])->0));
                }
            }
            entries.push(LocaleEntry { main: secondary[j].clone(), fallback: fb });
            j += 1;
        }
        let np = primary.len();
        let mut k: usize = 0;
        while k < np
            invariant
                k <= np,
                np == primary.len(),
                primary@.map_values(|l: Locale| l@) == primseq,
                secseq == tags.filter(psec),
                primseq == tags.filter(pprim),
                psec == |t: Seq<char>| stripped_tag(t) is Some,
                pprim == |t: Seq<char>| stripped_tag(t) is None,
                ns == secseq.len(),
                entries.len() == ns + k,
                forall|kk: int|
                    0 <= kk < entries.len() ==> (#[trigger] entries@[kk])@ == derived_entries(
                        tags,
                    )[kk],
            decreases np - k,
        {
            entries.push(LocaleEntry { main: primary[k].clone(), fallback: None });
            k += 1;
        }
        let ghost de = derived_entries(tags);
        proof {
            assert(entries_of(entries@) =~= de);
            lemma_derived_entries_valid(tags);
        }
        Locales { locales: entries }
    }
}

/// The derived configuration is always a valid graph: mains are the input
/// locales (pairwise distinct), and every fallback chain ends after at most
/// one step at a region-free locale with no fallback of its own.
proof fn lemma_derived_entries_valid(tags: Seq<Seq<char>>)
    requires
        tags.no_duplicates(),
        forall|k: int|
            0 <= k < derived_entries(tags).len() ==> ((#[trigger] derived_entries(
                tags,
            )[k]).fallback matches Some(s) ==> s != derived_entries(tags)[k].main),
    ensures
        mains_distinct(derived_entries(tags)),
        graph_acyclic(derived_entries(tags)),
{
    broadcast use vstd::seq_lib::group_filter_ensures;

    let psec = |t: Seq<char>| stripped_tag(t) is Some;
    let pprim = |t: Seq<char>| stripped_tag(t) is None;
    let secondary = tags.filter(psec);
    let primary = tags.filter(pprim);
    let de = derived_entries(tags);
    let ns = secondary.len();
    let np = primary.len();
    lemma_filter_no_dup(tags, psec);
    lemma_filter_no_dup(tags, pprim);
    assert(de.len() == ns + np);
    assert(forall|k: int| 0 <= k < ns ==> (#[trigger] de[k]).main == secondary[k]);
    assert(forall|k: int| ns <= k < ns + np ==> (#[trigger] de[k]).main == primary[k - ns]);
    assert(mains_distinct(de)) by {
        assert forall|i: int, j: int| 0 <= i < j < de.len() implies de[i].main != de[j].main by {
            if i < ns && j < ns {
                assert(secondary[i] != secondary[j]);
            } else if i >= ns && j >= ns {
                assert(primary[i - ns] != primary[j - ns]);
            } else {
                assert(psec(secondary[i]));
                assert(pprim(primary[j - ns]));
            }
        }
    }
    assert(graph_acyclic(de)) by {
        assert forall|k: int| 0 <= k < de.len() implies no_cycle_from(de, (#[trigger] de[k]).main) by {
            let m = de[k].main;
            assert(forall|x: int| 0 <= x < k ==> (#[trigger] de[x]).main != m);
            lemma_find_main_at(de, m, k);
            assert(find_main(de, m) == Some(de[k]));
            if k >= ns {
                assert(de[k].fallback is None);
                lemma_short_chain_no_cycle(de, m);
            } else {
                match de[k].fallback {
                    None => {
                        lemma_short_chain_no_cycle(de, m);
                    },
                    Some(s) => {
                        assert(s != m);
                        assert(primary.contains(s));
                        let x = choose|x: int| 0 <= x < np && primary[x] == s;
                        assert(de[ns + x].main == s && de[ns + x].fallback is None);
                        assert forall|y: int| 0 <= y < ns + x implies (#[trigger] de[y]).main
                            != s by {
                            if y < ns {
                                assert(psec(secondary[y]));
                                assert(pprim(primary[x]));
                            } else {
                                assert(primary[y - ns] != primary[x]);
                            }
                        }
                        lemma_find_main_at(de, s, ns + x);
                        assert(next_of(de, s) is None);
                        lemma_short_chain_no_cycle(de, m);
                    },
                }
            }
        }
    }
}

proof fn lemma_distinct_indices_bound(gidx: Seq<int>, n: int)
    requires
        n >= 0,
        gidx.no_duplicates(),
        forall|i: int| 0 <= i < gidx.len() ==> 0 <= #[trigger] gidx[i] < n,
    ensures
        gidx.len() <= n,
{
    gidx.unique_seq_to_set();
    assert(gidx.to_set().subset_of(vstd::set_lib::set_int_range(0, n))) by {
        assert forall|x: int| gidx.to_set().contains(x) implies 0 <= x < n by {
            let i = choose|i: int| 0 <= i < gidx.len() && gidx[i] == x;
        }
    }
    vstd::set_lib::lemma_int_range(0, n);
    vstd::set_lib::lemma_len_subset(gidx.to_set(), vstd::set_lib::set_int_range(0, n));
}

proof fn lemma_distinct_indices_plus_one(gidx: Seq<int>, extra: int, n: int)
    requires
        n >= 0,
        gidx.no_duplicates(),
        forall|i: int| 0 <= i < gidx.len() ==> 0 <= #[trigger] gidx[i] < n,
        0 <= extra < n,
        !gidx.to_set().contains(extra),
    ensures
        gidx.len() < n,
{
    broadcast use vstd::seq_lib::seq_to_set_is_finite;

    gidx.unique_seq_to_set();
    assert(gidx.to_set().insert(extra).len() == gidx.len() + 1);
    assert(gidx.to_set().insert(extra).subset_of(vstd::set_lib::set_int_range(0, n))) by {
        assert forall|x: int| gidx.to_set().insert(extra).contains(x) implies 0 <= x < n by {
            if x != extra {
                let i = choose|i: int| 0 <= i < gidx.len() && gidx[i] == x;
            }
        }
    }
    vstd::set_lib::lemma_int_range(0, n);
    vstd::set_lib::lemma_len_subset(
        gidx.to_set().insert(extra),
        vstd::set_lib::set_int_range(0, n),
    );
}

} // verus!
