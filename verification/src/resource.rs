//! The per-catalog resource: one bundle per supported main locale, and the
//! query surface over them.

use vstd::prelude::*;

use crate::args::TranslationArgs;
use crate::bundle::{
    bundle_scan, resolve, L10nBundle, LookupFailure, Resolution, ScanError, VarScan,
};
use crate::l10n::TranslateError;
use crate::locales::Locale;
use crate::utils::{split_key, split_key_exec, strs_set};

verus! {

/// The scans of one key across a stack of bundles: every bundle must
/// resolve the key, and the variables are the union across bundles.
pub open spec fn scans(
    bundles: Seq<(Locale, L10nBundle)>,
    id: Seq<char>,
    attr: Option<Seq<char>>,
) -> VarScan
    decreases bundles.len(),
{
    if bundles.len() == 0 {
        VarScan { ok: true, vars: Set::empty() }
    } else {
        let a = bundle_scan(bundles.first().1, id, attr);
        if !a.ok {
            a
        } else {
            let b = scans(bundles.drop_first(), id, attr);
            VarScan { ok: b.ok, vars: a.vars.union(b.vars) }
        }
    }
}

/// The law of cross-locale requirement extraction: where every locale's
/// bundle resolves the key, the extracted set is exactly the union of the
/// per-locale variable sets — a name is required if and only if some
/// locale's phrasing needs it.
pub proof fn lemma_scans_union(
    bundles: Seq<(Locale, L10nBundle)>,
    id: Seq<char>,
    attr: Option<Seq<char>>,
)
    requires
        scans(bundles, id, attr).ok,
    ensures
        forall|k: int| 0 <= k < bundles.len() ==> bundle_scan(#[trigger] bundles[k].1, id, attr).ok,
        forall|v: Seq<char>|
            #[trigger] scans(bundles, id, attr).vars.contains(v) <==> exists|k: int|
                0 <= k < bundles.len() && bundle_scan(#[trigger] bundles[k].1, id, attr).vars.contains(
                    v,
                ),
    decreases bundles.len(),
{
    if bundles.len() > 0 {
        let a = bundle_scan(bundles.first().1, id, attr);
        lemma_scans_union(bundles.drop_first(), id, attr);
        assert forall|k: int| 0 <= k < bundles.len() implies bundle_scan(
            #[trigger] bundles[k].1,
            id,
            attr,
        ).ok by {
            if k > 0 {
                assert(bundles.drop_first()[k - 1] == bundles[k]);
            }
        }
        assert forall|v: Seq<char>| #[trigger]
            scans(bundles, id, attr).vars.contains(v) implies exists|k: int|
            0 <= k < bundles.len() && bundle_scan(#[trigger] bundles[k].1, id, attr).vars.contains(
                v,
            ) by {
            if a.vars.contains(v) {
                assert(bundle_scan(bundles[0].1, id, attr).vars.contains(v));
            } else {
                assert(scans(bundles.drop_first(), id, attr).vars.contains(v));
                let k = choose|k: int|
                    0 <= k < bundles.drop_first().len() && bundle_scan(
                        #[trigger] bundles.drop_first()[k].1,
                        id,
                        attr,
                    ).vars.contains(v);
                assert(bundles.drop_first()[k] == bundles[k + 1]);
                assert(bundle_scan(bundles[k + 1].1, id, attr).vars.contains(v));
            }
        }
        assert forall|v: Seq<char>|
            (exists|k: int|
                0 <= k < bundles.len() && bundle_scan(
                    #[trigger] bundles[k].1,
                    id,
                    attr,
                ).vars.contains(v)) implies #[trigger] scans(bundles, id, attr).vars.contains(
            v,
        ) by {
            let k = choose|k: int|
                0 <= k < bundles.len() && bundle_scan(#[trigger] bundles[k].1, id, attr).vars.contains(
                    v,
                );
            if k > 0 {
                assert(bundles.drop_first()[k - 1] == bundles[k]);
                assert(bundle_scan(bundles.drop_first()[k - 1].1, id, attr).vars.contains(v));
                assert(exists|w: int|
                    0 <= w < bundles.drop_first().len() && bundle_scan(
                        #[trigger] bundles.drop_first()[w].1,
                        id,
                        attr,
                    ).vars.contains(v));
                assert(scans(bundles.drop_first(), id, attr).vars.contains(v));
            }
        }
    }
}

/// A per-catalog resource: its bundles, one per supported main locale.
pub struct L10nResource {
    bundles: Vec<(Locale, L10nBundle)>,
}

impl L10nResource {
    /// Soundness: every bundle is well formed, and no two bundles answer
    /// for the same locale.
    pub closed spec fn wf(&self) -> bool {
        &&& forall|i: int| 0 <= i < self.bundles@.len() ==> (#[trigger] self.bundles@[i]).1.wf()
        &&& forall|i: int, j: int|
            0 <= i < j < self.bundles@.len() ==> (#[trigger] self.bundles@[i]).0@ != (
            #[trigger] self.bundles@[j]).0@
    }

    /// The bundles, in the order they were added.
    pub closed spec fn spec_bundles(&self) -> Seq<(Locale, L10nBundle)> {
        self.bundles@
    }

    /// Whether a bundle answers for the locale.
    pub open spec fn has_locale(&self, tag: Seq<char>) -> bool {
        exists|i: int|
            0 <= i < self.spec_bundles().len() && (#[trigger] self.spec_bundles()[i]).0@ == tag
    }

    /// The bundle answering for the locale.
    pub open spec fn bundle_of(&self, tag: Seq<char>) -> L10nBundle {
        let i = choose|i: int|
            0 <= i < self.spec_bundles().len() && (#[trigger] self.spec_bundles()[i]).0@ == tag;
        self.spec_bundles()[i].1
    }

    /// An empty resource, answering for no locale.
    pub fn new() -> (r: Self)
        ensures
            r.wf(),
            r.spec_bundles() == Seq::<(Locale, L10nBundle)>::empty(),
    {
        L10nResource { bundles: Vec::new() }
    }

    /// Adds the bundle answering for a locale not yet covered.
    pub fn add_bundle(&mut self, lang: Locale, bundle: L10nBundle)
        requires
            old(self).wf(),
            bundle.wf(),
            !old(self).has_locale(lang@),
        ensures
            final (self).wf(),
            final (self).spec_bundles() == old(self).spec_bundles().push((lang, bundle)),
    {
        let ghost snap = self.bundles@;
        self.bundles.push((lang, bundle));
        proof {
            assert forall|i: int, j: int|
                0 <= i < j < self.bundles@.len() implies (#[trigger] self.bundles@[i]).0@ != (
            #[trigger] self.bundles@[j]).0@ by {
                if j == self.bundles@.len() - 1 {
                    assert(snap[i] == self.bundles@[i]);
                    if self.bundles@[i].0@ == lang@ {
                        assert(0 <= i < old(self).spec_bundles().len() && (#[trigger] old(
                            self,
                        ).spec_bundles()[i]).0@ == lang@);
                        assert(old(self).has_locale(lang@));
                    }
                }
            }
        }
    }

    fn find_bundle(&self, locale: &Locale) -> (r: Option<usize>)
        requires
            self.wf(),
        ensures
            match r {
                Some(i) => i < self.spec_bundles().len() && self.spec_bundles()[i as int].0@
                    == locale@ && self.has_locale(locale@) && self.bundle_of(locale@)
                    == self.spec_bundles()[i as int].1,
                None => !self.has_locale(locale@),
            },
    {
        let n = self.bundles.len();
        let mut i: usize = 0;
        while i < n
            invariant
                i <= n,
                n == self.bundles@.len(),
                self.wf(),
                forall|k: int| 0 <= k < i ==> (#[trigger] self.bundles@[k]).0@ != locale@,
            decreases n - i,
        {
            if self.bundles[i].0 == *locale {
                proof {
                    let w = choose|w: int|
                        0 <= w < self.spec_bundles().len() && (#[trigger] self.spec_bundles()[w]).0@
                            == locale@;
                    assert(w == i as int);
                }
                return Some(i);
            }
            i += 1;
        }
        None
    }

    /// Resolves and formats a message for one locale.  The structural
    /// failures (unknown locale, unknown message, unknown attribute,
    /// missing default value) are decided by the verified model; the
    /// engine decides formatting, and any formatting problem is a hard
    /// failure carrying the engine's reports.
    pub fn translate(&self, locale: &Locale, key: &str, args: Option<&TranslationArgs>) -> (r:
        Result<String, TranslateError>)
        requires
            self.wf(),
        ensures
            !self.has_locale(locale@) <==> (r matches Err(TranslateError::LocaleNotSupported {
                locale: l,
            }) && l@ == locale@),
            self.has_locale(locale@) ==> ({
                let b = self.bundle_of(locale@);
                match resolve(
                    b.spec_docs(),
                    b.messages(),
                    split_key(key@).0,
                    split_key(key@).1,
                ) {
                    Resolution::NoMessage => r matches Err(TranslateError::MessageIdNotExists {
                        id,
                        locale: l,
                    }) && id@ == split_key(key@).0 && l@ == b.spec_locales()[0],
                    Resolution::NoAttribute => r matches Err(
                        TranslateError::MessageAttributeNotExists { attribute, id, locale: l },
                    ) && Some(attribute@) == split_key(key@).1 && id@ == split_key(key@).0 && l@
                        == b.spec_locales()[0],
                    Resolution::NoValue => r matches Err(TranslateError::MessageIdValueNotExists {
                        id,
                        locale: l,
                    }) && id@ == split_key(key@).0 && l@ == b.spec_locales()[0],
                    Resolution::Found(_) => ({
                        let out = crate::bundle::format_outcome(
                            b.spec_sources(),
                            b.spec_locales(),
                            b.spec_isolating(),
                            split_key(key@).0,
                            split_key(key@).1,
                            match args {
                                Some(a) => a@,
                                None => Map::empty(),
                            },
                        );
                        match out {
                            Ok(t) => r matches Ok(s) && s@ == t,
                            Err(es) => r matches Err(TranslateError::FormatErrors(v))
                                && v@.map_values(|x: String| x@) == es,
                        }
                    }),
                }
            }),
    {
        let i = match self.find_bundle(locale) {
            None => {
                return Err(TranslateError::LocaleNotSupported { locale: locale.clone() });
            },
            Some(i) => i,
        };
        let bundle = &self.bundles[i].1;
        let (id, attr) = split_key_exec(key);
        match bundle.get_pattern(id.as_str(), &attr) {
            Ok(_) => {
                match bundle.format(id.as_str(), attr.as_ref(), args) {
                    Ok(s) => Ok(s),
                    Err(errors) => Err(TranslateError::FormatErrors(errors)),
                }
            },
            Err(LookupFailure::NoMessage) => Err(
                TranslateError::MessageIdNotExists { id, locale: bundle.locale().clone() },
            ),
            Err(LookupFailure::NoAttribute) => {
                let attribute = match attr {
                    Some(a) => a,
                    None => String::new(),
                };
                Err(
                    TranslateError::MessageAttributeNotExists {
                        attribute,
                        id,
                        locale: bundle.locale().clone(),
                    },
                )
            },
            Err(LookupFailure::NoValue) => Err(
                TranslateError::MessageIdValueNotExists { id, locale: bundle.locale().clone() },
            ),
        }
    }

    /// The variables a caller must be able to supply for the key: the
    /// union, across every locale's bundle, of the variables referenced by
    /// the resolved pattern (select variants included, message references
    /// resolved within the same bundle).  A key that any bundle cannot
    /// resolve is an error.
    pub fn required_variables(&self, key: &str) -> (r: Result<Vec<String>, TranslateError>)
        requires
            self.wf(),
        ensures
            r is Ok <==> scans(self.spec_bundles(), split_key(key@).0, split_key(key@).1).ok,
            r matches Ok(v) ==> strs_set(v@) == scans(
                self.spec_bundles(),
                split_key(key@).0,
                split_key(key@).1,
            ).vars && v@.map_values(|x: String| x@).no_duplicates(),
            r matches Err(e) ==> exists|i: int|
                {
                    &&& 0 <= i < self.spec_bundles().len()
                    &&& !bundle_scan(
                        (#[trigger] self.spec_bundles()[i]).1,
                        split_key(key@).0,
                        split_key(key@).1,
                    ).ok
                    &&& (forall|x: int|
                        0 <= x < i ==> bundle_scan(
                            (#[trigger] self.spec_bundles()[x]).1,
                            split_key(key@).0,
                            split_key(key@).1,
                        ).ok)
                    &&& crate::l10n::per_key_error(e)
                    &&& crate::l10n::translate_error_locale(e) == Some(
                        self.spec_bundles()[i].1.spec_locales()[0],
                    )
                },
    {
        let ghost id_g = split_key(key@).0;
        let ghost attr_g = split_key(key@).1;
        let ghost full = scans(self.spec_bundles(), id_g, attr_g);
        let (id, attr) = split_key_exec(key);
        let mut out: Vec<String> = Vec::new();
        let ghost mut acc: Set<Seq<char>> = Set::empty();
        let n = self.bundles.len();
        let mut i: usize = 0;
        proof {
            assert(self.spec_bundles().skip(0) =~= self.spec_bundles());
            assert(Set::empty().union(acc) =~= acc);
            assert(strs_set(out@) =~= acc);
        }
        while i < n
            invariant
                i <= n,
                n == self.bundles@.len(),
                self.wf(),
                id_g == split_key(key@).0,
                attr_g == split_key(key@).1,
                full == scans(self.spec_bundles(), id_g, attr_g),
                id@ == id_g,
                attr is Some <==> attr_g is Some,
                attr matches Some(a) ==> Some(a@) == attr_g,
                out@.map_values(|x: String| x@).no_duplicates(),
                strs_set(out@) == acc,
                forall|x: int|
                    0 <= x < i ==> bundle_scan(
                        (#[trigger] self.spec_bundles()[x]).1,
                        id_g,
                        attr_g,
                    ).ok,
                ({
                    let rest = scans(self.spec_bundles().skip(i as int), id_g, attr_g);
                    &&& full.ok == rest.ok
                    &&& (rest.ok ==> full.vars == acc.union(rest.vars))
                }),
            decreases n - i,
        {
            proof {
                assert(self.spec_bundles().skip(i as int).first() == self.spec_bundles()[i as int]);
                assert(self.spec_bundles().skip(i as int).drop_first() =~= self.spec_bundles().skip(
                    i as int + 1,
                ));
            }
            let bundle = &self.bundles[i].1;
            match bundle.get_pattern(id.as_str(), &attr) {
                Ok(p) => {
                    let fuel = bundle.scan_fuel_exec();
                    match bundle.scan_pattern_vars(p, fuel, &mut out) {
                        Ok(()) => {},
                        Err(e) => {
                            proof {
                                assert(!full.ok);
                            }
                            return Err(self.scan_error(e, bundle));
                        },
                    }
                },
                Err(f) => {
                    proof {
                        assert(!bundle_scan(self.spec_bundles()[i as int].1, id_g, attr_g).ok);
                        assert(!full.ok);
                    }
                    return Err(self.lookup_error(f, &id, &attr, bundle));
                },
            }
            proof {
                let bv = bundle_scan(self.spec_bundles()[i as int].1, id_g, attr_g);
                let rest2 = scans(self.spec_bundles().skip(i as int + 1), id_g, attr_g);
                let acc_old = acc;
                acc = acc.union(bv.vars);
                if rest2.ok {
                    assert(acc_old.union(bv.vars.union(rest2.vars)) =~= acc.union(rest2.vars));
                }
            }
            i += 1;
        }
        proof {
            assert(self.spec_bundles().skip(n as int) =~= Seq::<(Locale, L10nBundle)>::empty());
            assert(full.vars =~= acc);
        }
        Ok(out)
    }

    fn scan_error(&self, e: ScanError, bundle: &L10nBundle) -> (r: TranslateError)
        requires
            bundle.wf(),
        ensures
            crate::l10n::per_key_error(r),
            crate::l10n::translate_error_locale(r) == Some(bundle.spec_locales()[0]),
    {
        let locale = bundle.locale().clone();
        match e {
            ScanError::NoMessage { id } => TranslateError::MessageIdNotExists { id, locale },
            ScanError::NoAttribute { id, attribute } => TranslateError::MessageAttributeNotExists {
                attribute,
                id,
                locale,
            },
            ScanError::NoValue { id } => TranslateError::MessageIdValueNotExists { id, locale },
            ScanError::Cyclic { id } => TranslateError::CyclicReference { id, locale },
        }
    }

    fn lookup_error(
        &self,
        f: LookupFailure,
        id: &String,
        attr: &Option<String>,
        bundle: &L10nBundle,
    ) -> (r: TranslateError)
        requires
            bundle.wf(),
        ensures
            crate::l10n::per_key_error(r),
            crate::l10n::translate_error_locale(r) == Some(bundle.spec_locales()[0]),
    {
        let locale = bundle.locale().clone();
        match f {
            LookupFailure::NoMessage => TranslateError::MessageIdNotExists {
                id: id.clone(),
                locale,
            },
            LookupFailure::NoAttribute => {
                let attribute = match attr {
                    Some(a) => a.clone(),
                    None => String::new(),
                };
                TranslateError::MessageAttributeNotExists { attribute, id: id.clone(), locale }
            },
            LookupFailure::NoValue => TranslateError::MessageIdValueNotExists {
                id: id.clone(),
                locale,
            },
        }
    }
}

impl Default for L10nResource {
    fn default() -> (r: Self)
        ensures
            r.wf(),
            r.spec_bundles() == Seq::<(Locale, L10nBundle)>::empty(),
    {
        L10nResource::new()
    }
}

} // verus!
