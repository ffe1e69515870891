use std::collections::HashSet;

use l10n::locales::{InvariantError, Locale, LocaleEntry, Locales, TryFromLocalesError};

fn pairs(ps: &[(&str, Option<&str>)]) -> Vec<(String, Option<String>)> {
    ps.iter().map(|(m, f)| (m.to_string(), f.map(|s| s.to_string()))).collect()
}

fn lc(tag: &str) -> Locale {
    Locale::parse(tag).unwrap()
}

fn tags(locales: &[Locale]) -> HashSet<String> {
    locales.iter().map(|l| l.tag().to_string()).collect()
}

#[test]
fn try_from_array_of_strings() {
    let actual = Locales::try_from_pairs(&pairs(&[
        ("en", None),
        ("en-GB", Some("en")),
        ("en-CA", Some("en-GB")),
        ("fr", None),
        ("fr-CA", Some("fr")),
        ("de", None),
    ]))
    .unwrap();

    let expected = vec![
        LocaleEntry::new(lc("en"), None),
        LocaleEntry::new(lc("en-GB"), Some(lc("en"))),
        LocaleEntry::new(lc("en-CA"), Some(lc("en-GB"))),
        LocaleEntry::new(lc("fr"), None),
        LocaleEntry::new(lc("fr-CA"), Some(lc("fr"))),
        LocaleEntry::new(lc("de"), None),
    ];
    let mains = actual.main_locales();
    assert_eq!(mains.len(), expected.len());
    for (i, e) in expected.iter().enumerate() {
        assert_eq!(mains[i], *e.locale());
    }
    // fallbacks resolve as configured
    let route = actual.locale_resolution_route(&lc("en-CA")).unwrap();
    assert_eq!(route, vec![lc("en-CA"), lc("en-GB"), lc("en")]);
}

#[test]
fn from_hashset_of_language_identifier() {
    let input = vec![
        lc("en"),
        lc("en-CA"),
        lc("en-GB"),
        lc("en-GB-variant"),
        lc("en-Latn"),
        lc("en-Latn-variant"),
        lc("en-Latn-GB"),
        lc("en-Latn-GB-variant"),
        lc("fr"),
        lc("fr-CA"),
        lc("fr-Latn-CA"),
        lc("fr-Latn-CA-variant"),
        lc("de"),
    ];
    let actual = Locales::from_locales(input);

    let expected: HashSet<(String, Option<String>)> = [
        ("en", None),
        ("en-CA", Some("en")),
        ("en-GB", Some("en")),
        ("en-GB-variant", None),
        ("en-Latn", None),
        ("en-Latn-variant", None),
        ("en-Latn-GB", Some("en-Latn")),
        ("en-Latn-GB-variant", Some("en-Latn-variant")),
        ("fr", None),
        ("fr-CA", Some("fr")),
        ("fr-Latn-CA", None),
        ("fr-Latn-CA-variant", None),
        ("de", None),
    ]
    .iter()
    .map(|(m, f)| (m.to_string(), f.map(|s| s.to_string())))
    .collect();

    let mut actual_set = HashSet::new();
    for main in actual.main_locales() {
        let route = actual.locale_resolution_route(&main).unwrap();
        let fallback = if route.len() > 1 { Some(route[1].tag().to_string()) } else { None };
        actual_set.insert((main.tag().to_string(), fallback));
    }
    assert_eq!(actual_set, expected);
}

#[test]
fn all_locales() {
    let translator_locales = Locales::try_from_pairs(&pairs(&[
        ("en-GB", Some("en")),
        ("en-CA", Some("en-GB")),
        ("fr-CA", Some("fr")),
        ("fr", None),
        ("de", None),
    ]))
    .unwrap();
    let expected: HashSet<String> =
        ["en", "en-GB", "en-CA", "fr", "fr-CA", "de"].iter().map(|s| s.to_string()).collect();
    assert_eq!(tags(&translator_locales.all_locales()), expected);
}

#[test]
fn mandatory_locales() {
    let translator_locales = Locales::try_from_pairs(&pairs(&[
        ("en", None),
        ("en-GB", Some("en")),
        ("en-CA", Some("en-GB")),
        ("fr-CA", Some("fr")),
    ]))
    .unwrap();
    let expected: HashSet<String> = ["en", "fr"].iter().map(|s| s.to_string()).collect();
    assert_eq!(tags(&translator_locales.mandatory_locales()), expected);
}

#[test]
fn main_locales() {
    let translator_locales = Locales::try_from_pairs(&pairs(&[
        ("en", None),
        ("en-GB", Some("en")),
        ("en-CA", Some("en-GB")),
        ("fr-CA", Some("fr")),
    ]))
    .unwrap();
    let expected: HashSet<String> =
        ["en", "en-GB", "en-CA", "fr-CA"].iter().map(|s| s.to_string()).collect();
    assert_eq!(tags(&translator_locales.main_locales()), expected);
}

#[test]
fn locale_resolution_route() {
    let translator_locales = Locales::try_from_pairs(&pairs(&[
        ("en", None),
        ("en-GB", Some("en")),
        ("en-CA", Some("en-GB")),
        ("en-IE", Some("en-GB")),
        ("fr-CA", Some("fr")),
    ]))
    .unwrap();

    let cases: Vec<(&str, Option<Vec<&str>>)> = vec![
        ("en", Some(vec!["en"])),
        ("en-GB", Some(vec!["en-GB", "en"])),
        ("en-CA", Some(vec!["en-CA", "en-GB", "en"])),
        ("en-IE", Some(vec!["en-IE", "en-GB", "en"])),
        ("fr-CA", Some(vec!["fr-CA", "fr"])),
        // not a main locale, even though it appears as a fallback
        ("fr", None),
        // locale not set at all
        ("de", None),
    ];
    for (tag, expected) in cases {
        let actual = translator_locales.locale_resolution_route(&lc(tag));
        match expected {
            None => assert!(actual.is_none()),
            Some(route) => {
                let got: Vec<String> =
                    actual.unwrap().iter().map(|l| l.tag().to_string()).collect();
                let want: Vec<String> = route.iter().map(|s| s.to_string()).collect();
                assert_eq!(got, want);
            }
        }
    }
}

#[test]
fn empty_configuration_is_refused() {
    let err = Locales::try_new(Vec::new()).unwrap_err();
    assert!(matches!(err, InvariantError::Empty));
    assert_eq!(err.message(), "empty");
}

#[test]
fn duplicate_main_is_refused() {
    let entries = vec![
        LocaleEntry::new(lc("en-CA"), None),
        LocaleEntry::new(lc("en-CA"), Some(lc("en"))),
    ];
    let err = Locales::try_new(entries).unwrap_err();
    assert_eq!(err.message(), "main locale duplicate: en-CA");
}

#[test]
fn fallback_cycle_is_refused() {
    // a locale falling back to itself
    let err = Locales::try_new(vec![LocaleEntry::new(lc("en"), Some(lc("en")))]).unwrap_err();
    assert_eq!(err.message(), "infinite fallback loop detected: (en -> en)");

    // a longer cycle, listing the exact visited sequence
    let entries = vec![
        LocaleEntry::new(lc("en"), None),
        LocaleEntry::new(lc("en-GB"), Some(lc("en-CA"))),
        LocaleEntry::new(lc("en-IE"), Some(lc("en-GB"))),
        LocaleEntry::new(lc("en-CA"), Some(lc("en-IE"))),
    ];
    let err = Locales::try_new(entries).unwrap_err();
    assert_eq!(
        err.message(),
        "infinite fallback loop detected: (en-GB -> en-CA -> en-IE -> en-GB)"
    );
}

#[test]
fn unparsable_tag_is_refused() {
    let err = Locales::try_from_pairs(&pairs(&[("not-a-locale", None)])).unwrap_err();
    assert!(matches!(err, TryFromLocalesError::ParseLocale(_)));
}
