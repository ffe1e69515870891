use l10n::l10n::{L10nBuilder, ParserError, TranslateError, TreeNode};
use l10n::locales::{Locale, Locales};

fn pairs(ps: &[(&str, Option<&str>)]) -> Vec<(String, Option<String>)> {
    ps.iter().map(|(m, f)| (m.to_string(), f.map(|s| s.to_string()))).collect()
}

fn lc(tag: &str) -> Locale {
    Locale::parse(tag).unwrap()
}

fn file(name: &str, contents: &str) -> TreeNode {
    TreeNode::File { name: name.to_string(), contents: contents.to_string() }
}

fn dir(name: &str, children: Vec<TreeNode>) -> TreeNode {
    TreeNode::Dir { name: name.to_string(), children }
}

#[test]
fn unknown_catalog_is_reported() {
    let root = vec![dir("en", vec![file("home.ftl", "k = v\n")])];
    let locales = Locales::try_from_pairs(&pairs(&[("en", None)])).unwrap();
    let l10n = L10nBuilder::build_from_entries(root, Some(locales)).unwrap().build().unwrap();
    match l10n.try_translate_with_args(&lc("en"), "nowhere", "k", None) {
        Err(TranslateError::ResourceNotExists(name)) => assert_eq!(name, "nowhere"),
        _ => panic!("expected an unknown catalog error"),
    }
}

#[test]
fn cyclic_message_reference_is_refused() {
    let root = vec![dir("en", vec![file("home.ftl", "a = { b }\nb = { a }\n")])];
    let locales = Locales::try_from_pairs(&pairs(&[("en", None)])).unwrap();
    let l10n = L10nBuilder::build_from_entries(root, Some(locales)).unwrap().build().unwrap();
    assert!(matches!(
        l10n.required_variables("home", "a"),
        Err(TranslateError::CyclicReference { .. })
    ));
    // an acyclic chain of the same shape still resolves
    let root = vec![dir("en", vec![file("home.ftl", "a = { b }\nb = { $x }\n")])];
    let locales = Locales::try_from_pairs(&pairs(&[("en", None)])).unwrap();
    let l10n = L10nBuilder::build_from_entries(root, Some(locales)).unwrap().build().unwrap();
    assert_eq!(l10n.required_variables("home", "a").unwrap(), vec!["x".to_string()]);
}

#[test]
fn unparsable_directory_without_explicit_locales() {
    let root = vec![dir("not a locale!", vec![file("home.ftl", "k = v\n")])];
    match L10nBuilder::build_from_entries(root, None) {
        Err(ParserError::ParseLangDir { dir_name, .. }) => {
            assert_eq!(dir_name, "not a locale!");
        }
        _ => panic!("expected an unparsable directory error"),
    }
}

#[test]
fn unlisted_directory_with_explicit_locales_is_skipped() {
    let root = vec![
        dir("en", vec![file("home.ftl", "k = v\n")]),
        dir("not a locale!", vec![file("junk.ftl", "= broken\n")]),
        dir("de", vec![file("other.ftl", "k = v\n")]),
    ];
    let locales = Locales::try_from_pairs(&pairs(&[("en", None)])).unwrap();
    let l10n = L10nBuilder::build_from_entries(root, Some(locales)).unwrap().build().unwrap();
    assert!(l10n.try_translate_with_args(&lc("en"), "home", "k", None).is_ok());
    // the unlisted catalogs were never registered
    assert!(matches!(
        l10n.try_translate_with_args(&lc("en"), "other", "k", None),
        Err(TranslateError::ResourceNotExists(_))
    ));
}

#[test]
fn derived_locales_from_visited_directories() {
    let root = vec![
        dir("en", vec![file("home.ftl", "greet = base\n")]),
        dir("en-CA", vec![file("home.ftl", "greet = regional\n")]),
    ];
    let l10n = L10nBuilder::build_from_entries(root, None).unwrap().build().unwrap();
    // the region variant falls back to its region-free form
    let route = l10n.locales.locale_resolution_route(&lc("en-CA")).unwrap();
    assert_eq!(route, vec![lc("en-CA"), lc("en")]);
    assert_eq!(
        l10n.try_translate_with_args(&lc("en-CA"), "home", "greet", None).unwrap(),
        "regional"
    );
    assert_eq!(
        l10n.try_translate_with_args(&lc("en"), "home", "greet", None).unwrap(),
        "base"
    );
}

#[test]
fn build_error_text() {
    let locales =
        Locales::try_from_pairs(&pairs(&[("en", None), ("en-CA", Some("en"))])).unwrap();
    let mut builder = L10nBuilder::new(locales);
    builder.add_named_resource("page", &Vec::new(), &lc("en-CA"), "k = v\n").unwrap();
    let err = match builder.build() {
        Err(e) => e,
        Ok(_) => panic!("expected a build failure"),
    };
    assert_eq!(
        err.message(),
        "build l10n errors:\n  - missing resource \"page\" for locale: en"
    );
}

#[test]
fn same_locale_spelled_twice_duplicates_catalogs() {
    // two root directories naming the same locale: the second walk
    // re-registers the same catalog and must be refused
    let root = vec![
        dir("en", vec![file("home.ftl", "k = v\n")]),
        dir("EN", vec![file("home.ftl", "k = w\n")]),
    ];
    let locales = Locales::try_from_pairs(&pairs(&[("en", None)])).unwrap();
    match L10nBuilder::build_from_entries(root, Some(locales)) {
        Err(ParserError::DuplicateResource { name, locale }) => {
            assert_eq!(name, "home");
            assert_eq!(locale.tag(), "en");
        }
        _ => panic!("expected a duplicate catalog error"),
    }
}
