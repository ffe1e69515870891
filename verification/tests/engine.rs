use std::collections::HashSet;

use l10n::l10n::{BuildError, BuildErrors, L10nBuilder, ParserError, TreeNode};
use l10n::locales::{Locale, Locales};

fn pairs(ps: &[(&str, Option<&str>)]) -> Vec<(String, Option<String>)> {
    ps.iter().map(|(m, f)| (m.to_string(), f.map(|s| s.to_string()))).collect()
}

fn lc(tag: &str) -> Locale {
    Locale::parse(tag).unwrap()
}

fn file(name: &str, contents: &str) -> TreeNode {
    TreeNode::File { name: name.to_string(), contents: contents.to_string() }
}

fn dir(name: &str, children: Vec<TreeNode>) -> TreeNode {
    TreeNode::Dir { name: name.to_string(), children }
}

#[test]
fn parse_ok() {
    let global_term = "-global-brand = Global Brand\n";
    let lang_term = "-brand = Root Brand\n-lang-term = Lang term\n";
    let nested_term = "-brand = Nested Brand\n";

    let root = vec![
        file("_term.ftl", global_term),
        dir(
            "en",
            vec![
                dir(
                    "nested",
                    vec![
                        file("_term.ftl", nested_term),
                        file(
                            "about.ftl",
                            "about-us = (Nested) About { -brand } a { -global-brand } subdivision [{ -lang-term }].\n",
                        ),
                    ],
                ),
                file("_term.ftl", lang_term),
                file("about.ftl", "about-us = About { -brand } [{ -lang-term }].\n"),
            ],
        ),
        dir(
            "fr",
            vec![
                dir(
                    "nested",
                    vec![
                        file("_term.ftl", nested_term),
                        file(
                            "about.ftl",
                            "about-us = (Nested) \u{c0} propos de { -brand } une sous division de { -global-brand } [{ -lang-term }].\n",
                        ),
                    ],
                ),
                file("_term.ftl", lang_term),
                file("about.ftl", "about-us = \u{c0} propos de { -brand } [{ -lang-term }].\n"),
            ],
        ),
    ];

    let locales = Locales::try_from_pairs(&pairs(&[
        ("en", None),
        ("en-GB", Some("en")),
        ("en-CA", Some("en-GB")),
        ("fr", None),
        ("fr-CA", Some("fr")),
    ]))
    .unwrap();

    let translator_builder = L10nBuilder::build_from_entries(root, Some(locales)).unwrap();
    let translator = translator_builder.build().unwrap();

    assert_eq!(
        translator.try_translate_with_args(&lc("en-CA"), "about", "about-us", None).unwrap(),
        "About Root Brand [Lang term]."
    );
    assert_eq!(
        translator
            .try_translate_with_args(&lc("en-CA"), "nested/about", "about-us", None)
            .unwrap(),
        "(Nested) About Nested Brand a Global Brand subdivision [Lang term]."
    );
    assert_eq!(
        translator.try_translate_with_args(&lc("fr"), "about", "about-us", None).unwrap(),
        "\u{c0} propos de Root Brand [Lang term]."
    );
    assert_eq!(
        translator
            .try_translate_with_args(&lc("fr"), "nested/about", "about-us", None)
            .unwrap(),
        "(Nested) \u{c0} propos de Nested Brand une sous division de Global Brand [Lang term]."
    );
}

#[test]
fn parse_missing_resource() {
    let root = vec![
        dir(
            "en",
            vec![
                file("resource-1.ftl", "first-key = First key [en]\n"),
                file("resource-2.ftl", "first-key = First key [en]\n"),
            ],
        ),
        dir("fr", vec![file("resource-1.ftl", "first-key = First key [fr]\n")]),
    ];

    let locales =
        Locales::try_from_pairs(&pairs(&[("en", None), ("fr", None), ("fr-CA", Some("fr"))]))
            .unwrap();

    let translator_builder = L10nBuilder::build_from_entries(root, Some(locales)).unwrap();
    let actual_err = match translator_builder.build() {
        Err(e) => e,
        Ok(_) => panic!("expected a build failure"),
    };
    let expected_err = BuildErrors(vec![BuildError::MissingResource {
        resource: "resource-2".to_string(),
        locales: vec![lc("fr")],
    }]);
    assert_eq!(actual_err, expected_err);
}

#[test]
fn global_named_resource() {
    let root = vec![file("global-resource.ftl", "key = value\n")];
    let locales = Locales::try_from_pairs(&pairs(&[("en", None)])).unwrap();
    let actual_err = match L10nBuilder::build_from_entries(root, Some(locales)) {
        Err(e) => e,
        Ok(_) => panic!("expected a parse failure"),
    };
    match actual_err {
        ParserError::GlobalNamedResource { .. } => (),
        _ => panic!("should return ParserError::GlobalNamedResource"),
    };
}

#[test]
fn parse_fluent_resources_only() {
    let root = vec![
        file(".DS_Store", ""),
        file("README.md", ""),
        file("_brand.ftl", "-b = B\n"),
        file("_ignored-resource.ftl", "-i = I\n"),
        dir(
            "en",
            vec![
                file(".DS_Store", ""),
                file("README.md", ""),
                file("_brand.ftl", "-b = B\n"),
                file("_errors.ftl", "-e = E\n"),
                dir(
                    "settings",
                    vec![
                        file("_ignored_file", ""),
                        file("ignored_file", ""),
                        file("_terms.ftl", "-t = T\n"),
                        file("account.ftl", "k = v\n"),
                        file("preferences.ftl", "k = v\n"),
                        dir(
                            "advanced",
                            vec![
                                file(".DS_Store", ""),
                                file("README.md", ""),
                                file("admin.ftl", "k = v\n"),
                            ],
                        ),
                    ],
                ),
            ],
        ),
        dir(
            "fr",
            vec![
                file(".DS_Store", ""),
                file("README.md", ""),
                file("_other_brand.ftl", "-b = B\n"),
                file("_errors.ftl", "-e = E\n"),
                dir(
                    "settings",
                    vec![
                        file("_settings_terms.ftl", "-t = T\n"),
                        file("account.ftl", "k = v\n"),
                        file("preferences.ftl", "k = v\n"),
                        dir(
                            "advanced",
                            vec![
                                file("_ignored_file", ""),
                                file("ignored_file", ""),
                                file(".DS_Store", ""),
                                file("README.md", ""),
                                file("admin.ftl", "k = v\n"),
                            ],
                        ),
                    ],
                ),
            ],
        ),
    ];

    let locales = Locales::try_from_pairs(&pairs(&[("en", None)])).unwrap();

    let translator_builder = L10nBuilder::build_from_entries(root, Some(locales)).unwrap();
    let actual_resources: HashSet<String> =
        translator_builder.named_resource_names().into_iter().collect();

    let expected_resources: HashSet<String> = [
        "settings/account",
        "settings/preferences",
        "settings/advanced/admin",
    ]
    .iter()
    .map(|s| s.to_string())
    .collect();

    assert_eq!(actual_resources, expected_resources);
    let _ = translator_builder.build().unwrap();
}

#[test]
fn required_functions() {
    let root = vec![
        file("_term.ftl", "-brand-creation-date = 2000"),
        dir(
            "en",
            vec![
                file("_term.ftl", "-brand = { LANG_TERM_EN_FUNCTION(\"Brand\") }\n"),
                file(
                    "about.ftl",
                    "about-us = About { -brand } since { SINCE_YEAR(-brand-creation, format: \"special\") }\ncontact-us = Contact us at { PHONE_NUMBER($country) } { PHONE_INFOS_EN() }.\n",
                ),
            ],
        ),
        dir(
            "en-CA",
            vec![
                file(
                    "_term.ftl",
                    "-canadian-brand = { LANG_TERM_EN_CA_FUNCTION(\"Canadian brand\") }\n-subdivision = { $first ->\n   *[uppercase] A\n    [lowercase] a\n} subdivision of { -brand }\n",
                ),
                file(
                    "about.ftl",
                    "about-us = About { -canadian-brand } { -subdivision(first: \"lowercase\") } since { SINCE_YEAR(-brand-creation, format: \"special\") }\n",
                ),
            ],
        ),
        dir(
            "fr",
            vec![
                file("_term.ftl", "-brand = { LANG_TERM_FR_FUNCTION(\"Brand\") }\n"),
                file(
                    "about.ftl",
                    "about-us = About { -brand } since { SINCE_YEAR(-brand-creation, format: \"special\") }\ncontact-us = Contact us at { PHONE_NUMBER($country) } { PHONE_INFOS_FR() }.\n",
                ),
            ],
        ),
    ];

    let locales = Locales::try_from_pairs(&pairs(&[
        ("en", None),
        ("en-GB", Some("en")),
        ("en-CA", Some("en-GB")),
        ("fr", None),
        ("fr-CA", Some("fr")),
    ]))
    .unwrap();

    let translator_builder = L10nBuilder::build_from_entries(root, Some(locales)).unwrap();
    let translator = translator_builder.build().unwrap();

    let expected: HashSet<String> = [
        "LANG_TERM_EN_FUNCTION",
        "SINCE_YEAR",
        "PHONE_NUMBER",
        "PHONE_INFOS_EN",
        "LANG_TERM_EN_CA_FUNCTION",
        "LANG_TERM_FR_FUNCTION",
        "PHONE_INFOS_FR",
    ]
    .iter()
    .map(|s| s.to_string())
    .collect();
    let actual: HashSet<String> = translator.required_functions().into_iter().collect();
    assert_eq!(actual, expected);
}
