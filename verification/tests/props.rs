use l10n::args::{merge_args, TranslationArgs};
use l10n::config::{default_paths, replace_root_var_in_path, Config, ConfigError, Paths};
use l10n::l10n::{L10nBuilder, TranslateError, TreeNode};
use l10n::locales::{Locale, Locales};

fn pairs(ps: &[(&str, Option<&str>)]) -> Vec<(String, Option<String>)> {
    ps.iter().map(|(m, f)| (m.to_string(), f.map(|s| s.to_string()))).collect()
}

fn lc(tag: &str) -> Locale {
    Locale::parse(tag).unwrap()
}

fn file(name: &str, contents: &str) -> TreeNode {
    TreeNode::File { name: name.to_string(), contents: contents.to_string() }
}

fn dir(name: &str, children: Vec<TreeNode>) -> TreeNode {
    TreeNode::Dir { name: name.to_string(), children }
}

#[test]
fn overriding_precedence() {
    // a global term, overridden by the catalog directory's shared term
    let root = vec![
        file("_global.ftl", "-t = A\n"),
        dir(
            "en",
            vec![file("_shared.ftl", "-t = B\n"), file("page.ftl", "shown = { -t }\n")],
        ),
    ];
    let locales = Locales::try_from_pairs(&pairs(&[("en", None)])).unwrap();
    let l10n = L10nBuilder::build_from_entries(root, Some(locales)).unwrap().build().unwrap();
    assert_eq!(l10n.try_translate_with_args(&lc("en"), "page", "shown", None).unwrap(), "B");

    // the catalog's own content has final say
    let root = vec![
        file("_global.ftl", "-t = A\n"),
        dir(
            "en",
            vec![
                file("_shared.ftl", "-t = B\n"),
                file("page.ftl", "-t = C\nshown = { -t }\n"),
            ],
        ),
    ];
    let locales = Locales::try_from_pairs(&pairs(&[("en", None)])).unwrap();
    let l10n = L10nBuilder::build_from_entries(root, Some(locales)).unwrap().build().unwrap();
    assert_eq!(l10n.try_translate_with_args(&lc("en"), "page", "shown", None).unwrap(), "C");
}

#[test]
fn fallback_layering() {
    // a term defined only at the general locale is inherited by the
    // specific one
    let root = vec![
        dir(
            "en",
            vec![file("_shared.ftl", "-t = from-en\n"), file("page.ftl", "shown = { -t }\n")],
        ),
        dir("en-CA", vec![file("page.ftl", "shown = { -t }\n")]),
    ];
    let locales =
        Locales::try_from_pairs(&pairs(&[("en", None), ("en-CA", Some("en"))])).unwrap();
    let l10n = L10nBuilder::build_from_entries(root, Some(locales)).unwrap().build().unwrap();
    assert_eq!(
        l10n.try_translate_with_args(&lc("en-CA"), "page", "shown", None).unwrap(),
        "from-en"
    );

    // a term redefined at the specific locale wins over the general one
    let root = vec![
        dir(
            "en",
            vec![file("_shared.ftl", "-t = from-en\n"), file("page.ftl", "shown = { -t }\n")],
        ),
        dir(
            "en-CA",
            vec![
                file("_shared.ftl", "-t = from-en-ca\n"),
                file("page.ftl", "shown = { -t }\n"),
            ],
        ),
    ];
    let locales =
        Locales::try_from_pairs(&pairs(&[("en", None), ("en-CA", Some("en"))])).unwrap();
    let l10n = L10nBuilder::build_from_entries(root, Some(locales)).unwrap().build().unwrap();
    assert_eq!(
        l10n.try_translate_with_args(&lc("en-CA"), "page", "shown", None).unwrap(),
        "from-en-ca"
    );
}

#[test]
fn missing_mandatory_resource_fails_and_defining_it_mends() {
    // a catalog defined only at a region variant, while its mandatory
    // ancestor lacks the file: the build must fail naming both
    let locales =
        Locales::try_from_pairs(&pairs(&[("en", None), ("en-CA", Some("en"))])).unwrap();
    let mut builder = L10nBuilder::new(locales);
    builder.add_named_resource("page", &Vec::new(), &lc("en-CA"), "k = v\n").unwrap();
    let err = match builder.build() {
        Err(e) => e,
        Ok(_) => panic!("expected a build failure"),
    };
    assert_eq!(err.0.len(), 1);
    match &err.0[0] {
        l10n::l10n::BuildError::MissingResource { resource, locales } => {
            assert_eq!(resource, "page");
            assert_eq!(locales.len(), 1);
            assert_eq!(locales[0].tag(), "en");
        }
        _ => panic!("expected a missing resource error"),
    }

    // defining it at the mandatory locale makes the build succeed
    let root = vec![
        dir("en", vec![file("page.ftl", "k = v\n")]),
        dir("en-CA", vec![file("page.ftl", "k = v\n")]),
    ];
    let locales =
        Locales::try_from_pairs(&pairs(&[("en", None), ("en-CA", Some("en"))])).unwrap();
    let builder = L10nBuilder::build_from_entries(root, Some(locales)).unwrap();
    assert!(builder.build().is_ok());
}

#[test]
fn end_to_end_welcome() {
    let root = vec![
        dir("en", vec![file("home.ftl", "welcome = Welcome {$name}!\n")]),
        dir("fr", vec![file("home.ftl", "welcome = Bienvenue {$first} {$last}.\n")]),
    ];
    let locales = Locales::try_from_pairs(&pairs(&[("en", None), ("fr", None)])).unwrap();
    let mut builder = L10nBuilder::build_from_entries(root, Some(locales)).unwrap();
    builder.set_use_isolating(false);
    let l10n = builder.build().unwrap();

    let mut args = TranslationArgs::new();
    args.set("name", "Alan");
    assert_eq!(
        l10n.try_translate_with_args(&lc("en"), "home", "welcome", Some(&args)).unwrap(),
        "Welcome Alan!"
    );

    // at fr without first/last the engine reports interpolation problems
    assert!(matches!(
        l10n.try_translate_with_args(&lc("fr"), "home", "welcome", None),
        Err(TranslateError::FormatErrors(_))
    ));
    // the union of both phrasings' requirements
    let mut vars = l10n.required_variables("home", "welcome").unwrap();
    vars.sort();
    assert_eq!(vars, vec!["first".to_string(), "last".to_string(), "name".to_string()]);
}

#[test]
fn merge_args_prefers_overriding() {
    let mut local = TranslationArgs::new();
    local.set("a", "1");
    local.set("b", "2");
    let mut over = TranslationArgs::new();
    over.set("b", "3");
    over.set("c", "4");
    let merged = merge_args(&local, &over);
    // observe through formatting
    let root = vec![dir("en", vec![file("m.ftl", "m = {$a}{$b}{$c}\n")])];
    let locales = Locales::try_from_pairs(&pairs(&[("en", None)])).unwrap();
    let mut builder = L10nBuilder::build_from_entries(root, Some(locales)).unwrap();
    builder.set_use_isolating(false);
    let l10n = builder.build().unwrap();
    assert_eq!(l10n.try_translate_with_args(&lc("en"), "m", "m", Some(&merged)).unwrap(), "134");
}

#[test]
fn config_path_selection() {
    let config = Config {
        paths: Paths {
            environments: vec![("release".to_string(), "/var/tree".to_string())],
            default: "tree".to_string(),
        },
        locales: None,
    };
    assert_eq!(config.path(&None).unwrap(), "tree");
    assert_eq!(config.path(&Some("release".to_string())).unwrap(), "/var/tree");
    assert!(matches!(
        config.path(&Some("staging".to_string())),
        Err(ConfigError::MissingPathError(_))
    ));

    let d = default_paths();
    assert_eq!(d.default, "l10n");
    assert!(d.environments.is_empty());
}

#[test]
fn root_var_replacement() {
    let root_path = "conf/settings.file".to_string();

    let mut path = "$ROOT/tree".to_string();
    replace_root_var_in_path(&mut path, &root_path);
    assert_eq!(path, "conf/tree");

    let mut path = "/var/tree".to_string();
    replace_root_var_in_path(&mut path, &root_path);
    assert_eq!(path, "/var/tree");

    let mut path = "plain".to_string();
    replace_root_var_in_path(&mut path, &root_path);
    assert_eq!(path, "plain");

    let mut path = "$ROOT/tree".to_string();
    replace_root_var_in_path(&mut path, &"settings.file".to_string());
    assert_eq!(path, "tree");
}

#[test]
fn missing_locales_are_listed() {
    let root = vec![dir("en", vec![file("page.ftl", "k = v\n")])];
    let locales = Locales::try_from_pairs(&pairs(&[("en", None), ("fr", None)])).unwrap();
    let err = match L10nBuilder::build_from_entries(root, Some(locales)) {
        Err(e) => e,
        Ok(_) => panic!("expected a parse failure"),
    };
    match err {
        l10n::l10n::ParserError::MissingLocales(v) => {
            assert_eq!(v.len(), 1);
            assert_eq!(v[0].tag(), "fr");
        }
        _ => panic!("expected missing locales"),
    }
}

#[test]
fn syntax_error_is_fatal() {
    let root = vec![dir("en", vec![file("page.ftl", "= broken ==\n")])];
    let locales = Locales::try_from_pairs(&pairs(&[("en", None)])).unwrap();
    let err = match L10nBuilder::build_from_entries(root, Some(locales)) {
        Err(e) => e,
        Ok(_) => panic!("expected a parse failure"),
    };
    assert!(matches!(err, l10n::l10n::ParserError::FluentParser { .. }));
}

#[test]
fn duplicate_registration_is_fatal() {
    let locales = Locales::try_from_pairs(&pairs(&[("en", None)])).unwrap();
    let mut builder = L10nBuilder::new(locales);
    builder.add_named_resource("home", &Vec::new(), &lc("en"), "k = v\n").unwrap();
    let err = builder.add_named_resource("home", &Vec::new(), &lc("en"), "k = w\n").unwrap_err();
    assert!(matches!(err, l10n::l10n::ParserError::DuplicateResource { .. }));
}
