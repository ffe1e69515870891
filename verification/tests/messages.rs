use std::collections::HashSet;

use l10n::args::TranslationArgs;
use l10n::bundle::L10nBundle;
use l10n::l10n::{L10nBuilder, TranslateError};
use l10n::locales::{Locale, Locales};
use l10n::message::Message;
use l10n::resource::L10nResource;

fn pairs(ps: &[(&str, Option<&str>)]) -> Vec<(String, Option<String>)> {
    ps.iter().map(|(m, f)| (m.to_string(), f.map(|s| s.to_string()))).collect()
}

fn lc(tag: &str) -> Locale {
    Locale::parse(tag).unwrap()
}

#[test]
fn test() {
    let locales = Locales::try_from_pairs(&pairs(&[("en", None), ("fr", None)])).unwrap();
    let mut builder = L10nBuilder::new(locales);

    builder
        .add_named_resource("home", &Vec::new(), &lc("en"), "welcome = Welcome { $first-name }!")
        .unwrap();
    builder
        .add_named_resource(
            "home",
            &Vec::new(),
            &lc("fr"),
            "welcome = Bienvenue { $first-name } { $last-name }.",
        )
        .unwrap();

    let l10n = builder.build().unwrap();

    let mut args = TranslationArgs::new();
    args.set("first-name", "Alan Mathison");
    args.set("last-name", "Turing");

    let message = Message::new(&l10n, "home", "welcome", Some(args));

    assert_eq!(
        message.translate(&lc("fr")),
        "Bienvenue \u{2068}Alan Mathison\u{2069} \u{2068}Turing\u{2069}."
    );
    assert_eq!(message.translate(&lc("en")), "Welcome \u{2068}Alan Mathison\u{2069}!");

    let mut args_override = TranslationArgs::new();
    args_override.set("first-name", "Alan");
    assert_eq!(
        message.translate_with_args(&lc("fr"), Some(&args_override)),
        "Bienvenue \u{2068}Alan\u{2069} \u{2068}Turing\u{2069}."
    );
    assert_eq!(
        message.translate_with_args(&lc("en"), Some(&args_override)),
        "Welcome \u{2068}Alan\u{2069}!"
    );
}

fn build_resource(sources: Vec<(&str, String)>) -> L10nResource {
    let mut resource = L10nResource::new();
    for (lang, source) in sources {
        let locale = lc(lang);
        let mut bundle = L10nBundle::new(vec![locale.clone()]);
        let errors = bundle.add_source(&source);
        assert!(errors.is_empty());
        resource.add_bundle(locale, bundle);
    }
    resource
}

#[test]
fn required_variables() {
    let source_en = "hello = { $hello_var }\n";
    let resource = build_resource(vec![("en", source_en.to_string())]);
    let actual: HashSet<String> = resource.required_variables("hello").unwrap().into_iter().collect();
    let expected: HashSet<String> = ["hello_var"].iter().map(|s| s.to_string()).collect();
    assert_eq!(actual, expected);

    let source_en = "hello = { $hello_var_en }\n";
    let source_fr = "hello = { $hello_var_fr }\n";
    let resource =
        build_resource(vec![("en", source_en.to_string()), ("fr", source_fr.to_string())]);
    let actual: HashSet<String> = resource.required_variables("hello").unwrap().into_iter().collect();
    let expected: HashSet<String> =
        ["hello_var_en", "hello_var_fr"].iter().map(|s| s.to_string()).collect();
    assert_eq!(actual, expected);

    // refer another message
    let source_en = "hello = { world }\nworld = { $world_var_en }\n";
    let source_fr = "hello = { $hello_var_fr }\nworld = { $world_var_fr }\n";
    let resource =
        build_resource(vec![("en", source_en.to_string()), ("fr", source_fr.to_string())]);
    let actual: HashSet<String> = resource.required_variables("hello").unwrap().into_iter().collect();
    let expected: HashSet<String> =
        ["world_var_en", "hello_var_fr"].iter().map(|s| s.to_string()).collect();
    assert_eq!(actual, expected);
    let actual: HashSet<String> = resource.required_variables("world").unwrap().into_iter().collect();
    let expected: HashSet<String> =
        ["world_var_en", "world_var_fr"].iter().map(|s| s.to_string()).collect();
    assert_eq!(actual, expected);

    // select expression: the selector and every variant count
    let source_en = "result = { CHECK_WON($result, $passing_result) ->\n    [passed] You have passed!\n   *[failed] You have failed by { MISSING_POINTS($result, $passing_result) }. { retry }\n}\nretry = { $remaining_tries ->\n    [0] You have no remaining tries :(\n    [1] You have only one remaining try, you can do it!\n   *[other] You have { $remaining_tries } remaining tries.\n}\nmissing_points = { $points ->\n    [1] only 1 point\n   *[other] $points points\n}\n";
    let resource = build_resource(vec![("en", source_en.to_string())]);
    let actual: HashSet<String> =
        resource.required_variables("result").unwrap().into_iter().collect();
    let expected: HashSet<String> =
        ["result", "passing_result", "remaining_tries"].iter().map(|s| s.to_string()).collect();
    assert_eq!(actual, expected);

    // referring terms: a term's variables are its own, not the caller's
    let source_en = "-brand = { $first ->\n   *[uppercase] Brand\n    [lowercase] brand\n} { $this_is_not_a_var_in_term }\n\nhello = Hello { $username } from the { -brand } team\nhello_lowercase = Hello { $username } from the { -brand(first: \"lowercase\") } team\n";
    let resource = build_resource(vec![("en", source_en.to_string())]);
    let actual: HashSet<String> = resource.required_variables("hello").unwrap().into_iter().collect();
    let expected: HashSet<String> = ["username"].iter().map(|s| s.to_string()).collect();
    assert_eq!(actual, expected);
    let actual: HashSet<String> =
        resource.required_variables("hello_lowercase").unwrap().into_iter().collect();
    let expected: HashSet<String> = ["username"].iter().map(|s| s.to_string()).collect();
    assert_eq!(actual, expected);

    // nested placeable
    let source_en = "hello = {{ $hello_var }}\n";
    let resource = build_resource(vec![("en", source_en.to_string())]);
    let actual: HashSet<String> = resource.required_variables("hello").unwrap().into_iter().collect();
    let expected: HashSet<String> = ["hello_var"].iter().map(|s| s.to_string()).collect();
    assert_eq!(actual, expected);
}

#[test]
fn required_variables_union_of_phrasings() {
    // the English phrasing needs {name}; the French one {first} and {last}:
    // a caller must satisfy the union to be safe for every locale
    let resource = build_resource(vec![
        ("en", "welcome = Welcome { $name }!\n".to_string()),
        ("fr", "welcome = Bienvenue { $first } { $last }.\n".to_string()),
    ]);
    let actual: HashSet<String> =
        resource.required_variables("welcome").unwrap().into_iter().collect();
    let expected: HashSet<String> =
        ["name", "first", "last"].iter().map(|s| s.to_string()).collect();
    assert_eq!(actual, expected);
}

#[test]
fn translate_error_variants() {
    let resource = build_resource(vec![(
        "en",
        "hello = Hi\n    .title = Greeting\nbare =\n    .only = attribute\n".to_string(),
    )]);

    assert!(matches!(
        resource.translate(&lc("fr"), "hello", None),
        Err(TranslateError::LocaleNotSupported { .. })
    ));
    assert!(matches!(
        resource.translate(&lc("en"), "missing", None),
        Err(TranslateError::MessageIdNotExists { .. })
    ));
    assert!(matches!(
        resource.translate(&lc("en"), "hello.nope", None),
        Err(TranslateError::MessageAttributeNotExists { .. })
    ));
    assert!(matches!(
        resource.translate(&lc("en"), "bare", None),
        Err(TranslateError::MessageIdValueNotExists { .. })
    ));
    assert_eq!(resource.translate(&lc("en"), "hello", None).unwrap(), "Hi");
    assert_eq!(resource.translate(&lc("en"), "hello.title", None).unwrap(), "Greeting");
}

#[test]
fn format_failure_is_reported() {
    let resource = build_resource(vec![("en", "welcome = Welcome { $name }!\n".to_string())]);
    // no argument for {$name}: the engine reports interpolation problems
    assert!(matches!(
        resource.translate(&lc("en"), "welcome", None),
        Err(TranslateError::FormatErrors(_))
    ));
}
