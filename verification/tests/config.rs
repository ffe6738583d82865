use mdbook_linkcheck::config::{
    default_cache_timeout, default_user_agent, interpolate_env, split_header, Config, HeaderError,
    HttpHeader, InterpolationError, LogLevel, WarningPolicy,
};
use mdbook_linkcheck::hashed_regex::HashedRegex;

fn env(pairs: &[(&str, &str)]) -> Vec<(String, String)> {
    pairs.iter().map(|(k, v)| (k.to_string(), v.to_string())).collect()
}

#[test]
fn interpolation() {
    let env = env(&[("SUPER_SECRET_TOKEN", "abcdefg123456")]);
    let header = HttpHeader {
        name: "Authorization".to_string(),
        value: "Basic $SUPER_SECRET_TOKEN".into(),
    };
    let should_be = "Basic abcdefg123456".to_string();

    let got = header.interpolate(&env).unwrap();

    assert_eq!(got, should_be);
}

#[test]
fn interpolation_in_the_middle() {
    let env = env(&[("A", "1"), ("LONG_name_9", "two")]);
    assert_eq!(interpolate_env("x $A y", &env).unwrap(), "x 1 y");
    assert_eq!(interpolate_env("$LONG_name_9-$A.", &env).unwrap(), "two-1.");
}

#[test]
fn escapes() {
    let env = env(&[]);
    assert_eq!(interpolate_env("a\\$b", &env).unwrap(), "a$b");
    assert_eq!(interpolate_env("a\\\\b", &env).unwrap(), "a\\b");
    assert_eq!(interpolate_env("a\\nb", &env).unwrap(), "a\\nb");
    assert_eq!(interpolate_env("tail\\", &env).unwrap(), "tail\\");
}

#[test]
fn missing_variable_is_named() {
    let env = env(&[("A", "1")]);
    match interpolate_env("Basic $TOKEN!", &env) {
        Err(InterpolationError::MissingVariable(name)) => assert_eq!(name, "TOKEN"),
        other => panic!("unexpected: {:?}", other),
    }
}

#[test]
fn first_variable_of_a_name_wins() {
    let env = env(&[("AB", "1"), ("AB", "2")]);
    assert_eq!(interpolate_env("$AB", &env).unwrap(), "1");
}

#[test]
fn reference_of_one_character_is_replaced_wherever_it_stands() {
    let env = env(&[("A", "1")]);
    assert_eq!(interpolate_env("x$A", &env).unwrap(), "x1");
    assert_eq!(interpolate_env("x$A ", &env).unwrap(), "x1 ");
    assert_eq!(interpolate_env("$A", &env).unwrap(), "1");
}

#[test]
fn a_name_ends_at_the_first_character_that_is_none() {
    let env = env(&[("A", "1"), ("A_b2", "2")]);
    assert_eq!(interpolate_env("$A-$A_b2.", &env).unwrap(), "1-2.");
    assert_eq!(interpolate_env("$A$A", &env).unwrap(), "11");
    match interpolate_env("a $-b", &env) {
        Err(InterpolationError::MissingVariable(name)) => assert_eq!(name, ""),
        other => panic!("unexpected: {:?}", other),
    }
    match interpolate_env("a $", &env) {
        Err(InterpolationError::MissingVariable(name)) => assert_eq!(name, ""),
        other => panic!("unexpected: {:?}", other),
    }
}

#[test]
fn control_characters_are_no_header_value() {
    let env = env(&[("NL", "a\nb"), ("TAB", "a\tb"), ("DEL", "\u{7f}")]);
    assert!(matches!(interpolate_env("$NL.", &env), Err(InterpolationError::InvalidValue)));
    assert!(matches!(interpolate_env("$DEL.", &env), Err(InterpolationError::InvalidValue)));
    assert_eq!(interpolate_env("$TAB.", &env).unwrap(), "a\tb.");
    assert_eq!(interpolate_env("caf\u{e9}", &env).unwrap(), "caf\u{e9}");
}

#[test]
fn parse_a_header() {
    let header = HttpHeader::from_str("Accept: html/text").unwrap();
    assert_eq!(header.name, "accept");
    assert_eq!(header.value, "html/text");
    assert_eq!(header.to_string(), "accept: html/text");

    let header = HttpHeader::from_str("Authorization: Basic $TOKEN: x").unwrap();
    assert_eq!(header.name, "authorization");
    assert_eq!(header.value, "Basic $TOKEN: x");
}

#[test]
fn refuse_a_bad_header() {
    assert_eq!(HttpHeader::from_str("no separator").unwrap_err(), HeaderError::NotKeyValue);
    assert_eq!(HttpHeader::from_str("key:value").unwrap_err(), HeaderError::NotKeyValue);
    assert_eq!(HttpHeader::from_str("").unwrap_err(), HeaderError::NotKeyValue);
    assert_eq!(HttpHeader::from_str("bad name: x").unwrap_err(), HeaderError::InvalidName);
    assert_eq!(HttpHeader::from_str(": x").unwrap_err(), HeaderError::InvalidName);
}

#[test]
fn defaults() {
    let cfg = Config::default();
    assert!(!cfg.follow_web_links);
    assert!(!cfg.traverse_parent_directories);
    assert!(cfg.follow_symlinks);
    assert!(cfg.exclude.is_empty());
    assert_eq!(cfg.user_agent, "mdbook-linkcheck-0.7.7");
    assert_eq!(cfg.cache_timeout, 43200);
    assert_eq!(cfg.cache_timeout, 60 * 60 * 12);
    assert_eq!(cfg.warning_policy, WarningPolicy::Warn);
    assert!(cfg.http_headers.is_empty());
    assert_eq!(default_cache_timeout(), 43200);
    assert_eq!(default_user_agent(), "mdbook-linkcheck-0.7.7");
    assert_eq!(WarningPolicy::default(), WarningPolicy::Warn);
}

#[test]
fn log_levels() {
    assert_eq!(WarningPolicy::Error.to_log_level(), LogLevel::Error);
    assert_eq!(WarningPolicy::Warn.to_log_level(), LogLevel::Warn);
    assert_eq!(WarningPolicy::Ignore.to_log_level(), LogLevel::Debug);
}

#[test]
fn skip_excluded_links() {
    let cfg = Config {
        exclude: vec![HashedRegex::new("forbidden\\.com").unwrap()],
        ..Config::default()
    };
    assert!(cfg.should_skip("https://forbidden.com/x"));
    assert!(!cfg.should_skip("https://forbidden-com.org/x"));
    assert!(!Config::default().should_skip("https://forbidden.com/x"));
}

#[test]
fn headers_that_fail_are_left_out() {
    let cfg = Config {
        http_headers: vec![
            (
                HashedRegex::new("crates\\.io").unwrap(),
                vec![
                    HttpHeader::from_str("Accept: text/html").unwrap(),
                    HttpHeader::from_str("X-Token: $MISSING").unwrap(),
                    HttpHeader::from_str("Authorization: Basic $TOKEN").unwrap(),
                ],
            ),
            (HashedRegex::new("example").unwrap(), vec![]),
        ],
        ..Config::default()
    };
    let env = env(&[("TOKEN", "abc")]);
    let got = cfg.interpolate_headers(&env);
    assert_eq!(
        got,
        vec![
            vec![
                ("accept".to_string(), "text/html".to_string()),
                ("authorization".to_string(), "Basic abc".to_string()),
            ],
            vec![],
        ]
    );
}

#[test]
fn patterns_compare_by_text() {
    assert!(HashedRegex::new("[0-9]*").unwrap() != HashedRegex::new("\\d*").unwrap());
    assert!(HashedRegex::new("a+").unwrap() == HashedRegex::new("a+").unwrap());
    assert_eq!(HashedRegex::new("a+").unwrap().as_str(), "a+");
    let err = HashedRegex::new("(").unwrap_err();
    assert_eq!(err.pattern, "(");
    assert!(HashedRegex::new("a+").unwrap().matches("baab"));
    assert!(!HashedRegex::new("a+").unwrap().matches("bb"));
}

#[test]
fn a_header_is_split_at_its_first_separator() {
    assert_eq!(
        split_header("Accept: html/text"),
        Some(("Accept".to_string(), "html/text".to_string()))
    );
    assert_eq!(split_header("a: b: c"), Some(("a".to_string(), "b: c".to_string())));
    assert_eq!(split_header(": "), Some((String::new(), String::new())));
    assert_eq!(split_header("a:b"), None);
    assert_eq!(split_header("a :b"), None);
    assert_eq!(split_header(":"), None);
    assert_eq!(split_header(""), None);
}
