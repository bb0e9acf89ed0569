use moon_workspace_core::glob_or_path::{FilePath, GlobOrPath, GlobPath, Uri};
use moon_workspace_core::text::{is_glob_like, standardize_separators};
use std::str::FromStr;

fn file(path: &str) -> GlobOrPath {
    GlobOrPath::File(FilePath(path.to_string()))
}

fn glob(pattern: &str) -> GlobOrPath {
    GlobOrPath::Glob(GlobPath(pattern.to_string()))
}

#[test]
fn bare_path_parses_as_file() {
    let parsed = GlobOrPath::parse("src/index.ts").unwrap();
    assert_eq!(parsed, file("src/index.ts"));
    assert!(!parsed.is_glob());
    assert_eq!(parsed.as_str(), "src/index.ts");
}

#[test]
fn bare_path_gets_forward_slashes() {
    let parsed = GlobOrPath::parse("src\\nested\\index.ts").unwrap();
    assert_eq!(parsed, file("src/nested/index.ts"));
}

#[test]
fn bare_glob_parses_as_glob() {
    let parsed = GlobOrPath::parse("src/**/*.ts").unwrap();
    assert_eq!(parsed, glob("src/**/*.ts"));
    assert!(parsed.is_glob());
    assert_eq!(parsed.as_str(), "src/**/*.ts");
}

#[test]
fn glob_question_mark_survives_escaping() {
    assert_eq!(GlobOrPath::parse("src/?.ts").unwrap(), glob("src/?.ts"));
    assert_eq!(GlobOrPath::parse("a?b?c").unwrap(), glob("a?b?c"));
}

#[test]
fn glob_characters_each_make_a_glob() {
    for value in ["a*", "a?", "[ab]", "a]", "{a,b}", "a}", "!a"] {
        assert!(GlobOrPath::parse(value).unwrap().is_glob(), "{value}");
    }
    assert!(!GlobOrPath::parse("plain/path.txt").unwrap().is_glob());
}

#[test]
fn explicit_file_protocol() {
    assert_eq!(GlobOrPath::parse("file://a/b.txt").unwrap(), file("a/b.txt"));
    // A file path under an explicit protocol stays a file, glob characters or not.
    assert_eq!(GlobOrPath::parse("file://a/*.txt").unwrap(), file("a/*.txt"));
}

#[test]
fn explicit_glob_protocol() {
    assert_eq!(GlobOrPath::parse("glob://a/*").unwrap(), glob("a/*"));
    assert_eq!(GlobOrPath::parse("glob://plain").unwrap(), glob("plain"));
}

#[test]
fn explicit_protocol_with_backslashes() {
    assert_eq!(GlobOrPath::parse("file://a\\b.txt").unwrap(), file("a/b.txt"));
}

#[test]
fn unsupported_protocol_is_refused() {
    let error = GlobOrPath::parse("http://example.com").unwrap_err();
    assert_eq!(
        error.message,
        "glob or path protocol `http://` is not supported, expected `file://` or `glob://`"
    );
    let error = GlobOrPath::from_value("http://example.com").unwrap_err();
    assert_eq!(error.scheme, "http");
    assert_eq!(
        error.message(),
        "glob or path protocol `http://` is not supported, expected `file://` or `glob://`"
    );
}

#[test]
fn empty_protocol_is_refused() {
    let error = GlobOrPath::from_value("://a").unwrap_err();
    assert_eq!(error.scheme, "");
}

#[test]
fn escape_lookalike_is_taken_back() {
    // A glob that already holds the escape text reads it back as `?`.
    assert_eq!(GlobOrPath::parse("*__QM__").unwrap(), glob("*?"));
}

#[test]
fn from_str_parses_too() {
    assert_eq!(GlobOrPath::from_str("a/*").unwrap(), glob("a/*"));
    assert_eq!("a/b".parse::<GlobOrPath>().unwrap(), file("a/b"));
    assert!("ftp://x".parse::<GlobOrPath>().is_err());
}

#[test]
fn create_uri_gives_protocols() {
    let uri = GlobOrPath::create_uri("a/b.txt").unwrap();
    assert_eq!((uri.scheme.as_str(), uri.path.as_str()), ("file", "a/b.txt"));
    let uri = GlobOrPath::create_uri("a\\*?.txt").unwrap();
    assert_eq!((uri.scheme.as_str(), uri.path.as_str()), ("glob", "a/*__QM__.txt"));
    let uri = GlobOrPath::create_uri("custom://x?y").unwrap();
    assert_eq!((uri.scheme.as_str(), uri.path.as_str(), uri.query.as_str()), ("custom", "x", "y"));
    let uri = GlobOrPath::create_uri("a?b").unwrap();
    assert_eq!((uri.scheme.as_str(), uri.path.as_str(), uri.query.as_str()), ("glob", "a__QM__b", ""));
}

#[test]
fn uri_splits_at_first_protocol() {
    let uri = Uri::parse("a://b://c").unwrap();
    assert_eq!((uri.scheme.as_str(), uri.path.as_str(), uri.query.as_str()), ("a", "b://c", ""));
    let uri = Uri::parse("file://a.txt?optional&x=1?y").unwrap();
    assert_eq!(
        (uri.scheme.as_str(), uri.path.as_str(), uri.query.as_str()),
        ("file", "a.txt", "optional&x=1?y")
    );
    assert!(Uri::parse("no protocol").is_none());
    assert!(Uri::parse("a:/b").is_none());
}

#[test]
fn standardize_separators_turns_backslashes() {
    assert_eq!(standardize_separators("a\\b\\c"), "a/b/c");
    assert_eq!(standardize_separators("a/b"), "a/b");
    assert_eq!(standardize_separators(&standardize_separators("x\\y")), "x/y");
    assert_eq!(standardize_separators("é\\ü"), "é/ü");
}

#[test]
fn glob_like_values() {
    assert!(is_glob_like("**/*"));
    assert!(is_glob_like("!negated"));
    assert!(!is_glob_like("src/lib.rs"));
    assert!(!is_glob_like(""));
}

#[test]
fn query_is_not_part_of_the_path() {
    assert_eq!(GlobOrPath::parse("file://a.txt?optional").unwrap(), file("a.txt"));
    assert_eq!(GlobOrPath::parse("glob://a/*?cache=false").unwrap(), glob("a/*"));
}
