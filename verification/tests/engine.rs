use dix::package::Package;
use dix::parse::ParseError;
use dix::parse::parse_name_and_version;
use dix::version::DiffTag;
use dix::version::TokenKind;
use dix::version::align_tokens;
use dix::version::deduplicate_versions;
use dix::version::tokenize;

fn prefix() -> String {
    let mut p = String::from("/nix/store/");
    for _ in 0..32 {
        p.push('a');
    }
    p.push('-');
    assert_eq!(p.chars().count(), 44);
    p
}

fn path(rest: &str) -> String {
    let mut p = prefix();
    p.push_str(rest);
    p
}

#[test]
fn parse_name_with_version() {
    let p = path("foo-1.2.3");
    let (name, version) = parse_name_and_version(&p).unwrap();
    assert_eq!(name, "foo");
    assert_eq!(version, Some("1.2.3"));
}

#[test]
fn parse_is_deterministic() {
    let p = path("openssl-3.0.12");
    let first = parse_name_and_version(&p).unwrap();
    let second = parse_name_and_version(&p).unwrap();
    assert_eq!(first, second);
}

#[test]
fn parse_name_without_version() {
    let p = path("hello");
    let (name, version) = parse_name_and_version(&p).unwrap();
    assert_eq!(name, "hello");
    assert_eq!(version, None);
}

#[test]
fn parse_name_is_lazy() {
    let p = path("foo-bar-1.2");
    let (name, version) = parse_name_and_version(&p).unwrap();
    assert_eq!(name, "foo-bar");
    assert_eq!(version, Some("1.2"));
}

#[test]
fn parse_dash_without_digit_stays_in_name() {
    let p = path("gcc-wrapper");
    let (name, version) = parse_name_and_version(&p).unwrap();
    assert_eq!(name, "gcc-wrapper");
    assert_eq!(version, None);
}

#[test]
fn parse_too_short_identifier() {
    assert_eq!(parse_name_and_version("tooshort"), Err(ParseError::TooShort));
}

#[test]
fn parse_prefix_only_identifier() {
    let p = prefix();
    assert_eq!(parse_name_and_version(&p), Err(ParseError::Malformed));
}

#[test]
fn deduplicate_collapses_duplicates_with_count() {
    let mut versions = vec![String::from("1.0"), String::from("1.0")];
    deduplicate_versions(&mut versions);
    assert_eq!(versions, vec![String::from("1.0 * 2")]);
}

#[test]
fn deduplicate_sorts() {
    let mut versions = vec![String::from("2.0"), String::from("1.0")];
    deduplicate_versions(&mut versions);
    assert_eq!(versions, vec![String::from("1.0"), String::from("2.0")]);
}

#[test]
fn deduplicate_two_digit_count() {
    let mut versions = vec![String::from("1.0"); 12];
    deduplicate_versions(&mut versions);
    assert_eq!(versions, vec![String::from("1.0 * 12")]);
}

#[test]
fn deduplicate_is_idempotent_on_example() {
    let mut versions = vec![String::from("2.0"), String::from("1.0"), String::from("1.0")];
    deduplicate_versions(&mut versions);
    let once = versions.clone();
    deduplicate_versions(&mut versions);
    assert_eq!(versions, once);
    assert_eq!(once, vec![String::from("1.0 * 2"), String::from("2.0")]);
}

#[test]
fn tokenize_splits_digit_and_separator_runs() {
    let toks = tokenize("1.22-rc3");
    let texts: Vec<&str> = toks.iter().map(|t| t.text.as_str()).collect();
    assert_eq!(texts, vec!["1", ".", "22", "-", "rc", "3"]);
    assert_eq!(toks[0].kind, TokenKind::Comparable);
    assert_eq!(toks[1].kind, TokenKind::Literal);
    assert_eq!(toks[4].kind, TokenKind::Comparable);
}

#[test]
fn align_identical_versions_has_no_differing_tokens() {
    let old = tokenize("1.2.3");
    let new = tokenize("1.2.3");
    let tagged = align_tokens(&old, &new);
    assert_eq!(tagged.len(), 5);
    assert!(tagged.iter().all(|t| t.tag == DiffTag::Unchanged));
}

#[test]
fn align_highlights_only_the_differing_run() {
    let old = tokenize("1.2.3");
    let new = tokenize("1.2.4");
    let tagged = align_tokens(&old, &new);
    let texts: Vec<(&str, DiffTag)> = tagged.iter().map(|t| (t.text.as_str(), t.tag)).collect();
    assert_eq!(
        texts,
        vec![
            ("1", DiffTag::Unchanged),
            (".", DiffTag::Unchanged),
            ("2", DiffTag::Unchanged),
            (".", DiffTag::Unchanged),
            ("3", DiffTag::Removed),
            ("4", DiffTag::Added),
        ]
    );
}

#[test]
fn align_one_sided_versions() {
    let old = tokenize("2.0");
    let empty = Vec::new();
    let tagged = align_tokens(&old, &empty);
    assert!(tagged.iter().all(|t| t.tag == DiffTag::Removed));
    assert_eq!(tagged.len(), 3);
}

#[test]
fn package_keeps_versions_unique() {
    let mut p = Package::new(String::from("foo"), String::from("1.0"), false);
    p.add_version(String::from("1.0"));
    assert_eq!(p.versions, vec![String::from("1.0")]);
    p.add_version(String::from("2.0"));
    assert_eq!(p.versions, vec![String::from("1.0"), String::from("2.0")]);
    assert_eq!(p.name, "foo");
    assert!(!p.is_dep);
}
