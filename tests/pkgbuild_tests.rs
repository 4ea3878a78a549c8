use syspac::pkgbuild::{
    extract_value, parse_pkgname_output, parse_version_output, parse_version_simple,
    PackageVersion, RecipeError,
};

#[test]
fn test_parse_version_simple_basic() {
    let content = "pkgver=1.2.3\npkgrel=1\n";
    let result = parse_version_simple(content).unwrap();
    assert_eq!(result.pkgver, "1.2.3");
    assert_eq!(result.pkgrel, "1");
    assert_eq!(result.to_string(), "1.2.3-1");
}

#[test]
fn test_parse_version_simple_with_quotes() {
    let content = "pkgver=\"1.2.3\"\npkgrel='1'\n";
    let result = parse_version_simple(content).unwrap();
    assert_eq!(result.pkgver, "1.2.3");
    assert_eq!(result.pkgrel, "1");
}

#[test]
fn test_parse_version_simple_with_comments() {
    let content = "# This is a comment\npkgver=1.2.3\n# Another comment\npkgrel=1\n";
    let result = parse_version_simple(content).unwrap();
    assert_eq!(result.pkgver, "1.2.3");
    assert_eq!(result.pkgrel, "1");
}

#[test]
fn test_extract_value() {
    assert_eq!(extract_value("pkgver=1.2.3", "pkgver="), "1.2.3");
    assert_eq!(extract_value("pkgver=\"1.2.3\"", "pkgver="), "1.2.3");
    assert_eq!(extract_value("pkgver='1.2.3'", "pkgver="), "1.2.3");
    assert_eq!(extract_value("pkgver=  1.2.3  ", "pkgver="), "1.2.3");
}

#[test]
fn extract_value_strips_one_pair_only() {
    assert_eq!(extract_value("pkgver=\"\"1.0\"\"", "pkgver="), "\"1.0\"");
    assert_eq!(extract_value("pkgver=\"1.0'", "pkgver="), "\"1.0'");
    assert_eq!(extract_value("pkgver=\"", "pkgver="), "\"");
    assert_eq!(extract_value("pkgver=  '2.0'  ", "pkgver="), "2.0");
    assert_eq!(extract_value("pkgver=", "pkgver="), "");
}

#[test]
fn version_string_joins_with_one_hyphen() {
    let v = PackageVersion { pkgver: String::from("1.2.3"), pkgrel: String::from("1") };
    assert_eq!(v.to_string(), "1.2.3-1");
    let w = PackageVersion { pkgver: String::from("2.5.1"), pkgrel: String::from("3") };
    assert_eq!(w.to_string(), "2.5.1-3");
}

#[test]
fn simple_parse_last_assignment_wins_and_crlf() {
    let content = "pkgver=1.0\r\npkgrel=1\r\npkgver=2.0\r\n";
    let result = parse_version_simple(content).unwrap();
    assert_eq!(result.pkgver, "2.0");
    assert_eq!(result.pkgrel, "1");
    assert_eq!(result.to_string(), "2.0-1");
}

#[test]
fn simple_parse_indented_assignment() {
    let result = parse_version_simple("  pkgver=3.1  \n\tpkgrel=2\n").unwrap();
    assert_eq!(result.pkgver, "3.1");
    assert_eq!(result.pkgrel, "2");
}

#[test]
fn simple_parse_missing_fields() {
    assert!(matches!(parse_version_simple(""), Err(RecipeError::MissingVersion)));
    assert!(matches!(parse_version_simple("pkgrel=1\n"), Err(RecipeError::MissingVersion)));
    assert!(matches!(parse_version_simple("pkgver=1\n"), Err(RecipeError::MissingRelease)));
    assert!(matches!(
        parse_version_simple("# pkgver=1\npkgrel=1\n"),
        Err(RecipeError::MissingVersion)
    ));
}

#[test]
fn version_output_reads_two_lines() {
    let v = parse_version_output("2.5.1\n3\n").unwrap();
    assert_eq!(v.pkgver, "2.5.1");
    assert_eq!(v.pkgrel, "3");
    assert_eq!(v.to_string(), "2.5.1-3");
    let w = parse_version_output("  1.0 \n 2 \nextra\n").unwrap();
    assert_eq!(w.to_string(), "1.0-2");
}

#[test]
fn version_output_errors() {
    assert!(matches!(parse_version_output(""), Err(RecipeError::MissingVersion)));
    assert!(matches!(parse_version_output("1.0\n"), Err(RecipeError::MissingRelease)));
    assert!(matches!(parse_version_output("\n1\n"), Err(RecipeError::EmptyVersion)));
    assert!(matches!(parse_version_output("1.0\n  \n"), Err(RecipeError::EmptyRelease)));
}

#[test]
fn pkgname_output() {
    assert_eq!(parse_pkgname_output("  test-package\n").unwrap(), "test-package");
    assert!(matches!(parse_pkgname_output(" \n"), Err(RecipeError::EmptyName)));
    assert!(matches!(parse_pkgname_output(""), Err(RecipeError::EmptyName)));
}
