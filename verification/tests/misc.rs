use butido::dbshell::DbShellError;
use butido::dbshell::PgTool;
use butido::dbshell::tool_for_name;
use butido::repo::count_pkg_files;
use butido::source::HashType;
use butido::source::HashValue;
use butido::source::Source;
use butido::source::SourceHash;

#[test]
fn psql_and_pgcli_are_the_supported_shells() {
    assert_eq!(tool_for_name(b"psql"), Ok(PgTool::Psql));
    assert_eq!(tool_for_name(b"pgcli"), Ok(PgTool::PgCli));
    assert_eq!(tool_for_name(b"mysql"), Err(DbShellError::UnsupportedTool));
    assert_eq!(tool_for_name(b""), Err(DbShellError::UnsupportedTool));
}

#[test]
fn counts_package_definition_files() {
    let names: Vec<Vec<u8>> = vec![
        b"pkg.toml".to_vec(),
        b"README.md".to_vec(),
        b"pkg.toml".to_vec(),
        b"pkg.toml.bak".to_vec(),
    ];
    assert_eq!(count_pkg_files(&names), 2);
    assert_eq!(count_pkg_files(&Vec::new()), 0);
}

#[test]
fn source_keeps_its_declaration() {
    let url = url::Url::parse("https://example.com/src-1.0.tar.gz").unwrap();
    let hash = SourceHash::new(
        HashType::Sha256,
        HashValue::from(String::from(
            "e3b0c44298fc1c149afbf4c8996fb92427ae41e4649b934ca495991b7852b855",
        )),
    );
    let source = Source::new(url.clone(), hash);
    assert_eq!(source.url(), &url);
    assert!(matches!(source.hash().hashtype(), HashType::Sha256));
    assert_eq!(
        source.hash().value().0,
        "e3b0c44298fc1c149afbf4c8996fb92427ae41e4649b934ca495991b7852b855"
    );
    assert!(!source.download_manually());
}

#[test]
fn hash_values_compare_by_their_text() {
    let a = HashValue::from(String::from("abc"));
    let b = HashValue::from(String::from("abc"));
    let c = HashValue::from(String::from("abd"));
    assert!(a == b);
    assert!(a != c);
    assert_eq!(a.clone().0, "abc");
}
