use cmux_env::dotenv::{parse_dotenv, strip_quotes, DotenvError};
use cmux_env::protocol::{parse_kv, KvError};

fn entries(v: &[(&str, &str)]) -> Vec<(String, String)> {
    v.iter().map(|(k, val)| (k.to_string(), val.to_string())).collect()
}

#[test]
fn parses_pairs_and_skips_comments_and_blanks() {
    let parsed = parse_dotenv("FOO=bar\n# comment\nBAZ=qux\n").unwrap();
    assert_eq!(parsed, entries(&[("FOO", "bar"), ("BAZ", "qux")]));
    let parsed = parse_dotenv("\n\n  \nA=1").unwrap();
    assert_eq!(parsed, entries(&[("A", "1")]));
    assert_eq!(parse_dotenv("").unwrap(), entries(&[]));
}

#[test]
fn strips_an_export_prefix() {
    let parsed = parse_dotenv("export PATHISH=/usr/bin\nexport B=2\n").unwrap();
    assert_eq!(parsed, entries(&[("PATHISH", "/usr/bin"), ("B", "2")]));
}

#[test]
fn trims_names_and_values() {
    let parsed = parse_dotenv("  SPACED =  padded value  \n").unwrap();
    assert_eq!(parsed, entries(&[("SPACED", "padded value")]));
}

#[test]
fn strips_one_pair_of_quotes_from_values() {
    let parsed = parse_dotenv("A=\"x y\"\nB='single'\nC=\"unbalanced\n").unwrap();
    assert_eq!(parsed, entries(&[("A", "x y"), ("B", "single"), ("C", "\"unbalanced")]));
}

#[test]
fn empty_values_are_allowed() {
    let parsed = parse_dotenv("EMPTY=\n").unwrap();
    assert_eq!(parsed, entries(&[("EMPTY", "")]));
}

#[test]
fn rejects_an_invalid_key_with_its_line_number() {
    let err = parse_dotenv("GOOD=1\n2BAD=2\n").unwrap_err();
    assert!(matches!(err, DotenvError::InvalidKey { line: 2 }));
}

#[test]
fn rejects_a_line_without_an_equals_sign() {
    let err = parse_dotenv("GOOD=1\n# fine\nnot a pair\n").unwrap_err();
    assert!(matches!(err, DotenvError::InvalidLine { line: 3 }));
}

#[test]
fn strip_quotes_handles_edges() {
    assert_eq!(strip_quotes("\"ab\""), "ab");
    assert_eq!(strip_quotes("'ab'"), "ab");
    assert_eq!(strip_quotes("\"ab'"), "\"ab'");
    assert_eq!(strip_quotes("\""), "\"");
    assert_eq!(strip_quotes("\"\""), "");
    assert_eq!(strip_quotes("plain"), "plain");
}

#[test]
fn parse_kv_splits_at_the_first_equals() {
    assert_eq!(parse_kv("K=V").unwrap(), ("K".to_string(), "V".to_string()));
    assert_eq!(parse_kv("K=a=b").unwrap(), ("K".to_string(), "a=b".to_string()));
    assert_eq!(parse_kv("K=").unwrap(), ("K".to_string(), "".to_string()));
    assert!(matches!(parse_kv("KV"), Err(KvError::MissingEquals)));
    assert!(matches!(parse_kv("=V"), Err(KvError::EmptyKey)));
    assert!(matches!(parse_kv(""), Err(KvError::MissingEquals)));
}
