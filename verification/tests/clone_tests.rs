use gik::clone::{extract_repo_name, parse_url};

#[test]
fn test_parse_url() {
    let (clean, token) = parse_url("https://ghp_1234@github.com/Kyrylo/gik.git");
    assert_eq!(clean, "https://github.com/Kyrylo/gik.git");
    assert_eq!(token, Some("ghp_1234".to_string()));

    let (clean, token) = parse_url("https://github.com/Kyrylo/gik.git");
    assert_eq!(clean, "https://github.com/Kyrylo/gik.git");
    assert_eq!(token, None);
}

#[test]
fn test_extract_repo_name() {
    assert_eq!(extract_repo_name("https://github.com/Kyrylo/gik.git").unwrap(), "gik");
    assert_eq!(extract_repo_name("https://github.com/Kyrylo/gik").unwrap(), "gik");
    assert_eq!(extract_repo_name("https://github.com/Kyrylo/gik/").unwrap(), "gik");
}

#[test]
fn parse_url_keeps_other_schemes() {
    assert_eq!(parse_url("git@github.com:a/b.git"), ("git@github.com:a/b.git".to_string(), None));
}

#[test]
fn parse_url_http_with_token() {
    assert_eq!(
        parse_url("http://tok@host/x"),
        ("http://host/x".to_string(), Some("tok".to_string()))
    );
}

#[test]
fn parse_url_with_second_separator_is_kept() {
    assert_eq!(parse_url("https://a@b://c"), ("https://a@b://c".to_string(), None));
}

#[test]
fn extract_repo_name_fails_without_slash() {
    match extract_repo_name("gik.git") {
        Err(gik::error::GikError::Branch(m)) => assert_eq!(m, "Could not extract repository name from URL"),
        other => panic!("unexpected {:?}", other),
    }
}

#[test]
fn extract_repo_name_fails_on_bare_git_suffix() {
    assert!(extract_repo_name("https://host/.git").is_err());
}
