use gik::network::parse_discover_refs_body;

#[test]
fn test_parse_discover_refs_body_found() {
    let body = "001e# service=git-receive-pack\n\
                000000a4fd4bf91c3700325211bbcf1b35f2178f04552506 HEAD\\0multi_ack ...\n\
                003ffd4bf91c3700325211bbcf1b35f2178f04552506 refs/heads/main\n\
                003f1b2871621c5b764b8637fc5873a17989e7f0805d refs/heads/soska\n\
                0000";

    let hash_main = parse_discover_refs_body(body, "main").unwrap();
    assert_eq!(hash_main.to_string(), "fd4bf91c3700325211bbcf1b35f2178f04552506");

    let hash_soska = parse_discover_refs_body(body, "soska").unwrap();
    assert_eq!(hash_soska.to_string(), "1b2871621c5b764b8637fc5873a17989e7f0805d");
}

#[test]
fn test_parse_discover_refs_body_not_found() {
    let body = "001e# service=git-receive-pack\n0000";
    assert_eq!(parse_discover_refs_body(body, "main"), None);
}

#[test]
fn refs_body_cut_inside_character_is_detected() {
    let body = "é012345678901234567890123456789012345678 refs/heads/main\n";
    assert!(gik::network::refs_body_cuts_char(body, "main"));
    assert!(!gik::network::refs_body_cuts_char("abc refs/heads/main\n", "main"));
}

#[test]
fn push_prefix_is_a_pkt_line_and_flush() {
    let local = gik::hash::Hash([0x11; 20]);
    let prefix = gik::network::push_request_prefix(&local, None, "main");
    let cmd = format!("{} {} refs/heads/main\0report-status", "0".repeat(40), "11".repeat(20));
    let expected = format!("{:04x}{}0000", cmd.len() + 4, cmd);
    assert_eq!(prefix, expected.into_bytes());
}

#[test]
fn fetch_body_with_have_line() {
    let want = gik::hash::Hash([0xab; 20]);
    let have = gik::hash::Hash([0xcd; 20]);
    let body = gik::network::fetch_request_body(&want, Some(&have));
    let expected = format!(
        "003cwant {} multi_ack\n00000032have {}\n0009done\n",
        "ab".repeat(20),
        "cd".repeat(20)
    );
    assert_eq!(body, expected);
}

#[test]
fn fetch_body_without_have_line() {
    let want = gik::hash::Hash([0x01; 20]);
    let body = gik::network::fetch_request_body(&want, None);
    assert_eq!(body, format!("003cwant {} multi_ack\n00000009done\n", "01".repeat(20)));
}

#[test]
fn basic_auth_encodes_user_git() {
    assert_eq!(gik::network::basic_auth_value("tok"), "Basic Z2l0OnRvaw==");
}
