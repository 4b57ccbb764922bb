use backtor::shell::{choose_shell, parse_u32_bytes, shell_from_passwd, split_bytes, trim_ascii_ws};

const PASSWD: &[u8] = b"root:x:0:0:root:/root:/bin/bash\n\
daemon:x:1:1:daemon:/usr/sbin:/usr/sbin/nologin\n\
user:x:1000:1000:A User:/home/user:/bin/zsh\n";

#[test]
fn finds_the_shell_of_a_user_id() {
    assert_eq!(shell_from_passwd(PASSWD, 0), Some(b"/bin/bash".to_vec()));
    assert_eq!(shell_from_passwd(PASSWD, 1000), Some(b"/bin/zsh".to_vec()));
}

#[test]
fn unknown_user_id_finds_nothing() {
    assert_eq!(shell_from_passwd(PASSWD, 42), None);
}

#[test]
fn malformed_records_are_skipped() {
    let content = b"garbage\n::::::\nuser:x:7:7::/home/user:/bin/dash\n";
    assert_eq!(shell_from_passwd(content, 7), Some(b"/bin/dash".to_vec()));
}

#[test]
fn shell_field_is_trimmed() {
    let content = b"user:x:5:5::/home/user: /bin/bash \n";
    assert_eq!(shell_from_passwd(content, 5), Some(b"/bin/bash".to_vec()));
}

#[test]
fn empty_shell_field_finds_nothing() {
    let content = b"user:x:5:5::/home/user:   \n";
    assert_eq!(shell_from_passwd(content, 5), None);
}

#[test]
fn the_first_matching_record_wins() {
    let content = b"user:x:5:5::/h:/bin/one\nuser:x:5:5::/h:/bin/two\n";
    assert_eq!(shell_from_passwd(content, 5), Some(b"/bin/one".to_vec()));
}

#[test]
fn env_override_wins() {
    let r = choose_shell(Some(b"/bin/fish".to_vec()), Some(b"/bin/bash".to_vec()));
    assert_eq!(r, b"/bin/fish".to_vec());
}

#[test]
fn empty_env_override_falls_through_to_the_database() {
    let r = choose_shell(Some(Vec::new()), Some(b"/bin/bash".to_vec()));
    assert_eq!(r, b"/bin/bash".to_vec());
}

#[test]
fn without_any_answer_the_default_shell_is_used() {
    assert_eq!(choose_shell(None, None), b"/bin/sh".to_vec());
    assert_eq!(choose_shell(Some(Vec::new()), Some(Vec::new())), b"/bin/sh".to_vec());
}

#[test]
fn decimal_parsing_matches_the_usual_rules() {
    assert_eq!(parse_u32_bytes(b"123"), Some(123));
    assert_eq!(parse_u32_bytes(b"+7"), Some(7));
    assert_eq!(parse_u32_bytes(b"0"), Some(0));
    assert_eq!(parse_u32_bytes(b"4294967295"), Some(u32::MAX));
    assert_eq!(parse_u32_bytes(b"4294967296"), None);
    assert_eq!(parse_u32_bytes(b""), None);
    assert_eq!(parse_u32_bytes(b"+"), None);
    assert_eq!(parse_u32_bytes(b"12a"), None);
    assert_eq!(parse_u32_bytes(b"-1"), None);
}

#[test]
fn splitting_keeps_empty_segments() {
    let parts = split_bytes(b"a:b::c", 58);
    assert_eq!(
        parts,
        vec![b"a".to_vec(), b"b".to_vec(), Vec::new(), b"c".to_vec()]
    );
    assert_eq!(split_bytes(b"", 58), vec![Vec::<u8>::new()]);
    assert_eq!(split_bytes(b"x:", 58), vec![b"x".to_vec(), Vec::new()]);
}

#[test]
fn trimming_removes_ascii_whitespace_at_both_ends() {
    assert_eq!(trim_ascii_ws(b"  hi\t\r\n"), b"hi".to_vec());
    assert_eq!(trim_ascii_ws(b"hi"), b"hi".to_vec());
    assert_eq!(trim_ascii_ws(b" \t "), Vec::<u8>::new());
    assert_eq!(trim_ascii_ws(b""), Vec::<u8>::new());
    assert_eq!(trim_ascii_ws(b"a b"), b"a b".to_vec());
}
