use bsky_cli::client::{BlueSkyClient, BASE_URL};
use bsky_cli::lines::{parse_users, ListError};
use bsky_cli::users::{filter_users, list_users, UsersFile};

fn strings(items: &[&str]) -> Vec<String> {
    items.iter().map(|s| s.to_string()).collect()
}

fn file(text: &str) -> UsersFile {
    UsersFile::Read(text.as_bytes().to_vec())
}

#[test]
fn filter_keeps_matching_users_in_order() {
    let users = strings(&["alice", "bob", "alice2", "carol"]);
    let r = filter_users(users, Some("alice".to_string()), 10);
    assert_eq!(r, strings(&["alice", "alice2"]));
}

#[test]
fn malformed_utf8_forms_are_line_errors() {
    // an overlong encoding of NUL
    assert_eq!(parse_users(&vec![0xc0, 0x80]), Err(ListError::LineDecode));
    // an encoded surrogate
    assert_eq!(parse_users(&vec![0xed, 0xa0, 0x80, b'\n']), Err(ListError::LineDecode));
    // beyond the last scalar value
    assert_eq!(parse_users(&vec![0xf4, 0x90, 0x80, 0x80]), Err(ListError::LineDecode));
    assert_eq!(parse_users(&vec![0xf0, 0x9f, 0x98, 0x80]), Ok(vec!["\u{1f600}".to_string()]));
}

#[test]
fn list_from_file_with_filter() {
    let r = list_users(file("alice\nbob\nalice2\ncarol\n"), Some("alice".to_string()), 10);
    assert_eq!(r, Ok(strings(&["alice", "alice2"])));
}

#[test]
fn no_filter_limit_one() {
    let r = filter_users(strings(&["alice", "bob"]), None, 1);
    assert_eq!(r, strings(&["alice"]));
    let r = list_users(file("alice\nbob\n"), None, 1);
    assert_eq!(r, Ok(strings(&["alice"])));
}

#[test]
fn empty_file_lists_nothing() {
    assert_eq!(list_users(file(""), None, 5), Ok(Vec::new()));
    assert_eq!(list_users(file(""), Some("a".to_string()), 5), Ok(Vec::new()));
}

#[test]
fn filter_without_match_lists_nothing() {
    let r = list_users(file("alice\nbob\ncarol\n"), Some("zzz".to_string()), 10);
    assert_eq!(r, Ok(Vec::new()));
}

#[test]
fn missing_file_is_an_open_error() {
    let r = list_users(UsersFile::CannotOpen, None, 10);
    assert_eq!(r, Err(ListError::FileOpen));
}

#[test]
fn failed_read_is_a_line_error() {
    let r = list_users(UsersFile::CannotRead, Some("a".to_string()), 10);
    assert_eq!(r, Err(ListError::LineDecode));
}

#[test]
fn invalid_utf8_is_a_line_error() {
    let r = list_users(UsersFile::Read(vec![b'a', b'\n', 0xff, 0xfe, b'\n']), None, 10);
    assert_eq!(r, Err(ListError::LineDecode));
    assert_eq!(parse_users(&vec![0xc3]), Err(ListError::LineDecode));
}

#[test]
fn result_never_longer_than_limit() {
    let users = strings(&["a", "b", "c", "d", "e"]);
    for limit in 0..8usize {
        let r = filter_users(users.clone(), None, limit);
        assert!(r.len() <= limit);
        assert_eq!(r.len(), limit.min(5));
    }
}

#[test]
fn limit_zero_lists_nothing() {
    let r = list_users(file("alice\nbob\n"), None, 0);
    assert_eq!(r, Ok(Vec::new()));
}

#[test]
fn every_result_contains_filter() {
    let users = strings(&["xay", "b", "ya", "a", "", "bab"]);
    let r = filter_users(users, Some("a".to_string()), 10);
    assert!(r.iter().all(|u| u.contains("a")));
    assert_eq!(r, strings(&["xay", "ya", "a", "bab"]));
}

#[test]
fn filter_is_case_sensitive() {
    let r = filter_users(strings(&["Alice", "alice", "ALICE"]), Some("lic".to_string()), 10);
    assert_eq!(r, strings(&["Alice", "alice"]));
}

#[test]
fn result_keeps_file_order() {
    let users = strings(&["d1", "c", "b1", "a1", "e"]);
    let r = filter_users(users, Some("1".to_string()), 10);
    assert_eq!(r, strings(&["d1", "b1", "a1"]));
}

#[test]
fn listing_twice_gives_the_same() {
    let text = "carol\nalice\nbob\nalice2\nmalice\n";
    let first = list_users(file(text), Some("alice".to_string()), 2);
    let second = list_users(file(text), Some("alice".to_string()), 2);
    assert_eq!(first, second);
    let again = filter_users(first.clone().unwrap(), Some("alice".to_string()), 2);
    assert_eq!(Ok(again), first);
}

#[test]
fn empty_filter_keeps_everything() {
    let r = filter_users(strings(&["a", "", "b"]), Some(String::new()), 10);
    assert_eq!(r, strings(&["a", "", "b"]));
}

#[test]
fn blank_lines_are_empty_records() {
    assert_eq!(parse_users(&b"a\n\nb\n\n".to_vec()), Ok(strings(&["a", "", "b", ""])));
    let r = list_users(file("a\n\n"), None, 10);
    assert_eq!(r, Ok(strings(&["a", ""])));
}

#[test]
fn last_line_without_newline_counts() {
    assert_eq!(parse_users(&b"a\nb".to_vec()), Ok(strings(&["a", "b"])));
    assert_eq!(parse_users(&b"\n".to_vec()), Ok(strings(&[""])));
}

#[test]
fn carriage_return_dropped_only_before_newline() {
    assert_eq!(parse_users(&b"a\r\nb\r".to_vec()), Ok(strings(&["a", "b\r"])));
    assert_eq!(parse_users(&b"a\r\r\n".to_vec()), Ok(strings(&["a\r"])));
}

#[test]
fn multibyte_text_is_decoded() {
    let r = list_users(file("zoë\nzoe\n"), Some("ë".to_string()), 10);
    assert_eq!(r, Ok(strings(&["zoë"])));
}

#[test]
fn new_client_uses_default_address() {
    let client = BlueSkyClient::new("someone.example".to_string(), "SECRET-REDACTED".to_string());
    assert_eq!(client.base_url(), BASE_URL);
    assert_eq!(client.base_url(), "https://bsky.social/xrpc");
    client.post_message("hello", None);
    client.read_posts(20, None);
}
