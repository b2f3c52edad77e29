use logprep::parse::{extract_service, parse_log_line};
use logprep::text::split_lines;

#[test]
fn parses_full_syslog_line() {
    let rec = parse_log_line("Jan 1 12:00:00 host sshd[123]: Accepted password").unwrap();
    assert_eq!(rec.timestamp, "Jan");
    assert_eq!(rec.service, "12:00:00 host sshd");
    assert_eq!(rec.message, "Accepted password");
}

#[test]
fn parses_three_token_prefix() {
    let rec = parse_log_line("Jan host sshd[123]: Accepted password").unwrap();
    assert_eq!(rec.timestamp, "Jan");
    assert_eq!(rec.service, "sshd");
    assert_eq!(rec.message, "Accepted password");
}

#[test]
fn parses_without_pid() {
    let rec = parse_log_line("ts host kernel: something happened").unwrap();
    assert_eq!(rec.timestamp, "ts");
    assert_eq!(rec.service, "kernel");
    assert_eq!(rec.message, "something happened");
}

#[test]
fn service_with_trailing_space_is_trimmed() {
    let rec = parse_log_line("ts host svc [7]: msg").unwrap();
    assert_eq!(rec.service, "svc");
    assert_eq!(rec.message, "msg");
}

#[test]
fn unicode_whitespace_delimits_tokens() {
    let rec = parse_log_line("a\u{a0}b\u{a0}c: m").unwrap();
    assert_eq!(rec.timestamp, "a");
    assert_eq!(rec.service, "c");
    assert_eq!(rec.message, "m");
}

#[test]
fn rejects_line_without_colon() {
    assert!(parse_log_line("ts host service message").is_none());
}

#[test]
fn rejects_line_with_too_few_tokens() {
    assert!(parse_log_line("lonely").is_none());
    assert!(parse_log_line("two words").is_none());
    assert!(parse_log_line("").is_none());
}

#[test]
fn rejects_colon_with_empty_message() {
    assert!(parse_log_line("ts host svc:").is_none());
}

#[test]
fn whitespace_only_message_keeps_last_character() {
    let rec = parse_log_line("a b c:   ").unwrap();
    assert_eq!(rec.service, "c");
    assert_eq!(rec.message, " ");
}

#[test]
fn service_borrows_one_space_when_bracket_follows_whitespace() {
    let rec = parse_log_line("a b  [1]: m").unwrap();
    assert_eq!(rec.service, "");
    assert_eq!(rec.message, "m");
    assert!(parse_log_line("a b [1]: m").is_none());
}

#[test]
fn extracts_leftmost_service_token() {
    assert_eq!(extract_service("x sshd[42]: hello").unwrap(), "sshd");
    assert_eq!(extract_service("ab1[x] cd[2]: t").unwrap(), "cd");
    assert!(extract_service("nothing here").is_none());
    assert!(extract_service("bad[12x]: y").is_none());
}

#[test]
fn splits_lines_with_and_without_final_newline() {
    let r = split_lines("a\nb");
    assert_eq!(r, vec!["a".to_string(), "b".to_string()]);
    let r = split_lines("a\nb\n");
    assert_eq!(r, vec!["a".to_string(), "b".to_string()]);
    let r = split_lines("");
    assert!(r.is_empty());
    let r = split_lines("a\r\nb");
    assert_eq!(r, vec!["a".to_string(), "b".to_string()]);
    let r = split_lines("x\r");
    assert_eq!(r, vec!["x\r".to_string()]);
    let r = split_lines("a\n\nb");
    assert_eq!(r, vec!["a".to_string(), "".to_string(), "b".to_string()]);
}
