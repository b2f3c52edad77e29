use logprep::c_type::{Args, FilterError};
use logprep::filter::{filter_by_input, RunOutput, RunResult};
use logprep::matcher::Matcher;

fn args(filter: Option<&str>, regex: Option<&str>) -> Args {
    Args {
        path: "input.log".to_string(),
        filter: filter.map(|s| s.to_string()),
        regex: regex.map(|s| s.to_string()),
        list_services: false,
        dedup: false,
        json: false,
        output: None,
        summary: false,
    }
}

fn lines(ls: &[&str]) -> Vec<String> {
    ls.iter().map(|s| s.to_string()).collect()
}

fn run(a: &Args, ls: &[&str]) -> RunResult {
    match filter_by_input(a, &lines(ls)).unwrap() {
        RunOutput::Filtered(res) => res,
        RunOutput::Services(_) => panic!("unexpected services output"),
    }
}

#[test]
fn literal_filter_keeps_containing_lines() {
    let a = args(Some("Accepted"), None);
    let res = run(&a, &["Jan 1 12:00:00 host sshd[123]: Accepted password", "other line"]);
    assert_eq!(res.total, 2);
    assert_eq!(res.tentative, 1);
    assert_eq!(res.kept, 1);
    assert_eq!(res.kept_lines, vec![
        "Jan 1 12:00:00 host sshd[123]: Accepted password".to_string(),
    ]);
}

#[test]
fn scenario_accepted_password_record() {
    let a = args(Some("Accepted"), None);
    let res = run(&a, &["Jan 1 12:00:00 host sshd[123]: Accepted password"]);
    assert_eq!(res.kept, 1);
    assert_eq!(res.records.len(), 1);
    assert_eq!(res.records[0].timestamp, "Jan");
    assert_eq!(res.records[0].service, "12:00:00 host sshd");
    assert_eq!(res.records[0].message, "Accepted password");
}

#[test]
fn literal_takes_precedence_over_regex() {
    // the line satisfies the regex but not the literal: no match
    let a = args(Some("absent"), Some("pass"));
    let res = run(&a, &["sshd: password accepted"]);
    assert_eq!(res.tentative, 0);
    assert_eq!(res.kept, 0);
    // the line satisfies the literal but not the regex: match
    let a = args(Some("password"), Some("zzz"));
    let res = run(&a, &["sshd: password accepted"]);
    assert_eq!(res.tentative, 1);
}

#[test]
fn regex_matches_when_no_literal_configured() {
    let a = args(None, Some("^ss+hd"));
    let res = run(&a, &["sshd: up", "xsshd: up", "sssshd: up"]);
    assert_eq!(res.kept, 2);
    assert_eq!(res.kept_lines, vec!["sshd: up".to_string(), "sssshd: up".to_string()]);
}

#[test]
fn no_criterion_matches_nothing() {
    let a = args(None, None);
    let res = run(&a, &["anything", "at all"]);
    assert_eq!(res.total, 2);
    assert_eq!(res.tentative, 0);
    assert_eq!(res.kept, 0);
}

#[test]
fn matcher_checks_substring_containment() {
    let m = Matcher::new(Some("abc".to_string()), None).unwrap();
    assert!(m.matches("xxabcy"));
    assert!(m.matches("abc"));
    assert!(!m.matches("ab c"));
    let empty = Matcher::new(Some("".to_string()), None).unwrap();
    assert!(empty.matches("anything"));
    assert!(empty.matches(""));
}

#[test]
fn invalid_regex_is_fatal() {
    let a = args(None, Some("("));
    assert!(matches!(filter_by_input(&a, &lines(&["x"])), Err(FilterError::InvalidRegex)));
    assert!(matches!(Matcher::new(None, Some("(".to_string())), Err(FilterError::InvalidRegex)));
}

#[test]
fn invalid_regex_is_fatal_even_when_listing_services() {
    let mut a = args(None, Some("["));
    a.list_services = true;
    assert!(matches!(
        filter_by_input(&a, &lines(&["sshd[1]: x"])),
        Err(FilterError::InvalidRegex)
    ));
}

#[test]
fn scenario_two_identical_lines_dedup() {
    let mut a = args(Some("line"), None);
    a.dedup = true;
    let res = run(&a, &["the same line", "the same line"]);
    assert_eq!(res.total, 2);
    assert_eq!(res.tentative, 2);
    assert_eq!(res.kept, 1);
    assert_eq!(res.duplicates, 1);
}

#[test]
fn dedup_keeps_one_of_many_identical_lines() {
    let mut a = args(Some(""), None);
    a.dedup = true;
    let res = run(&a, &["same", "same", "same", "same"]);
    assert_eq!(res.kept, 1);
    assert_eq!(res.tentative, 4);
    assert_eq!(res.duplicates, 3);
}

#[test]
fn dedup_keeps_distinct_lines() {
    let mut a = args(Some("l"), None);
    a.dedup = true;
    let res = run(&a, &["line one", "line two", "line one"]);
    assert_eq!(res.kept, 2);
    assert_eq!(res.tentative, 3);
    assert_eq!(res.duplicates, 1);
    assert_eq!(res.kept_lines, vec!["line one".to_string(), "line two".to_string()]);
}

#[test]
fn unparsed_line_counts_but_yields_no_record() {
    let a = args(Some("keep"), None);
    let res = run(&a, &["keep me please ungrammatical", "ts host svc: keep this"]);
    assert_eq!(res.tentative, 2);
    assert_eq!(res.kept, 2);
    assert_eq!(res.records.len(), 1);
    assert_eq!(res.records[0].service, "svc");
    assert_eq!(res.records[0].message, "keep this");
}

#[test]
fn scenario_list_services_sorted_distinct() {
    let mut a = args(None, None);
    a.list_services = true;
    let input = lines(&[
        "Jan 1 h sshd[1]: up",
        "Jan 1 h cron[2]: job",
        "Jan 2 h sshd[1]: down",
        "Jan 2 h cron[2]: job",
    ]);
    match filter_by_input(&a, &input).unwrap() {
        RunOutput::Services(svcs) => {
            assert_eq!(svcs, vec!["cron".to_string(), "sshd".to_string()]);
        },
        RunOutput::Filtered(_) => panic!("expected services output"),
    }
}

#[test]
fn json_round_trip_reproduces_kept_records() {
    let a = args(Some("host"), None);
    let input = ["ts host sshd[9]: alpha", "ts host cron: beta", "host but no grammar ,"];
    let res = run(&a, &input);
    assert_eq!(res.records.len(), 2);
    // serialize the records the way the output file is written
    let mut arr: Vec<serde_json::Value> = Vec::new();
    for rec in &res.records {
        let mut obj = serde_json::Map::new();
        obj.insert("timestamp".to_string(), serde_json::Value::String(rec.timestamp.clone()));
        obj.insert("service".to_string(), serde_json::Value::String(rec.service.clone()));
        obj.insert("message".to_string(), serde_json::Value::String(rec.message.clone()));
        arr.push(serde_json::Value::Object(obj));
    }
    let text = serde_json::to_string_pretty(&serde_json::Value::Array(arr)).unwrap();
    // parse the file text back and compare with the kept grammatical lines
    let parsed: serde_json::Value = serde_json::from_str(&text).unwrap();
    let parsed = parsed.as_array().unwrap();
    assert_eq!(parsed.len(), 2);
    assert_eq!(parsed[0]["timestamp"], "ts");
    assert_eq!(parsed[0]["service"], "sshd");
    assert_eq!(parsed[0]["message"], "alpha");
    assert_eq!(parsed[1]["timestamp"], "ts");
    assert_eq!(parsed[1]["service"], "cron");
    assert_eq!(parsed[1]["message"], "beta");
}

#[test]
fn total_counts_newline_delimited_records() {
    let text = "ts host a: one\nts host b: two\nlast line without newline";
    let input = logprep::text::split_lines(text);
    assert_eq!(input.len(), 3);
    let a = args(Some("two"), None);
    match filter_by_input(&a, &input).unwrap() {
        RunOutput::Filtered(res) => {
            assert_eq!(res.total, 3);
            assert_eq!(res.kept, 1);
        },
        RunOutput::Services(_) => panic!("unexpected services output"),
    }
}

#[test]
fn empty_input_yields_empty_result() {
    let a = args(Some("x"), None);
    let res = run(&a, &[]);
    assert_eq!(res.total, 0);
    assert_eq!(res.tentative, 0);
    assert_eq!(res.kept, 0);
    assert_eq!(res.duplicates, 0);
    assert!(res.kept_lines.is_empty());
    assert!(res.records.is_empty());
}
