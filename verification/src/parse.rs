//! The fixed record grammar and the service-token grammar.
//!
//! A record line is a whitespace-delimited timestamp token, a
//! whitespace-delimited host token (discarded), a service name (any
//! characters but an opening bracket, greedy, trimmed before storage),
//! an optional bracketed numeric process id, a colon, and the rest of the
//! line as the message with its leading whitespace dropped.

use vstd::prelude::*;
use crate::c_type::{LogRecord, LogRecordView};
use crate::text::{
    is_digit_char, digit_run, nonbracket_run, nonspace_run, space_run, spec_trim, scan_digit,
    scan_nonbracket, scan_nonspace, scan_space, trim_range, run_len,
};

verus! {

/// Where the colon after the service part stands, when the optional
/// process-id suffix and the colon fit at position `e`: either a bracketed
/// digit run followed by the colon, or the colon at `e` itself.
pub open spec fn tail_colon_pos(s: Seq<char>, e: int) -> Option<int> {
    if 0 <= e && e < s.len() && s[e] == '[' {
        let d = digit_run(s, e + 1);
        if d >= 1 && e + 1 + d < s.len() && s[e + 1 + d] == ']' {
            Some(e + d + 2)
        } else {
            None
        }
    } else {
        Some(e)
    }
}

/// Whether the part of the line after a service ending at `e` fits the
/// grammar: an optional `[digits]`, a colon, and a nonempty message.
pub open spec fn tail_match(s: Seq<char>, e: int) -> bool {
    match tail_colon_pos(s, e) {
        Some(cp) => 0 <= cp && cp < s.len() && s[cp] == ':' && cp + 1 < s.len(),
        None => false,
    }
}

/// The message of a line whose colon stands at `cp`: the rest of the line
/// with leading whitespace dropped; when only whitespace remains, the last
/// character alone.
pub open spec fn spec_message(s: Seq<char>, cp: int) -> Seq<char> {
    let w = space_run(s, cp + 1);
    if cp + 1 + w >= s.len() {
        s.subrange(s.len() - 1, s.len() as int)
    } else {
        s.subrange(cp + 1 + w, s.len() as int)
    }
}

/// The largest service end in `(lo, e]` whose tail fits the grammar: the
/// service part is greedy.
pub open spec fn best_end(s: Seq<char>, lo: int, e: int) -> Option<int>
    decreases e - lo,
{
    if e <= lo {
        None
    } else if tail_match(s, e) {
        Some(e)
    } else {
        best_end(s, lo, e - 1)
    }
}

/// The record grammar over a whole line.
pub open spec fn spec_parse(s: Seq<char>) -> Option<LogRecordView> {
    let t = nonspace_run(s, 0);
    if !(1 <= t && t < s.len()) {
        None
    } else {
        let hs = t + space_run(s, t as int);
        let h = nonspace_run(s, hs as int);
        if !(h >= 1 && hs + h < s.len()) {
            None
        } else {
            let w2 = space_run(s, (hs + h) as int);
            let ss = hs + h + w2;
            let ts = s.subrange(0, t as int);
            match best_end(s, ss as int, (ss + nonbracket_run(s, ss as int)) as int) {
                Some(e) => Some(
                    LogRecordView {
                        timestamp: ts,
                        service: spec_trim(s.subrange(ss as int, e)),
                        message: spec_message(s, tail_colon_pos(s, e)->Some_0),
                    },
                ),
                None => {
                    // the service may borrow one character of the whitespace
                    // before it, which trims to an empty name
                    if w2 >= 2 && tail_match(s, ss as int) {
                        Some(
                            LogRecordView {
                                timestamp: ts,
                                service: Seq::empty(),
                                message: spec_message(s, tail_colon_pos(s, ss as int)->Some_0),
                            },
                        )
                    } else {
                        None
                    }
                },
            }
        }
    }
}

/// Finds the colon position for a service ending at `e`, when the tail fits
/// the grammar there.
fn tail_colon_check(s: &str, e: usize) -> (r: Option<usize>)
    requires
        e <= s@.len(),
    ensures
        match r {
            Some(cp) => tail_match(s@, e as int) && tail_colon_pos(s@, e as int) == Some(cp as int),
            None => !tail_match(s@, e as int),
        },
{
    let n = s.unicode_len();
    if e >= n {
        return None;
    }
    let cp: usize;
    if s.get_char(e) == '[' {
        let d = scan_digit(s, e + 1);
        if d >= 1 && e + 1 + d < n && s.get_char(e + 1 + d) == ']' {
            cp = e + d + 2;
        } else {
            return None;
        }
    } else {
        cp = e;
    }
    if cp < n && s.get_char(cp) == ':' && cp + 1 < n {
        Some(cp)
    } else {
        None
    }
}

/// Builds the message of a line whose colon stands at `cp`.
fn build_message(s: &str, cp: usize) -> (r: String)
    requires
        cp + 1 < s@.len(),
    ensures
        r@ == spec_message(s@, cp as int),
{
    let n = s.unicode_len();
    let w = scan_space(s, cp + 1);
    if cp + 1 + w >= n {
        s.substring_char(n - 1, n).to_owned()
    } else {
        s.substring_char(cp + 1 + w, n).to_owned()
    }
}

/// Parses one line against the record grammar; `None` exactly when the line
/// does not fit it.
pub fn parse_log_line(line: &str) -> (r: Option<LogRecord>)
    ensures
        match r {
            Some(rec) => spec_parse(line@) == Some(rec@),
            None => spec_parse(line@) is None,
        },
{
    let n = line.unicode_len();
    let t = scan_nonspace(line, 0);
    if t < 1 || t >= n {
        return None;
    }
    let w1 = scan_space(line, t);
    let hs = t + w1;
    let h = scan_nonspace(line, hs);
    if h < 1 || hs + h >= n {
        return None;
    }
    let w2 = scan_space(line, hs + h);
    let ss = hs + h + w2;
    let nb = scan_nonbracket(line, ss);
    let mut e = ss + nb;
    let mut found: Option<(usize, usize)> = None;
    loop
        invariant_except_break
            found is None,
            ss <= e <= ss + nb,
        invariant
            ss + nb <= n,
            n == line@.len(),
            best_end(line@, ss as int, (ss + nb) as int) == best_end(line@, ss as int, e as int),
        ensures
            match found {
                Some(p) => best_end(line@, ss as int, (ss + nb) as int) == Some(p.0 as int)
                    && tail_colon_pos(line@, p.0 as int) == Some(p.1 as int) && tail_match(
                    line@,
                    p.0 as int,
                ) && ss < p.0 <= ss + nb,
                None => best_end(line@, ss as int, (ss + nb) as int) is None,
            },
        decreases e,
    {
        if e <= ss {
            proof {
                assert(best_end(line@, ss as int, e as int) is None);
            }
            break;
        }
        match tail_colon_check(line, e) {
            Some(cp) => {
                proof {
                    assert(best_end(line@, ss as int, e as int) == Some(e as int));
                }
                found = Some((e, cp));
                break;
            },
            None => {
                proof {
                    assert(best_end(line@, ss as int, e as int) == best_end(
                        line@,
                        ss as int,
                        e - 1,
                    ));
                }
                e -= 1;
            },
        }
    }
    match found {
        Some((e, cp)) => {
            proof {
                assert(best_end(line@, ss as int, (ss + nb) as int) == Some(e as int));
            }
            let timestamp = line.substring_char(0, t).to_owned();
            let service = trim_range(line, ss, e);
            let message = build_message(line, cp);
            let rec = LogRecord { timestamp, service, message };
            proof {
                assert(rec@.timestamp =~= line@.subrange(0, t as int));
                assert(spec_parse(line@) == Some(rec@));
            }
            Some(rec)
        },
        None => {
            proof {
                assert(best_end(line@, ss as int, (ss + nb) as int) is None);
            }
            if w2 >= 2 {
                match tail_colon_check(line, ss) {
                    Some(cp) => {
                        let timestamp = line.substring_char(0, t).to_owned();
                        let message = build_message(line, cp);
                        let rec = LogRecord { timestamp, service: String::new(), message };
                        proof {
                            assert(rec@.timestamp =~= line@.subrange(0, t as int));
                            assert(rec@.service =~= Seq::<char>::empty());
                            assert(spec_parse(line@) == Some(rec@));
                        }
                        return Some(rec);
                    },
                    None => {
                        return None;
                    },
                }
            }
            None
        },
    }
}

/// The characters a service token may hold: ASCII letters, digits, dot,
/// underscore and hyphen.
pub open spec fn is_service_char(c: char) -> bool {
    ('a' <= c && c <= 'z') || ('A' <= c && c <= 'Z') || is_digit_char(c) || c == '.' || c == '_'
        || c == '-'
}

pub open spec fn service_run(s: Seq<char>, i: int) -> nat {
    run_len(s, i, |c: char| is_service_char(c))
}

fn scan_service(s: &str, from: usize) -> (r: usize)
    requires
        from <= s@.len(),
    ensures
        r == service_run(s@, from as int),
        from + r <= s@.len(),
{
    let n = s.unicode_len();
    let mut j = from;
    while j < n && is_service(s.get_char(j))
        invariant
            from <= j <= n,
            n == s@.len(),
            service_run(s@, from as int) == (j - from) + service_run(s@, j as int),
        decreases n - j,
    {
        proof {
            assert(service_run(s@, j as int) == 1 + service_run(s@, j + 1));
        }
        j += 1;
    }
    proof {
        assert(service_run(s@, j as int) == 0);
    }
    j - from
}

fn is_service(c: char) -> (r: bool)
    ensures
        r == is_service_char(c),
{
    ('a' <= c && c <= 'z') || ('A' <= c && c <= 'Z') || ('0' <= c && c <= '9') || c == '.'
        || c == '_' || c == '-'
}

/// Whether a service token followed by `[digits]:` stands at position `i`.
pub open spec fn service_match_at(s: Seq<char>, i: int) -> bool {
    let t = service_run(s, i);
    let d = digit_run(s, i + t + 1);
    &&& 0 <= i
    &&& t >= 1
    &&& i + t < s.len()
    &&& s[i + t] == '['
    &&& d >= 1
    &&& i + t + 1 + d + 1 < s.len()
    &&& s[i + t + 1 + d] == ']'
    &&& s[i + t + 2 + d] == ':'
}

/// The first position of `s[i..]` where a service token stands.
pub open spec fn find_service(s: Seq<char>, i: int) -> Option<int>
    decreases s.len() - i,
{
    if i < 0 || i >= s.len() {
        None
    } else if service_match_at(s, i) {
        Some(i)
    } else {
        find_service(s, i + 1)
    }
}

/// The service token of the leftmost service match of the line, if any.
pub open spec fn spec_extract_service(s: Seq<char>) -> Option<Seq<char>> {
    match find_service(s, 0) {
        None => None,
        Some(i) => Some(s.subrange(i, i + service_run(s, i))),
    }
}

/// Extracts the leftmost `service[pid]:` token of a line; `None` when the
/// line holds none.
pub fn extract_service(line: &str) -> (r: Option<String>)
    ensures
        match r {
            Some(tok) => spec_extract_service(line@) == Some(tok@),
            None => spec_extract_service(line@) is None,
        },
{
    let n = line.unicode_len();
    let mut i: usize = 0;
    while i < n
        invariant
            i <= n,
            n == line@.len(),
            find_service(line@, 0) == find_service(line@, i as int),
        decreases n - i,
    {
        let t = scan_service(line, i);
        if t >= 1 && i + t < n && line.get_char(i + t) == '[' {
            let d = scan_digit(line, i + t + 1);
            let p = i + t + 1 + d;
            if d >= 1 && p < n && line.get_char(p) == ']' && p + 1 < n && line.get_char(p + 1)
                == ':' {
                proof {
                    assert(service_match_at(line@, i as int));
                    assert(find_service(line@, i as int) == Some(i as int));
                }
                let tok = line.substring_char(i, i + t).to_owned();
                proof {
                    assert(tok@ =~= line@.subrange(i as int, i + service_run(line@, i as int)));
                }
                return Some(tok);
            }
        }
        proof {
            assert(!service_match_at(line@, i as int));
            assert(find_service(line@, i as int) == find_service(line@, i + 1));
        }
        i += 1;
    }
    proof {
        assert(find_service(line@, i as int) is None);
    }
    None
}

} // verus!
