//! The filtering engine: a single pass over the loaded lines that matches,
//! deduplicates, extracts records and aggregates counts; and the
//! service-listing mode.

use vstd::prelude::*;
use crate::c_type::{Args, FilterError, LogRecord, LogRecordView, opt_str_view};
use crate::digest::{line_digest, sha256_hex};
use crate::matcher::{Matcher, spec_matches};
use crate::parse::{extract_service, parse_log_line, spec_extract_service, spec_parse};
use crate::text::{lex_lt, lemma_lex_lt_total, lemma_lex_lt_trans, str_lt};

verus! {

/// The views of a sequence of strings.
pub open spec fn str_views(lines: Seq<String>) -> Seq<Seq<char>> {
    lines.map_values(|l: String| l@)
}

/// The subsequence of `ls` that satisfies the filter criterion, in order.
pub open spec fn matched_of(
    ls: Seq<Seq<char>>,
    f: Option<Seq<char>>,
    p: Option<Seq<char>>,
) -> Seq<Seq<char>>
    decreases ls.len(),
{
    if ls.len() == 0 {
        Seq::empty()
    } else {
        matched_of(ls.drop_last(), f, p) + (if spec_matches(ls.last(), f, p) {
            seq![ls.last()]
        } else {
            Seq::empty()
        })
    }
}

/// Whether some line of `ls` has digest `d`.
pub open spec fn has_digest(ls: Seq<Seq<char>>, d: Seq<char>) -> bool {
    exists|j: int| 0 <= j < ls.len() && #[trigger] sha256_hex(ls[j]) == d
}

/// The subsequence of `ls` that keeps each line whose digest no earlier
/// line had: what survives deduplication.
pub open spec fn dedup_of(ls: Seq<Seq<char>>) -> Seq<Seq<char>>
    decreases ls.len(),
{
    if ls.len() == 0 {
        Seq::empty()
    } else {
        dedup_of(ls.drop_last()) + (if has_digest(ls.drop_last(), sha256_hex(ls.last())) {
            Seq::empty()
        } else {
            seq![ls.last()]
        })
    }
}

/// The records of the lines of `ls` that fit the record grammar, in order.
pub open spec fn records_of(ls: Seq<Seq<char>>) -> Seq<LogRecordView>
    decreases ls.len(),
{
    if ls.len() == 0 {
        Seq::empty()
    } else {
        records_of(ls.drop_last()) + (match spec_parse(ls.last()) {
            Some(rv) => seq![rv],
            None => Seq::empty(),
        })
    }
}

pub proof fn lemma_has_digest_push(ls: Seq<Seq<char>>, l: Seq<char>, d: Seq<char>)
    ensures
        has_digest(ls.push(l), d) <==> (has_digest(ls, d) || sha256_hex(l) == d),
{
    if has_digest(ls.push(l), d) {
        let j = choose|j: int| 0 <= j < ls.push(l).len() && #[trigger] sha256_hex(ls.push(l)[j])
            == d;
        if j < ls.len() {
            assert(ls.push(l)[j] == ls[j]);
            assert(sha256_hex(ls[j]) == d);
        } else {
            assert(ls.push(l)[j] == l);
        }
    }
    if has_digest(ls, d) {
        let j = choose|j: int| 0 <= j < ls.len() && #[trigger] sha256_hex(ls[j]) == d;
        assert(ls.push(l)[j] == ls[j]);
        assert(sha256_hex(ls.push(l)[j]) == d);
    }
    if sha256_hex(l) == d {
        assert(ls.push(l)[ls.len() as int] == l);
        assert(sha256_hex(ls.push(l)[ls.len() as int]) == d);
    }
}

/// Deduplication never keeps more lines than it was given.
pub proof fn lemma_dedup_le(ls: Seq<Seq<char>>)
    ensures
        dedup_of(ls).len() <= ls.len(),
    decreases ls.len(),
{
    if ls.len() > 0 {
        lemma_dedup_le(ls.drop_last());
    }
}

/// Deduplication of a file whose lines are all identical keeps exactly one
/// of them, however many there are.
pub proof fn lemma_dedup_identical(ls: Seq<Seq<char>>)
    requires
        ls.len() >= 1,
        forall|j: int| 0 <= j < ls.len() ==> #[trigger] ls[j] == ls[0],
    ensures
        dedup_of(ls).len() == 1,
    decreases ls.len(),
{
    if ls.len() == 1 {
        assert(ls.drop_last().len() == 0);
        assert(!has_digest(ls.drop_last(), sha256_hex(ls.last())));
        assert(dedup_of(ls.drop_last()) =~= Seq::<Seq<char>>::empty());
        assert(dedup_of(ls) =~= seq![ls.last()]);
    } else {
        let dl = ls.drop_last();
        assert(forall|j: int| 0 <= j < dl.len() ==> #[trigger] dl[j] == dl[0]);
        assert(ls.last() == ls[0]);
        assert(dl[0] == ls[0]);
        assert(sha256_hex(dl[0]) == sha256_hex(ls.last()));
        assert(has_digest(dl, sha256_hex(ls.last())));
        lemma_dedup_identical(dl);
        assert(dedup_of(ls) =~= dedup_of(dl));
    }
}

/// A matching line that does not fit the record grammar still counts toward
/// the tentative-kept and kept totals, but contributes no record: with it
/// the matched lines grow by one, deduplication keeps it when its digest is
/// new, and the records are in either case those of the other lines.
pub proof fn lemma_unparsed_line_still_counted(
    ls: Seq<Seq<char>>,
    f: Option<Seq<char>>,
    p: Option<Seq<char>>,
    l: Seq<char>,
)
    requires
        spec_matches(l, f, p),
        spec_parse(l) is None,
    ensures
        matched_of(ls.push(l), f, p) == matched_of(ls, f, p).push(l),
        records_of(matched_of(ls.push(l), f, p)) == records_of(matched_of(ls, f, p)),
        !has_digest(matched_of(ls, f, p), sha256_hex(l)) ==> dedup_of(matched_of(ls.push(l), f, p))
            == dedup_of(matched_of(ls, f, p)).push(l) && records_of(
            dedup_of(matched_of(ls.push(l), f, p)),
        ) == records_of(dedup_of(matched_of(ls, f, p))),
        has_digest(matched_of(ls, f, p), sha256_hex(l)) ==> dedup_of(matched_of(ls.push(l), f, p))
            == dedup_of(matched_of(ls, f, p)),
{
    let ms = matched_of(ls, f, p);
    let ls2 = ls.push(l);
    assert(ls2.drop_last() =~= ls);
    assert(ls2.last() == l);
    assert(matched_of(ls2, f, p) =~= ms.push(l));
    let ms2 = ms.push(l);
    assert(ms2.drop_last() =~= ms);
    assert(records_of(ms2) =~= records_of(ms));
    if !has_digest(ms, sha256_hex(l)) {
        assert(dedup_of(ms2) =~= dedup_of(ms).push(l));
        let ks2 = dedup_of(ms).push(l);
        assert(ks2.drop_last() =~= dedup_of(ms));
        assert(records_of(ks2) =~= records_of(dedup_of(ms)));
    } else {
        assert(dedup_of(ms2) =~= dedup_of(ms));
    }
}

proof fn lemma_record_has_source(ls: Seq<Seq<char>>, k: int)
    requires
        0 <= k < records_of(ls).len(),
    ensures
        exists|j: int| 0 <= j < ls.len() && #[trigger] spec_parse(ls[j]) == Some(
            records_of(ls)[k],
        ),
    decreases ls.len(),
{
    let dl = ls.drop_last();
    if k < records_of(dl).len() {
        assert(records_of(ls)[k] == records_of(dl)[k]);
        lemma_record_has_source(dl, k);
        let j = choose|j: int|
            0 <= j < dl.len() && #[trigger] spec_parse(dl[j]) == Some(records_of(dl)[k]);
        assert(ls[j] == dl[j]);
        assert(spec_parse(ls[j]) == Some(records_of(ls)[k]));
    } else {
        assert(spec_parse(ls.last()) is Some);
        assert(records_of(ls)[k] == spec_parse(ls.last())->Some_0);
        assert(ls[ls.len() - 1] == ls.last());
        assert(spec_parse(ls[ls.len() - 1]) == Some(records_of(ls)[k]));
    }
}

proof fn lemma_parsed_line_has_record(ls: Seq<Seq<char>>, j: int)
    requires
        0 <= j < ls.len(),
        spec_parse(ls[j]) is Some,
    ensures
        exists|k: int| 0 <= k < records_of(ls).len() && #[trigger] records_of(ls)[k] == spec_parse(
            ls[j],
        )->Some_0,
    decreases ls.len(),
{
    let dl = ls.drop_last();
    if j < dl.len() {
        assert(dl[j] == ls[j]);
        lemma_parsed_line_has_record(dl, j);
        let k = choose|k: int|
            0 <= k < records_of(dl).len() && #[trigger] records_of(dl)[k] == spec_parse(
                dl[j],
            )->Some_0;
        assert(records_of(ls)[k] == records_of(dl)[k]);
    } else {
        assert(ls[j] == ls.last());
        let k = records_of(dl).len() as int;
        assert(records_of(ls)[k] == spec_parse(ls.last())->Some_0);
    }
}

/// The records of a run reproduce exactly the kept lines that fit the
/// record grammar: every record comes from such a line, and every such line
/// yields its record.
pub proof fn lemma_records_from_kept(ls: Seq<Seq<char>>)
    ensures
        forall|k: int| 0 <= k < records_of(ls).len() ==> exists|j: int|
            0 <= j < ls.len() && spec_parse(ls[j]) == Some(#[trigger] records_of(ls)[k]),
        forall|j: int| 0 <= j < ls.len() && (#[trigger] spec_parse(ls[j])) is Some ==> exists|k: int|
            0 <= k < records_of(ls).len() && #[trigger] records_of(ls)[k] == spec_parse(
                ls[j],
            )->Some_0,
{
    assert forall|k: int| 0 <= k < records_of(ls).len() implies exists|j: int|
        0 <= j < ls.len() && spec_parse(ls[j]) == Some(#[trigger] records_of(ls)[k]) by {
        lemma_record_has_source(ls, k);
        let j = choose|j: int|
            0 <= j < ls.len() && #[trigger] spec_parse(ls[j]) == Some(records_of(ls)[k]);
        assert(0 <= j < ls.len() && spec_parse(ls[j]) == Some(records_of(ls)[k]));
    }
    assert forall|j: int| 0 <= j < ls.len() && (#[trigger] spec_parse(ls[j])) is Some
        implies exists|k: int|
        0 <= k < records_of(ls).len() && #[trigger] records_of(ls)[k] == spec_parse(
            ls[j],
        )->Some_0 by {
        lemma_parsed_line_has_record(ls, j);
    }
}

/// What one filtering run returns: the counters of the summary and the kept
/// lines with their records.
pub struct RunResult {
    pub total: usize,
    pub tentative: usize,
    pub kept: usize,
    pub duplicates: usize,
    pub kept_lines: Vec<String>,
    pub records: Vec<LogRecord>,
}

/// The contract of a filtering run over the loaded lines.
pub open spec fn filtered_post(
    ls: Seq<Seq<char>>,
    f: Option<Seq<char>>,
    p: Option<Seq<char>>,
    dedup: bool,
    r: RunResult,
) -> bool {
    let ms = matched_of(ls, f, p);
    let ks = if dedup {
        dedup_of(ms)
    } else {
        ms
    };
    &&& r.total == ls.len()
    &&& r.tentative == ms.len()
    &&& str_views(r.kept_lines@) == ks
    &&& r.kept == ks.len()
    &&& r.records@.map_values(|x: LogRecord| x@) == records_of(ks)
    &&& r.duplicates == if dedup {
        ms.len() - ks.len()
    } else {
        0int
    }
}

/// Whether some string of `seen` reads `d`.
fn digest_seen(seen: &Vec<String>, d: &String) -> (r: bool)
    ensures
        r == exists|j: int| 0 <= j < seen@.len() && #[trigger] seen@[j]@ == d@,
{
    let mut j: usize = 0;
    while j < seen.len()
        invariant
            j <= seen@.len(),
            forall|k: int| 0 <= k < j ==> #[trigger] seen@[k]@ != d@,
        decreases seen@.len() - j,
    {
        if seen[j] == *d {
            return true;
        }
        j += 1;
    }
    false
}

/// One filtering run: matches every line, deduplicates when asked to,
/// extracts the records of the kept lines, and counts.
pub fn run_filter(lines: &Vec<String>, matcher: &Matcher, dedup: bool) -> (r: RunResult)
    requires
        matcher.wf(),
    ensures
        filtered_post(
            str_views(lines@),
            matcher.filter_view(),
            matcher.pattern_view(),
            dedup,
            r,
        ),
{
    let ghost lv = str_views(lines@);
    let ghost f = matcher.filter_view();
    let ghost p = matcher.pattern_view();
    let mut kept_lines: Vec<String> = Vec::new();
    let mut records: Vec<LogRecord> = Vec::new();
    let mut seen: Vec<String> = Vec::new();
    let mut tentative: usize = 0;
    let mut i: usize = 0;
    proof {
        assert(lv.subrange(0, 0) =~= Seq::<Seq<char>>::empty());
        assert(str_views(kept_lines@) =~= Seq::<Seq<char>>::empty());
        assert(records@.map_values(|x: LogRecord| x@) =~= Seq::<LogRecordView>::empty());
    }
    while i < lines.len()
        invariant
            matcher.wf(),
            i <= lines@.len(),
            lv == str_views(lines@),
            f == matcher.filter_view(),
            p == matcher.pattern_view(),
            tentative <= i,
            tentative == matched_of(lv.subrange(0, i as int), f, p).len(),
            str_views(kept_lines@) == (if dedup {
                dedup_of(matched_of(lv.subrange(0, i as int), f, p))
            } else {
                matched_of(lv.subrange(0, i as int), f, p)
            }),
            records@.map_values(|x: LogRecord| x@) == records_of(
                if dedup {
                    dedup_of(matched_of(lv.subrange(0, i as int), f, p))
                } else {
                    matched_of(lv.subrange(0, i as int), f, p)
                },
            ),
            dedup ==> forall|j: int| 0 <= j < seen@.len() ==> has_digest(
                matched_of(lv.subrange(0, i as int), f, p),
                #[trigger] seen@[j]@,
            ),
            dedup ==> forall|k: int|
                0 <= k < matched_of(lv.subrange(0, i as int), f, p).len() ==> exists|j: int|
                    0 <= j < seen@.len() && seen@[j]@ == sha256_hex(
                        #[trigger] matched_of(lv.subrange(0, i as int), f, p)[k],
                    ),
        decreases lines@.len() - i,
    {
        let ghost pre = matched_of(lv.subrange(0, i as int), f, p);
        let ghost ks_pre = if dedup {
            dedup_of(pre)
        } else {
            pre
        };
        let line = &lines[i];
        let is_match = matcher.matches(line.as_str());
        proof {
            assert(lv.subrange(0, i + 1).drop_last() =~= lv.subrange(0, i as int));
            assert(lv.subrange(0, i + 1).last() == line@);
        }
        let ghost cur = matched_of(lv.subrange(0, i + 1), f, p);
        if is_match {
            proof {
                assert(cur =~= pre.push(line@));
                assert(cur.drop_last() =~= pre);
            }
            tentative += 1;
            let mut keep = true;
            if dedup {
                let d = line_digest(line.as_str());
                if digest_seen(&seen, &d) {
                    keep = false;
                    proof {
                        let j = choose|j: int| 0 <= j < seen@.len() && #[trigger] seen@[j]@ == d@;
                        assert(has_digest(pre, sha256_hex(line@)));
                        assert(dedup_of(cur) =~= dedup_of(pre));
                    }
                } else {
                    proof {
                        assert(!has_digest(pre, sha256_hex(line@))) by {
                            if has_digest(pre, sha256_hex(line@)) {
                                let k = choose|k: int|
                                    0 <= k < pre.len() && #[trigger] sha256_hex(pre[k]) == sha256_hex(
                                        line@,
                                    );
                                assert(exists|j: int|
                                    0 <= j < seen@.len() && seen@[j]@ == sha256_hex(pre[k]));
                            }
                        }
                        assert(dedup_of(cur) =~= dedup_of(pre).push(line@));
                    }
                    let ghost seen_pre = seen@;
                    seen.push(d);
                    proof {
                        assert forall|j: int| 0 <= j < seen@.len() implies has_digest(
                            cur,
                            #[trigger] seen@[j]@,
                        ) by {
                            lemma_has_digest_push(pre, line@, seen@[j]@);
                            if j < seen_pre.len() {
                                assert(seen@[j] == seen_pre[j]);
                            } else {
                                assert(seen@[j]@ == sha256_hex(line@));
                            }
                        }
                        assert forall|k: int| 0 <= k < cur.len() implies exists|j: int|
                            0 <= j < seen@.len() && seen@[j]@ == sha256_hex(
                                #[trigger] cur[k],
                            ) by {
                            if k < pre.len() {
                                assert(cur[k] == pre[k]);
                                let j = choose|j: int|
                                    0 <= j < seen_pre.len() && seen_pre[j]@ == sha256_hex(pre[k]);
                                assert(seen@[j] == seen_pre[j]);
                            } else {
                                assert(cur[k] == line@);
                                assert(seen@[seen@.len() - 1]@ == sha256_hex(line@));
                            }
                        }
                    }
                }
            }
            if keep {
                let ghost kl_pre = kept_lines@;
                let ghost rec_pre = records@;
                let ghost ks_cur = if dedup {
                    dedup_of(cur)
                } else {
                    cur
                };
                kept_lines.push(line.clone());
                proof {
                    assert(ks_cur =~= ks_pre.push(line@));
                    assert(str_views(kept_lines@) =~= str_views(kl_pre).push(line@));
                    assert(ks_cur.drop_last() =~= ks_pre);
                    assert(ks_cur.last() == line@);
                }
                match parse_log_line(line.as_str()) {
                    Some(rec) => {
                        records.push(rec);
                        proof {
                            assert(records@.map_values(|x: LogRecord| x@) =~= rec_pre.map_values(
                                |x: LogRecord| x@,
                            ).push(rec@));
                            assert(records_of(ks_cur) =~= records_of(ks_pre).push(rec@));
                        }
                    },
                    None => {
                        proof {
                            assert(records_of(ks_cur) =~= records_of(ks_pre));
                        }
                    },
                }
            }
        } else {
            proof {
                assert(cur =~= pre);
            }
        }
        proof {
            if dedup && (!is_match || has_digest(pre, sha256_hex(line@))) {
                // the seen set is unchanged and covers the same digests
                assert forall|j: int| 0 <= j < seen@.len() implies has_digest(
                    cur,
                    #[trigger] seen@[j]@,
                ) by {
                    if is_match {
                        lemma_has_digest_push(pre, line@, seen@[j]@);
                    }
                }
                assert forall|k: int| 0 <= k < cur.len() implies exists|j: int|
                    0 <= j < seen@.len() && seen@[j]@ == sha256_hex(#[trigger] cur[k]) by {
                    if is_match {
                        if k < pre.len() {
                            assert(cur[k] == pre[k]);
                        } else {
                            assert(cur[k] == line@);
                            let j = choose|j: int|
                                0 <= j < pre.len() && #[trigger] sha256_hex(pre[j]) == sha256_hex(
                                    line@,
                                );
                            assert(exists|jj: int|
                                0 <= jj < seen@.len() && seen@[jj]@ == sha256_hex(pre[j]));
                        }
                    } else {
                        assert(cur[k] == pre[k]);
                    }
                }
            }
        }
        i += 1;
    }
    proof {
        assert(lv.subrange(0, i as int) =~= lv);
        if dedup {
            lemma_dedup_le(matched_of(lv, f, p));
        }
    }
    let kept = kept_lines.len();
    proof {
        assert(kept == str_views(kept_lines@).len());
    }
    let duplicates = if dedup {
        tentative - kept
    } else {
        0
    };
    RunResult { total: lines.len(), tentative, kept, duplicates, kept_lines, records }
}

/// Whether some element of `ls` equals `d`.
pub open spec fn seq_has(ls: Seq<Seq<char>>, d: Seq<char>) -> bool {
    exists|j: int| 0 <= j < ls.len() && #[trigger] ls[j] == d
}

/// Strictly increasing in lexicographic order: sorted, with no element
/// twice.
pub open spec fn sorted_strict(ls: Seq<Seq<char>>) -> bool {
    forall|a: int, b: int| 0 <= a < b < ls.len() ==> lex_lt(#[trigger] ls[a], #[trigger] ls[b])
}

/// Whether some line of `ls` yields the service token `d`.
pub open spec fn service_of_some_line(ls: Seq<Seq<char>>, d: Seq<char>) -> bool {
    exists|j: int| 0 <= j < ls.len() && #[trigger] spec_extract_service(ls[j]) == Some(d)
}

/// The contract of the service listing: a strictly sorted list that holds
/// exactly the service tokens the lines yield.
pub open spec fn services_post(ls: Seq<Seq<char>>, out: Seq<Seq<char>>) -> bool {
    &&& sorted_strict(out)
    &&& forall|k: int| 0 <= k < out.len() ==> service_of_some_line(ls, #[trigger] out[k])
    &&& forall|j: int| 0 <= j < ls.len() && (#[trigger] spec_extract_service(ls[j])) is Some
        ==> seq_has(out, spec_extract_service(ls[j])->Some_0)
}

/// Puts `s` into the sorted list of distinct services, keeping it sorted
/// and without duplicates.
fn insert_service(out: &mut Vec<String>, s: String)
    requires
        sorted_strict(str_views(old(out)@)),
    ensures
        sorted_strict(str_views(final(out)@)),
        forall|d: Seq<char>| seq_has(str_views(final(out)@), d) <==> (seq_has(
            str_views(old(out)@),
            d,
        ) || d == s@),
{
    let ghost ov = str_views(out@);
    let mut idx: usize = 0;
    while idx < out.len() && str_lt(out[idx].as_str(), s.as_str())
        invariant
            idx <= out@.len(),
            ov == str_views(out@),
            sorted_strict(ov),
            forall|k: int| 0 <= k < idx ==> lex_lt(#[trigger] ov[k], s@),
        decreases out@.len() - idx,
    {
        idx += 1;
    }
    if idx < out.len() && out[idx] == s {
        proof {
            assert(ov[idx as int] == s@);
            assert forall|d: Seq<char>| seq_has(str_views(out@), d) <==> (seq_has(ov, d) || d
                == s@) by {
                if d == s@ {
                    assert(seq_has(ov, d));
                }
            }
        }
        return ;
    }
    proof {
        if idx < ov.len() {
            assert(!lex_lt(ov[idx as int], s@));
            assert(ov[idx as int] != s@);
            lemma_lex_lt_total(ov[idx as int], s@);
            assert(lex_lt(s@, ov[idx as int]));
        }
    }
    out.insert(idx, s);
    proof {
        let nv = str_views(out@);
        assert(nv =~= ov.insert(idx as int, s@)) by {
            assert forall|k: int| 0 <= k < nv.len() implies nv[k] == ov.insert(idx as int, s@)[k]
                by {}
            assert(nv.len() == ov.insert(idx as int, s@).len());
        }
        assert forall|a: int, b: int| 0 <= a < b < nv.len() implies lex_lt(
            #[trigger] nv[a],
            #[trigger] nv[b],
        ) by {
            if b < idx {
            } else if a < idx && b == idx {
                assert(nv[a] == ov[a]);
                assert(nv[b] == s@);
            } else if a < idx && b > idx {
                assert(nv[a] == ov[a]);
                assert(nv[b] == ov[b - 1]);
                assert(lex_lt(ov[a], s@));
                assert(lex_lt(s@, ov[idx as int]));
                if b - 1 == idx {
                    lemma_lex_lt_trans(ov[a], s@, ov[b - 1]);
                } else {
                    assert(lex_lt(ov[idx as int], ov[b - 1]));
                    lemma_lex_lt_trans(ov[a], s@, ov[idx as int]);
                    lemma_lex_lt_trans(ov[a], ov[idx as int], ov[b - 1]);
                }
            } else if a == idx {
                assert(nv[a] == s@);
                assert(nv[b] == ov[b - 1]);
                if b - 1 == idx {
                    assert(lex_lt(s@, ov[idx as int]));
                } else {
                    assert(lex_lt(ov[idx as int], ov[b - 1]));
                    lemma_lex_lt_trans(s@, ov[idx as int], ov[b - 1]);
                }
            } else {
                assert(nv[a] == ov[a - 1]);
                assert(nv[b] == ov[b - 1]);
            }
        }
        assert forall|d: Seq<char>| seq_has(nv, d) <==> (seq_has(ov, d) || d == s@) by {
            if seq_has(nv, d) {
                let j = choose|j: int| 0 <= j < nv.len() && #[trigger] nv[j] == d;
                if j < idx {
                    assert(ov[j] == d);
                } else if j == idx {
                } else {
                    assert(ov[j - 1] == d);
                }
            }
            if seq_has(ov, d) {
                let j = choose|j: int| 0 <= j < ov.len() && #[trigger] ov[j] == d;
                if j < idx {
                    assert(nv[j] == d);
                } else {
                    assert(nv[j + 1] == d);
                }
            }
            if d == s@ {
                assert(nv[idx as int] == d);
            }
        }
    }
}

/// Collects the distinct service tokens of all lines, sorted
/// lexicographically.
pub fn list_services(lines: &Vec<String>) -> (r: Vec<String>)
    ensures
        services_post(str_views(lines@), str_views(r@)),
{
    let ghost lv = str_views(lines@);
    let mut out: Vec<String> = Vec::new();
    let mut i: usize = 0;
    while i < lines.len()
        invariant
            i <= lines@.len(),
            lv == str_views(lines@),
            sorted_strict(str_views(out@)),
            forall|k: int| 0 <= k < str_views(out@).len() ==> service_of_some_line(
                lv,
                #[trigger] str_views(out@)[k],
            ),
            forall|j: int| 0 <= j < i && (#[trigger] spec_extract_service(lv[j])) is Some
                ==> seq_has(str_views(out@), spec_extract_service(lv[j])->Some_0),
        decreases lines@.len() - i,
    {
        let line = &lines[i];
        let ghost pre = str_views(out@);
        match extract_service(line.as_str()) {
            Some(svc) => {
                let ghost sv = svc@;
                insert_service(&mut out, svc);
                proof {
                    let nv = str_views(out@);
                    assert forall|k: int| 0 <= k < nv.len() implies service_of_some_line(
                        lv,
                        #[trigger] nv[k],
                    ) by {
                        assert(seq_has(nv, nv[k]));
                        if nv[k] == sv {
                            assert(spec_extract_service(lv[i as int]) == Some(nv[k]));
                        } else {
                            assert(seq_has(pre, nv[k]));
                            let j0 = choose|j0: int| 0 <= j0 < pre.len() && #[trigger] pre[j0]
                                == nv[k];
                            assert(service_of_some_line(lv, pre[j0]));
                        }
                    }
                    assert forall|j: int|
                        0 <= j < i + 1 && (#[trigger] spec_extract_service(lv[j])) is Some
                        implies seq_has(nv, spec_extract_service(lv[j])->Some_0) by {
                        if j < i {
                            assert(seq_has(pre, spec_extract_service(lv[j])->Some_0));
                        } else {
                            assert(spec_extract_service(lv[j]) == Some(sv));
                        }
                    }
                }
            },
            None => {
                proof {
                    assert(spec_extract_service(lv[i as int]) is None);
                }
            },
        }
        i += 1;
    }
    proof {
        assert(services_post(lv, str_views(out@)));
    }
    out
}

/// What one call of the engine produces: the sorted service listing in
/// list-services mode, the filtering result otherwise.
pub enum RunOutput {
    Services(Vec<String>),
    Filtered(RunResult),
}

/// Runs the engine over the loaded lines of the input: rejects an invalid
/// regex pattern before any line is processed, lists services when that
/// mode is set, and otherwise filters, deduplicates and aggregates.
pub fn filter_by_input(args: &Args, lines: &Vec<String>) -> (r: Result<RunOutput, FilterError>)
    ensures
        (r is Err) == (args.regex matches Some(p) && !crate::matcher::valid_regex(p@)),
        r matches Err(e) ==> e == FilterError::InvalidRegex,
        r is Ok && args.list_services ==> (r matches Ok(RunOutput::Services(svcs))
            && services_post(str_views(lines@), str_views(svcs@))),
        r is Ok && !args.list_services ==> (r matches Ok(RunOutput::Filtered(res))
            && filtered_post(
            str_views(lines@),
            opt_str_view(args.filter),
            opt_str_view(args.regex),
            args.dedup,
            res,
        )),
{
    let filter = match &args.filter {
        Some(f) => Some(f.clone()),
        None => None,
    };
    let pattern = match &args.regex {
        Some(p) => Some(p.clone()),
        None => None,
    };
    let matcher = match Matcher::new(filter, pattern) {
        Ok(m) => m,
        Err(e) => {
            return Err(e);
        },
    };
    if args.list_services {
        Ok(RunOutput::Services(list_services(lines)))
    } else {
        Ok(RunOutput::Filtered(run_filter(lines, &matcher, args.dedup)))
    }
}

} // verus!
