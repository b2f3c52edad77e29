//! Character classes, runs, trimming, lexicographic order, substring
//! containment and line splitting: the text groundwork of the engine.

use vstd::prelude::*;

verus! {

/// The Unicode `White_Space` characters: what the record grammar and
/// trimming treat as whitespace.
pub open spec fn is_space_char(c: char) -> bool {
    c == ' ' || c == '\t' || c == '\n' || c == '\u{b}' || c == '\u{c}' || c == '\r'
        || c == '\u{85}' || c == '\u{a0}' || c == '\u{1680}'
        || ('\u{2000}' <= c && c <= '\u{200a}')
        || c == '\u{2028}' || c == '\u{2029}' || c == '\u{202f}' || c == '\u{205f}'
        || c == '\u{3000}'
}

/// Decimal digits, as the process-id part of the record grammar uses them.
pub open spec fn is_digit_char(c: char) -> bool {
    '0' <= c && c <= '9'
}

pub fn is_space(c: char) -> (r: bool)
    ensures
        r == is_space_char(c),
{
    c == ' ' || c == '\t' || c == '\n' || c == '\u{b}' || c == '\u{c}' || c == '\r'
        || c == '\u{85}' || c == '\u{a0}' || c == '\u{1680}'
        || ('\u{2000}' <= c && c <= '\u{200a}')
        || c == '\u{2028}' || c == '\u{2029}' || c == '\u{202f}' || c == '\u{205f}'
        || c == '\u{3000}'
}

pub fn is_digit(c: char) -> (r: bool)
    ensures
        r == is_digit_char(c),
{
    '0' <= c && c <= '9'
}

/// Length of the longest run of characters satisfying `pred` that starts at
/// position `i` of `s`.
pub open spec fn run_len(s: Seq<char>, i: int, pred: spec_fn(char) -> bool) -> nat
    decreases s.len() - i,
{
    if i < 0 || i >= s.len() || !pred(s[i]) {
        0
    } else {
        (1 + run_len(s, i + 1, pred)) as nat
    }
}

pub proof fn lemma_run_len(s: Seq<char>, i: int, pred: spec_fn(char) -> bool)
    requires
        0 <= i <= s.len(),
    ensures
        i + run_len(s, i, pred) <= s.len(),
        forall|k: int| i <= k < i + run_len(s, i, pred) ==> pred(s[k]),
        i + run_len(s, i, pred) < s.len() ==> !pred(s[i + run_len(s, i, pred)]),
    decreases s.len() - i,
{
    if i < s.len() && pred(s[i]) {
        lemma_run_len(s, i + 1, pred);
    }
}

pub open spec fn space_run(s: Seq<char>, i: int) -> nat {
    run_len(s, i, |c: char| is_space_char(c))
}

pub open spec fn nonspace_run(s: Seq<char>, i: int) -> nat {
    run_len(s, i, |c: char| !is_space_char(c))
}

pub fn scan_space(s: &str, from: usize) -> (r: usize)
    requires
        from <= s@.len(),
    ensures
        r == space_run(s@, from as int),
        from + r <= s@.len(),
{
    let n = s.unicode_len();
    let mut j = from;
    while j < n && is_space(s.get_char(j))
        invariant
            from <= j <= n,
            n == s@.len(),
            space_run(s@, from as int) == (j - from) + space_run(s@, j as int),
        decreases n - j,
    {
        proof {
            assert(space_run(s@, j as int) == 1 + space_run(s@, j + 1));
        }
        j += 1;
    }
    proof {
        assert(space_run(s@, j as int) == 0);
    }
    j - from
}

pub fn scan_nonspace(s: &str, from: usize) -> (r: usize)
    requires
        from <= s@.len(),
    ensures
        r == nonspace_run(s@, from as int),
        from + r <= s@.len(),
{
    let n = s.unicode_len();
    let mut j = from;
    while j < n && !is_space(s.get_char(j))
        invariant
            from <= j <= n,
            n == s@.len(),
            nonspace_run(s@, from as int) == (j - from) + nonspace_run(s@, j as int),
        decreases n - j,
    {
        proof {
            assert(nonspace_run(s@, j as int) == 1 + nonspace_run(s@, j + 1));
        }
        j += 1;
    }
    proof {
        assert(nonspace_run(s@, j as int) == 0);
    }
    j - from
}

pub open spec fn digit_run(s: Seq<char>, i: int) -> nat {
    run_len(s, i, |c: char| is_digit_char(c))
}

pub fn scan_digit(s: &str, from: usize) -> (r: usize)
    requires
        from <= s@.len(),
    ensures
        r == digit_run(s@, from as int),
        from + r <= s@.len(),
{
    let n = s.unicode_len();
    let mut j = from;
    while j < n && is_digit(s.get_char(j))
        invariant
            from <= j <= n,
            n == s@.len(),
            digit_run(s@, from as int) == (j - from) + digit_run(s@, j as int),
        decreases n - j,
    {
        proof {
            assert(digit_run(s@, j as int) == 1 + digit_run(s@, j + 1));
        }
        j += 1;
    }
    proof {
        assert(digit_run(s@, j as int) == 0);
    }
    j - from
}

pub open spec fn nonbracket_run(s: Seq<char>, i: int) -> nat {
    run_len(s, i, |c: char| c != '[')
}

pub fn scan_nonbracket(s: &str, from: usize) -> (r: usize)
    requires
        from <= s@.len(),
    ensures
        r == nonbracket_run(s@, from as int),
        from + r <= s@.len(),
{
    let n = s.unicode_len();
    let mut j = from;
    while j < n && s.get_char(j) != '['
        invariant
            from <= j <= n,
            n == s@.len(),
            nonbracket_run(s@, from as int) == (j - from) + nonbracket_run(s@, j as int),
        decreases n - j,
    {
        proof {
            assert(nonbracket_run(s@, j as int) == 1 + nonbracket_run(s@, j + 1));
        }
        j += 1;
    }
    proof {
        assert(nonbracket_run(s@, j as int) == 0);
    }
    j - from
}

/// One past the last character of `s` that is not whitespace; 0 if all of
/// `s` is whitespace.
pub open spec fn rtrim_len(s: Seq<char>) -> nat
    decreases s.len(),
{
    if s.len() == 0 {
        0
    } else if is_space_char(s.last()) {
        rtrim_len(s.drop_last())
    } else {
        s.len()
    }
}

pub proof fn lemma_rtrim_len(s: Seq<char>)
    ensures
        rtrim_len(s) <= s.len(),
    decreases s.len(),
{
    if s.len() > 0 && is_space_char(s.last()) {
        lemma_rtrim_len(s.drop_last());
    }
}

/// `s` without its leading and trailing whitespace.
pub open spec fn spec_trim(s: Seq<char>) -> Seq<char> {
    if space_run(s, 0) >= rtrim_len(s) {
        Seq::empty()
    } else {
        s.subrange(space_run(s, 0) as int, rtrim_len(s) as int)
    }
}

/// The characters `s[a..b]` with surrounding whitespace removed.
pub fn trim_range(s: &str, a: usize, b: usize) -> (r: String)
    requires
        a <= b && b <= s@.len(),
    ensures
        r@ == spec_trim(s@.subrange(a as int, b as int)),
{
    let ghost sub = s@.subrange(a as int, b as int);
    let mut lo = a;
    while lo < b && is_space(s.get_char(lo))
        invariant
            a <= lo <= b,
            b <= s@.len(),
            sub == s@.subrange(a as int, b as int),
            space_run(sub, 0) == (lo - a) + space_run(sub, lo - a),
        decreases b - lo,
    {
        proof {
            assert(sub[lo - a] == s@[lo as int]);
            assert(space_run(sub, lo - a) == 1 + space_run(sub, lo - a + 1));
        }
        lo += 1;
    }
    proof {
        if lo < b {
            assert(sub[lo - a] == s@[lo as int]);
        }
        assert(space_run(sub, lo - a) == 0);
        lemma_rtrim_len(sub);
    }
    if lo == b {
        // all of the range is whitespace
        proof {
            assert(space_run(sub, 0) >= rtrim_len(sub));
        }
        return String::new();
    }
    proof {
        assert(sub[lo - a] == s@[lo as int]);
        assert(!is_space_char(sub[lo - a]));
        assert(sub.subrange(0, (b - a) as int) =~= sub);
    }
    let mut hi = b;
    while hi > lo && is_space(s.get_char(hi - 1))
        invariant
            lo < hi <= b,
            lo < b,
            b <= s@.len(),
            sub == s@.subrange(a as int, b as int),
            a <= lo,
            !is_space_char(sub[lo - a]),
            rtrim_len(sub) == rtrim_len(sub.subrange(0, hi - a)),
        decreases hi,
    {
        proof {
            let t = sub.subrange(0, hi - a);
            assert(t.last() == sub[hi - 1 - a]);
            assert(sub[hi - 1 - a] == s@[hi - 1]);
            assert(hi - 1 > lo) by {
                if hi - 1 == lo {
                    assert(is_space_char(sub[lo - a]));
                }
            }
            assert(t.drop_last() =~= sub.subrange(0, hi - 1 - a));
            assert(rtrim_len(t) == rtrim_len(sub.subrange(0, hi - 1 - a)));
        }
        hi -= 1;
    }
    proof {
        let t = sub.subrange(0, hi - a);
        assert(t.last() == sub[hi - 1 - a]);
        assert(sub[hi - 1 - a] == s@[hi - 1]);
        assert(!is_space_char(t.last()));
        assert(rtrim_len(t) == t.len());
        assert(rtrim_len(sub) == hi - a);
        assert(space_run(sub, 0) == lo - a);
        assert(s@.subrange(lo as int, hi as int) =~= sub.subrange(lo - a, hi - a));
    }
    let piece = s.substring_char(lo, hi);
    piece.to_owned()
}

/// Strict lexicographic order on character sequences, by code point.
pub open spec fn lex_lt(a: Seq<char>, b: Seq<char>) -> bool
    decreases a.len(),
{
    if b.len() == 0 {
        false
    } else if a.len() == 0 {
        true
    } else if a[0] == b[0] {
        lex_lt(a.drop_first(), b.drop_first())
    } else {
        a[0] < b[0]
    }
}

pub proof fn lemma_lex_lt_trans(a: Seq<char>, b: Seq<char>, c: Seq<char>)
    requires
        lex_lt(a, b),
        lex_lt(b, c),
    ensures
        lex_lt(a, c),
    decreases a.len(),
{
    if a.len() == 0 {
    } else if b.len() == 0 || c.len() == 0 {
    } else {
        if a[0] == b[0] && b[0] == c[0] {
            lemma_lex_lt_trans(a.drop_first(), b.drop_first(), c.drop_first());
        }
    }
}

/// Any two sequences are ordered one way or the other, or are equal.
pub proof fn lemma_lex_lt_total(a: Seq<char>, b: Seq<char>)
    ensures
        lex_lt(a, b) || lex_lt(b, a) || a == b,
    decreases a.len(),
{
    if a.len() == 0 && b.len() == 0 {
        assert(a =~= b);
    } else if a.len() > 0 && b.len() > 0 && a[0] == b[0] {
        lemma_lex_lt_total(a.drop_first(), b.drop_first());
        if a.drop_first() == b.drop_first() {
            assert(a.drop_first().len() == b.drop_first().len());
            assert(a.len() == b.len());
            assert forall|k: int| 0 <= k < a.len() implies a[k] == b[k] by {
                if k > 0 {
                    assert(a[k] == a.drop_first()[k - 1]);
                    assert(b[k] == b.drop_first()[k - 1]);
                }
            }
            assert(a =~= b);
        }
    }
}

pub fn str_lt(a: &str, b: &str) -> (r: bool)
    ensures
        r == lex_lt(a@, b@),
{
    let na = a.unicode_len();
    let nb = b.unicode_len();
    let mut i: usize = 0;
    proof {
        assert(a@.skip(0) =~= a@);
        assert(b@.skip(0) =~= b@);
    }
    loop
        invariant
            i <= na,
            i <= nb,
            na == a@.len(),
            nb == b@.len(),
            lex_lt(a@, b@) == lex_lt(a@.skip(i as int), b@.skip(i as int)),
            forall|k: int| 0 <= k < i ==> a@[k] == b@[k],
        decreases na - i,
    {
        if i == nb {
            return false;
        }
        if i == na {
            return true;
        }
        let ca = a.get_char(i);
        let cb = b.get_char(i);
        if ca != cb {
            proof {
                assert(a@.skip(i as int)[0] == a@[i as int]);
                assert(b@.skip(i as int)[0] == b@[i as int]);
            }
            return ca < cb;
        }
        proof {
            assert(a@.skip(i as int)[0] == b@.skip(i as int)[0]);
            assert(a@.skip(i as int).drop_first() =~= a@.skip(i + 1));
            assert(b@.skip(i as int).drop_first() =~= b@.skip(i + 1));
        }
        i += 1;
    }
}

/// `needle` occurs in `hay` as a contiguous substring.
pub open spec fn contains_seq(hay: Seq<char>, needle: Seq<char>) -> bool {
    exists|i: int|
        0 <= i && i + needle.len() <= hay.len() && #[trigger] hay.subrange(i, i + needle.len())
            == needle
}

fn match_at(hay: &str, needle: &str, i: usize) -> (r: bool)
    requires
        i + needle@.len() <= hay@.len(),
    ensures
        r == (hay@.subrange(i as int, i + needle@.len()) == needle@),
{
    let n = hay.unicode_len();
    let m = needle.unicode_len();
    let mut j: usize = 0;
    while j < m
        invariant
            j <= m,
            n == hay@.len(),
            m == needle@.len(),
            i + m <= hay@.len(),
            forall|k: int| 0 <= k < j ==> hay@[i + k] == needle@[k],
        decreases m - j,
    {
        if hay.get_char(i + j) != needle.get_char(j) {
            proof {
                assert(hay@.subrange(i as int, i + needle@.len())[j as int] != needle@[j as int]);
            }
            return false;
        }
        j += 1;
    }
    proof {
        assert(hay@.subrange(i as int, i + needle@.len()) =~= needle@);
    }
    true
}

pub fn contains_substr(hay: &str, needle: &str) -> (r: bool)
    ensures
        r == contains_seq(hay@, needle@),
{
    let n = hay.unicode_len();
    let m = needle.unicode_len();
    if m > n {
        proof {
            assert forall|i: int| 0 <= i && i + needle@.len() <= hay@.len()
                implies #[trigger] hay@.subrange(i, i + needle@.len()) != needle@ by {}
        }
        return false;
    }
    if m == 0 {
        proof {
            assert(hay@.subrange(0, 0int + needle@.len()) =~= needle@);
            assert(contains_seq(hay@, needle@));
        }
        return true;
    }
    let mut i: usize = 0;
    while i <= n - m
        invariant
            1 <= m <= n,
            n == hay@.len(),
            m == needle@.len(),
            i <= n - m + 1,
            forall|k: int| 0 <= k < i ==> #[trigger] hay@.subrange(k, k + needle@.len())
                != needle@,
        decreases n - i,
    {
        if match_at(hay, needle, i) {
            proof {
                let w = i as int;
                assert(0 <= w && w + needle@.len() <= hay@.len() && hay@.subrange(
                    w,
                    w + needle@.len(),
                ) == needle@);
                assert(contains_seq(hay@, needle@));
            }
            return true;
        }
        i += 1;
    }
    proof {
        assert forall|k: int| 0 <= k && k + needle@.len() <= hay@.len()
            implies #[trigger] hay@.subrange(k, k + needle@.len()) != needle@ by {
            assert(k < i);
        }
    }
    false
}

/// `l` with one trailing carriage return removed, as the line splitter
/// treats the pieces that a newline terminated.
pub open spec fn chomp_cr(l: Seq<char>) -> Seq<char> {
    if l.len() > 0 && l.last() == '\r' {
        l.drop_last()
    } else {
        l
    }
}

pub open spec fn nonnl_run(s: Seq<char>, i: int) -> nat {
    run_len(s, i, |c: char| c != '\n')
}

/// The newline-delimited records of `s[i..]`: each piece before a newline
/// with a trailing carriage return removed, and, when `s` does not end in a
/// newline, the final piece unaltered.
pub open spec fn split_from(s: Seq<char>, i: int) -> Seq<Seq<char>>
    decreases s.len() - i,
{
    if i < 0 || i >= s.len() {
        Seq::empty()
    } else {
        let k = nonnl_run(s, i);
        if i + k >= s.len() {
            seq![s.subrange(i, s.len() as int)]
        } else {
            seq![chomp_cr(s.subrange(i, i + k))] + split_from(s, i + k + 1)
        }
    }
}

pub open spec fn spec_split_lines(s: Seq<char>) -> Seq<Seq<char>> {
    split_from(s, 0)
}

/// Count of newline characters in `s[i..]`.
pub open spec fn nl_count(s: Seq<char>, i: int) -> nat
    decreases s.len() - i,
{
    if i < 0 || i >= s.len() {
        0
    } else if s[i] == '\n' {
        (1 + nl_count(s, i + 1)) as nat
    } else {
        nl_count(s, i + 1)
    }
}

/// The number of newline-delimited records of `s`: one per newline, plus a
/// final one when `s` does not end with a newline.
pub open spec fn spec_line_count(s: Seq<char>) -> nat {
    (nl_count(s, 0) + if s.len() > 0 && s.last() != '\n' {
        1nat
    } else {
        0nat
    }) as nat
}

proof fn lemma_nl_count_skip_run(s: Seq<char>, i: int, j: int)
    requires
        0 <= i <= j <= s.len(),
        forall|k: int| i <= k < j ==> s[k] != '\n',
    ensures
        nl_count(s, i) == nl_count(s, j),
    decreases j - i,
{
    if i < j {
        lemma_nl_count_skip_run(s, i + 1, j);
    }
}

proof fn lemma_split_from_count(s: Seq<char>, i: int)
    requires
        0 <= i <= s.len(),
    ensures
        split_from(s, i).len() == nl_count(s, i) + if i < s.len() && s.last() != '\n' {
            1int
        } else {
            0int
        },
    decreases s.len() - i,
{
    if i < s.len() {
        let k = nonnl_run(s, i);
        lemma_run_len(s, i, |c: char| c != '\n');
        if i + k >= s.len() {
            lemma_nl_count_skip_run(s, i, s.len() as int);
            assert(s.last() != '\n');
        } else {
            assert(s[i + k] == '\n');
            lemma_nl_count_skip_run(s, i, i + k);
            assert(nl_count(s, i + k) == 1 + nl_count(s, i + k + 1));
            lemma_split_from_count(s, i + k + 1);
        }
    }
}

/// A text's newline-delimited records are exactly as many as
/// `spec_line_count` says: one per newline, plus the trailing piece when the
/// text does not end with a newline.
pub proof fn lemma_split_line_count(s: Seq<char>)
    ensures
        spec_split_lines(s).len() == spec_line_count(s),
{
    lemma_split_from_count(s, 0);
    if s.len() > 0 {
        assert(0 < s.len());
    }
}

/// Splits a text into its newline-delimited records; a piece that a newline
/// terminated loses one trailing carriage return, the final unterminated
/// piece keeps its characters.
pub fn split_lines(text: &str) -> (r: Vec<String>)
    ensures
        r@.map_values(|l: String| l@) == spec_split_lines(text@),
        r@.len() == spec_line_count(text@),
{
    let n = text.unicode_len();
    let mut out: Vec<String> = Vec::new();
    let mut pos: usize = 0;
    while pos < n
        invariant
            pos <= n,
            n == text@.len(),
            out@.map_values(|l: String| l@) + split_from(text@, pos as int) == spec_split_lines(
                text@,
            ),
        decreases n - pos,
    {
        let k = scan_nonnl(text, pos);
        let ghost pre = out@.map_values(|l: String| l@);
        if pos + k >= n {
            let piece = text.substring_char(pos, n).to_owned();
            out.push(piece);
            proof {
                assert(out@.map_values(|l: String| l@) =~= pre + seq![
                    text@.subrange(pos as int, n as int),
                ]);
                assert(out@.map_values(|l: String| l@) + split_from(text@, n as int)
                    =~= spec_split_lines(text@));
            }
            pos = n;
        } else {
            let mut end = pos + k;
            proof {
                lemma_run_len(text@, pos as int, |c: char| c != '\n');
            }
            let ghost raw = text@.subrange(pos as int, pos + k);
            if k > 0 && text.get_char(end - 1) == '\r' {
                proof {
                    assert(raw.last() == text@[pos + k - 1]);
                    assert(chomp_cr(raw) =~= text@.subrange(pos as int, pos + k - 1));
                }
                end -= 1;
            } else {
                proof {
                    if raw.len() > 0 {
                        assert(raw.last() == text@[pos + k - 1]);
                    }
                    assert(chomp_cr(raw) =~= raw);
                }
            }
            let piece = text.substring_char(pos, end).to_owned();
            out.push(piece);
            proof {
                assert(piece@ =~= chomp_cr(raw));
                assert(out@.map_values(|l: String| l@) =~= pre + seq![chomp_cr(raw)]);
                assert(pre + seq![chomp_cr(raw)] + split_from(text@, pos + k + 1)
                    =~= pre + split_from(text@, pos as int));
            }
            pos = pos + k + 1;
        }
    }
    proof {
        assert(split_from(text@, pos as int) =~= Seq::<Seq<char>>::empty());
        assert(out@.map_values(|l: String| l@) =~= spec_split_lines(text@));
        lemma_split_line_count(text@);
    }
    out
}

pub fn scan_nonnl(s: &str, from: usize) -> (r: usize)
    requires
        from <= s@.len(),
    ensures
        r == nonnl_run(s@, from as int),
        from + r <= s@.len(),
{
    let n = s.unicode_len();
    let mut j = from;
    while j < n && s.get_char(j) != '\n'
        invariant
            from <= j <= n,
            n == s@.len(),
            nonnl_run(s@, from as int) == (j - from) + nonnl_run(s@, j as int),
        decreases n - j,
    {
        proof {
            assert(nonnl_run(s@, j as int) == 1 + nonnl_run(s@, j + 1));
        }
        j += 1;
    }
    proof {
        assert(nonnl_run(s@, j as int) == 0);
    }
    j - from
}

} // verus!
