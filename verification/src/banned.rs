//! Banned-list sanitization: raw banned-list text becomes a clean,
//! deduplicated, lexicographically sorted collection of function-name
//! tokens. Lines are trimmed; empty and `#`-comment lines are skipped;
//! invisible-format and control characters are stripped anywhere in a line;
//! the rest splits on whitespace into tokens, optionally filtered by a
//! compiled name pattern.

use vstd::prelude::*;

use crate::chars::{
    is_invisible_format_char, control_char, whitespace_char, is_kept_char, is_whitespace_char,
};
use crate::extract::views_of;
use crate::pattern::{passes_filter, token_passes};
use crate::strutil::{chars_eq, chars_lt, chars_of, lex_lt, string_from_chars};
use crate::strutil::{lemma_lex_lt_asym, lemma_lex_lt_irrefl, lemma_lex_lt_total, lemma_lex_lt_trans};

verus! {

/// A line's trailing carriage return, left by a CRLF line ending, is
/// dropped.
pub open spec fn strip_cr(l: Seq<char>) -> Seq<char> {
    if l.len() > 0 && l.last() == '\r' {
        l.drop_last()
    } else {
        l
    }
}

/// The lines of `s` from position `i` on, with the current line having
/// begun at `start`: a newline closes a line (its trailing carriage return
/// stripped); a final segment without a newline is kept as it stands, if
/// nonempty.
pub open spec fn lines_scan(s: Seq<char>, i: int, start: int) -> Seq<Seq<char>>
    recommends
        0 <= start <= i <= s.len(),
    decreases s.len() - i
        when i <= s.len()
{
    if i >= s.len() {
        if i > start {
            seq![s.subrange(start, i)]
        } else {
            Seq::empty()
        }
    } else if s[i] == '\n' {
        seq![strip_cr(s.subrange(start, i))] + lines_scan(s, i + 1, i + 1)
    } else {
        lines_scan(s, i + 1, start)
    }
}

/// The lines of a banned-list source text.
pub open spec fn lines_spec(s: Seq<char>) -> Seq<Seq<char>> {
    lines_scan(s, 0, 0)
}

/// Leading whitespace removed.
pub open spec fn trim_front(s: Seq<char>) -> Seq<char>
    decreases s.len(),
{
    if s.len() > 0 && is_whitespace_char(s[0]) {
        trim_front(s.skip(1))
    } else {
        s
    }
}

/// Trailing whitespace removed.
pub open spec fn trim_back(s: Seq<char>) -> Seq<char>
    decreases s.len(),
{
    if s.len() > 0 && is_whitespace_char(s.last()) {
        trim_back(s.drop_last())
    } else {
        s
    }
}

/// Leading and trailing whitespace removed.
pub open spec fn trim_spec(s: Seq<char>) -> Seq<char> {
    trim_back(trim_front(s))
}

proof fn lemma_trim_front_at(s: Seq<char>, lo: int)
    requires
        0 <= lo <= s.len(),
        forall|k: int| 0 <= k < lo ==> is_whitespace_char(s[k]),
        lo == s.len() || !is_whitespace_char(s[lo]),
    ensures
        trim_front(s) == s.skip(lo),
    decreases lo,
{
    if lo == 0 {
        assert(s.skip(0) =~= s);
    } else {
        lemma_trim_front_at(s.skip(1), lo - 1);
        assert(s.skip(1).skip(lo - 1) =~= s.skip(lo));
    }
}

proof fn lemma_trim_back_at(s: Seq<char>, hi: int)
    requires
        0 <= hi <= s.len(),
        forall|k: int| hi <= k < s.len() ==> is_whitespace_char(s[k]),
        hi == 0 || !is_whitespace_char(s[hi - 1]),
    ensures
        trim_back(s) == s.subrange(0, hi),
    decreases s.len(),
{
    if hi == s.len() {
        if s.len() == 0 {
            assert(s.subrange(0, 0) =~= s);
        } else {
            assert(s.subrange(0, s.len() as int) =~= s);
        }
    } else {
        lemma_trim_back_at(s.drop_last(), hi);
        assert(s.drop_last().subrange(0, hi) =~= s.subrange(0, hi));
    }
}

/// Removes leading and trailing whitespace from a character vector.
pub fn trim_chars(v: &Vec<char>) -> (t: Vec<char>)
    ensures
        t@ == trim_spec(v@),
{
    let n = v.len();
    let mut lo: usize = 0;
    while lo < n && whitespace_char(v[lo])
        invariant
            n == v@.len(),
            lo <= n,
            forall|k: int| 0 <= k < lo ==> is_whitespace_char(v@[k]),
        decreases n - lo,
    {
        lo += 1;
    }
    proof {
        lemma_trim_front_at(v@, lo as int);
    }
    let mut hi: usize = n;
    while hi > lo && whitespace_char(v[hi - 1])
        invariant
            n == v@.len(),
            lo <= hi <= n,
            forall|k: int| hi <= k < n ==> is_whitespace_char(v@[k]),
        decreases hi,
    {
        hi -= 1;
    }
    proof {
        let rest = v@.skip(lo as int);
        assert(forall|k: int|
            hi - lo <= k < rest.len() ==> is_whitespace_char(#[trigger] rest[k]));
        lemma_trim_back_at(rest, hi - lo);
    }
    let mut t: Vec<char> = Vec::new();
    let mut j: usize = lo;
    while j < hi
        invariant
            lo <= j <= hi <= n,
            n == v@.len(),
            t@ == v@.subrange(lo as int, j as int),
        decreases hi - j,
    {
        t.push(v[j]);
        proof {
            assert(t@ =~= v@.subrange(lo as int, j + 1 as int));
        }
        j += 1;
    }
    proof {
        assert(v@.skip(lo as int).subrange(0, hi - lo) =~= v@.subrange(lo as int, hi as int));
    }
    t
}

/// The sanitized form of a line: every invisible-format character and every
/// control character removed, wherever it stands.
pub open spec fn sanitize_spec(s: Seq<char>) -> Seq<char> {
    s.filter(|c: char| is_kept_char(c))
}

proof fn lemma_filter_push(s: Seq<char>, pred: spec_fn(char) -> bool, c: char)
    ensures
        s.push(c).filter(pred) == if pred(c) {
            s.filter(pred).push(c)
        } else {
            s.filter(pred)
        },
{
    reveal(Seq::filter);
    assert(s.push(c).drop_last() =~= s);
    assert(s.push(c).last() == c);
}

/// Strips invisible/zero-width formatting characters and control
/// characters from a token or line, wherever they appear.
pub fn sanitize_token(input: &str) -> (r: String)
    ensures
        r@ == sanitize_spec(input@),
{
    let v = chars_of(input);
    let kept = sanitize_chars(&v);
    string_from_chars(&kept)
}

/// Strips invisible/zero-width formatting characters and control
/// characters from a character vector.
pub fn sanitize_chars(v: &Vec<char>) -> (r: Vec<char>)
    ensures
        r@ == sanitize_spec(v@),
{
    let mut r: Vec<char> = Vec::new();
    let mut i: usize = 0;
    while i < v.len()
        invariant
            i <= v@.len(),
            r@ == sanitize_spec(v@.subrange(0, i as int)),
        decreases v@.len() - i,
    {
        let c = v[i];
        proof {
            assert(v@.subrange(0, i as int).push(c) =~= v@.subrange(0, i + 1 as int));
            lemma_filter_push(v@.subrange(0, i as int), |x: char| is_kept_char(x), c);
        }
        if !is_invisible_format_char(c) && !control_char(c) {
            r.push(c);
        }
        i += 1;
    }
    proof {
        assert(v@.subrange(0, v@.len() as int) =~= v@);
    }
    r
}

/// The whitespace-separated tokens of `s` from position `i` on, with the
/// current token having begun at `start`: maximal nonempty runs of
/// non-whitespace characters.
pub open spec fn tokens_scan(s: Seq<char>, i: int, start: int) -> Seq<Seq<char>>
    recommends
        0 <= start <= i <= s.len(),
    decreases s.len() - i
        when i <= s.len()
{
    if i >= s.len() {
        if i > start {
            seq![s.subrange(start, i)]
        } else {
            Seq::empty()
        }
    } else if !is_whitespace_char(s[i]) {
        tokens_scan(s, i + 1, start)
    } else if i > start {
        seq![s.subrange(start, i)] + tokens_scan(s, i + 1, i + 1)
    } else {
        tokens_scan(s, i + 1, i + 1)
    }
}

/// The whitespace-separated tokens of a cleaned line.
pub open spec fn tokens_spec(s: Seq<char>) -> Seq<Seq<char>> {
    tokens_scan(s, 0, 0)
}

/// The tokens a single banned-list line contributes, before the name
/// filter: none for a blank or `#`-comment line, otherwise the
/// whitespace-separated tokens of the line's sanitized form.
pub open spec fn line_tokens(line: Seq<char>) -> Seq<Seq<char>> {
    let t = trim_spec(line);
    if t.len() == 0 || t[0] == '#' {
        Seq::empty()
    } else {
        tokens_spec(sanitize_spec(t))
    }
}

/// Whether some line of `ls` contributes the token `t`.
pub open spec fn token_in_lines(ls: Seq<Seq<char>>, t: Seq<char>) -> bool {
    exists|li: int| 0 <= li < ls.len() && #[trigger] line_tokens(ls[li]).contains(t)
}

/// Whether the token `t` survives sanitization of `source` under the
/// optional name filter: some line contributes it and it passes the filter.
pub open spec fn token_survives(
    source: Seq<char>,
    filter: Option<&regex::Regex>,
    t: Seq<char>,
) -> bool {
    token_in_lines(lines_spec(source), t) && passes_filter(filter, t)
}

/// Whether some string of `v` has view `t`.
pub open spec fn contains_view(v: Seq<String>, t: Seq<char>) -> bool {
    exists|i: int| 0 <= i < v.len() && #[trigger] v[i]@ == t
}

/// Strict ascending lexicographic order over a sequence of strings: sorted,
/// with no duplicates.
pub open spec fn strictly_sorted(v: Seq<Seq<char>>) -> bool {
    forall|i: int, j: int| 0 <= i < j < v.len() ==> lex_lt(#[trigger] v[i], #[trigger] v[j])
}

/// Whether a string comes strictly before the given characters in
/// lexicographic order.
fn str_below(a: &String, b: &Vec<char>) -> (r: bool)
    ensures
        r == lex_lt(a@, b@),
{
    let av = chars_of(a.as_str());
    chars_lt(&av, b)
}

/// Inserts a name into a strictly sorted vector, keeping it strictly
/// sorted; a name already present is not inserted again.
pub fn insert_sorted(v: &mut Vec<String>, s: String)
    requires
        strictly_sorted(views_of(old(v)@)),
    ensures
        strictly_sorted(views_of(final(v)@)),
        forall|t: Seq<char>|
            #[trigger] contains_view(final(v)@, t) <==> (contains_view(old(v)@, t) || t == s@),
{
    let sv = chars_of(s.as_str());
    let mut j: usize = 0;
    while j < v.len() && str_below(&v[j], &sv)
        invariant
            j <= v@.len(),
            sv@ == s@,
            forall|k: int| 0 <= k < j ==> lex_lt(views_of(v@)[k], s@),
        decreases v@.len() - j,
    {
        j += 1;
    }
    if j < v.len() {
        let cand = chars_of(v[j].as_str());
        if chars_eq(&cand, &sv) {
            proof {
                assert(contains_view(v@, s@)) by {
                    assert(v@[j as int]@ == s@);
                }
            }
            return ;
        }
    }
    proof {
        if j < v@.len() {
            lemma_lex_lt_total(s@, views_of(v@)[j as int]);
        }
    }
    let ghost oldv = v@;
    v.insert(j, s);
    proof {
        oldv.insert_ensures(j as int, s);
        let nv = views_of(v@);
        let ov = views_of(oldv);
        assert(nv.len() == ov.len() + 1);
        assert(forall|k: int| 0 <= k < j ==> nv[k] == ov[k]);
        assert(nv[j as int] == s@);
        assert(forall|k: int| j < k < nv.len() ==> nv[k] == ov[k - 1]);
        assert forall|a: int, b: int| 0 <= a < b < nv.len() implies lex_lt(nv[a], nv[b]) by {
            if a == j as int && b - 1 > j as int {
                lemma_lex_lt_trans(s@, ov[j as int], ov[b - 1]);
            }
        }
        assert forall|t: Seq<char>|
            #[trigger] contains_view(v@, t) <==> (contains_view(oldv, t) || t == s@) by {
            if contains_view(v@, t) {
                let i = choose|i: int| 0 <= i < v@.len() && v@[i]@ == t;
                if i == j as int {
                } else if i < j as int {
                    assert(oldv[i]@ == t);
                } else {
                    assert(oldv[i - 1]@ == t);
                }
            }
            if contains_view(oldv, t) {
                let i = choose|i: int| 0 <= i < oldv.len() && oldv[i]@ == t;
                if i < j as int {
                    assert(v@[i]@ == t);
                } else {
                    assert(v@[i + 1]@ == t);
                }
            }
            if t == s@ {
                assert(v@[j as int]@ == t);
            }
        }
    }
}

proof fn lemma_push_contains<A>(s: Seq<A>, x: A)
    ensures
        forall|t: A| #[trigger] s.push(x).contains(t) <==> (s.contains(t) || t == x),
{
    assert forall|t: A| #[trigger] s.push(x).contains(t) <==> (s.contains(t) || t == x) by {
        if s.push(x).contains(t) {
            let i = choose|i: int| 0 <= i < s.push(x).len() && s.push(x)[i] == t;
            if i < s.len() {
                assert(s[i] == t);
            }
        }
        if s.contains(t) {
            let i = choose|i: int| 0 <= i < s.len() && s[i] == t;
            assert(s.push(x)[i] == t);
        }
        if t == x {
            assert(s.push(x)[s.len() as int] == t);
        }
    }
}

proof fn lemma_token_in_lines_push(ls: Seq<Seq<char>>, l: Seq<char>)
    ensures
        forall|t: Seq<char>|
            #[trigger] token_in_lines(ls.push(l), t) <==> (token_in_lines(ls, t)
                || line_tokens(l).contains(t)),
{
    assert forall|t: Seq<char>|
        #[trigger] token_in_lines(ls.push(l), t) <==> (token_in_lines(ls, t) || line_tokens(
            l,
        ).contains(t)) by {
        if token_in_lines(ls.push(l), t) {
            let li = choose|li: int|
                0 <= li < ls.push(l).len() && #[trigger] line_tokens(ls.push(l)[li]).contains(t);
            if li < ls.len() {
                assert(line_tokens(ls[li]).contains(t));
            } else {
                assert(ls.push(l)[li] == l);
            }
        }
        if token_in_lines(ls, t) {
            let li = choose|li: int|
                0 <= li < ls.len() && #[trigger] line_tokens(ls[li]).contains(t);
            assert(ls.push(l)[li] == ls[li]);
            assert(line_tokens(ls.push(l)[li]).contains(t));
        }
        if line_tokens(l).contains(t) {
            assert(ls.push(l)[ls.len() as int] == l);
            assert(line_tokens(ls.push(l)[ls.len() as int]).contains(t));
        }
    }
}

/// Feeds every token of one banned-list line through the name filter and
/// into the sorted collection: nothing for a blank or comment line, else
/// the whitespace-separated tokens of the sanitized line that pass the
/// filter.
fn process_line(line: &Vec<char>, filter: Option<&regex::Regex>, out: &mut Vec<String>)
    requires
        strictly_sorted(views_of(old(out)@)),
    ensures
        strictly_sorted(views_of(final(out)@)),
        forall|t: Seq<char>|
            #[trigger] contains_view(final(out)@, t) <==> (contains_view(old(out)@, t) || (
            line_tokens(line@).contains(t) && passes_filter(filter, t))),
{
    let trimmed = trim_chars(line);
    if trimmed.len() == 0 {
        return ;
    }
    if trimmed[0] == '#' {
        return ;
    }
    let cleaned = sanitize_chars(&trimmed);
    let ghost cl = cleaned@;
    let mut tok: Vec<char> = Vec::new();
    let ghost mut tstart: int = 0;
    let ghost mut tdone: Seq<Seq<char>> = Seq::empty();
    let mut p: usize = 0;
    while p < cleaned.len()
        invariant
            cl == cleaned@,
            0 <= tstart <= p as int <= cl.len(),
            tok@ == cl.subrange(tstart, p as int),
            tdone + tokens_scan(cl, p as int, tstart) == tokens_spec(cl),
            strictly_sorted(views_of(out@)),
            forall|t: Seq<char>|
                #[trigger] contains_view(out@, t) <==> (contains_view(old(out)@, t) || (
                tdone.contains(t) && passes_filter(filter, t))),
        decreases cl.len() - p,
    {
        let c = cleaned[p];
        if !whitespace_char(c) {
            tok.push(c);
            proof {
                assert(tok@ =~= cl.subrange(tstart, p + 1 as int));
            }
        } else {
            if tok.len() > 0 {
                let ts = string_from_chars(&tok);
                let keep = token_passes(filter, ts.as_str());
                if keep {
                    insert_sorted(out, ts);
                }
                proof {
                    lemma_push_contains(tdone, tok@);
                    tdone = tdone.push(tok@);
                    assert(tdone + tokens_scan(cl, p + 1, p + 1) =~= tdone.drop_last() + (seq![
                        cl.subrange(tstart, p as int),
                    ] + tokens_scan(cl, p + 1, p + 1)));
                }
            }
            tok.clear();
            proof {
                tstart = p + 1;
                assert(tok@ =~= cl.subrange(tstart, p + 1 as int));
            }
        }
        p += 1;
    }
    if tok.len() > 0 {
        let ts = string_from_chars(&tok);
        let keep = token_passes(filter, ts.as_str());
        if keep {
            insert_sorted(out, ts);
        }
        proof {
            lemma_push_contains(tdone, tok@);
            tdone = tdone.push(tok@);
            assert(tdone =~= tdone.drop_last() + seq![cl.subrange(tstart, cl.len() as int)]);
        }
    } else {
        proof {
            assert(tdone =~= tdone + tokens_scan(cl, cl.len() as int, tstart));
        }
    }
    proof {
        assert(line_tokens(line@) == tdone);
    }
}

/// Parses raw banned-list text into the sanitized banned-name collection:
/// each line is trimmed; blank and `#`-comment lines are skipped;
/// invisible-format and control characters are stripped anywhere in the
/// line; the rest splits on whitespace into tokens; a token survives if it
/// passes the optional name filter. The result holds each surviving token
/// exactly once, in ascending lexicographic (code point) order.
pub fn parse_and_sanitize_banned(source: &str, filter: Option<&regex::Regex>) -> (out: Vec<String>)
    ensures
        strictly_sorted(views_of(out@)),
        forall|t: Seq<char>|
            #[trigger] contains_view(out@, t) <==> token_survives(source@, filter, t),
{
    let cs = chars_of(source);
    let mut out: Vec<String> = Vec::new();
    let mut cur: Vec<char> = Vec::new();
    let ghost mut start: int = 0;
    let ghost mut done: Seq<Seq<char>> = Seq::empty();
    let mut i: usize = 0;
    while i < cs.len()
        invariant
            cs@ == source@,
            0 <= start <= i as int <= cs@.len(),
            cur@ == cs@.subrange(start, i as int),
            done + lines_scan(cs@, i as int, start) == lines_spec(cs@),
            strictly_sorted(views_of(out@)),
            forall|t: Seq<char>|
                #[trigger] contains_view(out@, t) <==> (token_in_lines(done, t) && passes_filter(
                    filter,
                    t,
                )),
        decreases cs@.len() - i,
    {
        let c = cs[i];
        if c == '\n' {
            if cur.len() > 0 && cur[cur.len() - 1] == '\r' {
                cur.pop();
            }
            proof {
                assert(cur@ =~= strip_cr(cs@.subrange(start, i as int)));
            }
            process_line(&cur, filter, &mut out);
            proof {
                lemma_token_in_lines_push(done, cur@);
                done = done.push(cur@);
                assert(done + lines_scan(cs@, i + 1, i + 1) =~= done.drop_last() + (seq![
                    strip_cr(cs@.subrange(start, i as int)),
                ] + lines_scan(cs@, i + 1, i + 1)));
            }
            cur.clear();
            proof {
                start = i + 1;
                assert(cur@ =~= cs@.subrange(start, i + 1 as int));
            }
        } else {
            cur.push(c);
            proof {
                assert(cur@ =~= cs@.subrange(start, i + 1 as int));
            }
        }
        i += 1;
    }
    if cur.len() > 0 {
        process_line(&cur, filter, &mut out);
        proof {
            lemma_token_in_lines_push(done, cur@);
            assert(cs@.len() > start);
            assert(lines_scan(cs@, cs@.len() as int, start) == seq![
                cs@.subrange(start, cs@.len() as int),
            ]);
            done = done.push(cur@);
            assert(done =~= done.drop_last() + seq![cs@.subrange(start, cs@.len() as int)]);
            assert(done == lines_spec(cs@));
        }
    } else {
        proof {
            assert(lines_scan(cs@, cs@.len() as int, start) == Seq::<Seq<char>>::empty());
            assert(done =~= done + lines_scan(cs@, cs@.len() as int, start));
            assert(done == lines_spec(cs@));
        }
    }
    out
}

/// A token as the sanitizer itself emits them: nonempty, not beginning with
/// the comment mark, and free of whitespace, control and invisible-format
/// characters.
pub open spec fn clean_token(t: Seq<char>) -> bool {
    &&& t.len() > 0
    &&& t[0] != '#'
    &&& forall|j: int| 0 <= j < t.len() ==> !is_whitespace_char(#[trigger] t[j]) && is_kept_char(t[j])
}

proof fn lemma_filter_all(s: Seq<char>, pred: spec_fn(char) -> bool)
    requires
        forall|j: int| 0 <= j < s.len() ==> pred(#[trigger] s[j]),
    ensures
        s.filter(pred) == s,
    decreases s.len(),
{
    reveal(Seq::filter);
    if s.len() == 0 {
        assert(s.filter(pred) =~= s);
    } else {
        lemma_filter_all(s.drop_last(), pred);
        assert(s.filter(pred) =~= s);
    }
}

proof fn lemma_tokens_scan_nows(t: Seq<char>, i: int)
    requires
        0 <= i <= t.len(),
        t.len() > 0,
        forall|j: int| 0 <= j < t.len() ==> !is_whitespace_char(#[trigger] t[j]),
    ensures
        tokens_scan(t, i, 0) == seq![t],
    decreases t.len() - i,
{
    if i >= t.len() {
        assert(t.subrange(0, t.len() as int) =~= t);
    } else {
        lemma_tokens_scan_nows(t, i + 1);
    }
}

proof fn lemma_line_tokens_clean(t: Seq<char>)
    requires
        clean_token(t),
    ensures
        line_tokens(t) == seq![t],
{
    assert(trim_front(t) == t);
    assert(trim_back(t) == t);
    assert(trim_spec(t) == t);
    lemma_filter_all(t, |c: char| is_kept_char(c));
    assert(sanitize_spec(t) == t);
    lemma_tokens_scan_nows(t, 0);
}

/// Sanitization is idempotent: a source whose lines are exactly an already
/// sanitized, deduplicated token list — nonempty names free of whitespace,
/// control and invisible-format characters, none beginning with the comment
/// mark — survives unchanged: the surviving tokens are exactly the lines.
pub proof fn lemma_sanitize_idempotent(source: Seq<char>, tokens: Seq<Seq<char>>)
    requires
        lines_spec(source) == tokens,
        forall|k: int| 0 <= k < tokens.len() ==> clean_token(#[trigger] tokens[k]),
    ensures
        forall|t: Seq<char>| #[trigger] token_survives(source, None, t) <==> tokens.contains(t),
{
    assert forall|t: Seq<char>| #[trigger] token_survives(source, None, t) <==> tokens.contains(
        t,
    ) by {
        if token_survives(source, None, t) {
            let li = choose|li: int|
                0 <= li < tokens.len() && #[trigger] line_tokens(tokens[li]).contains(t);
            lemma_line_tokens_clean(tokens[li]);
            assert(seq![tokens[li]][0] == tokens[li]);
            assert(tokens[li] == t);
        }
        if tokens.contains(t) {
            let li = choose|li: int| 0 <= li < tokens.len() && tokens[li] == t;
            lemma_line_tokens_clean(tokens[li]);
            assert(seq![t][0] == t);
            assert(line_tokens(tokens[li]).contains(t));
            assert(token_in_lines(tokens, t));
        }
    }
}

/// Two strictly sorted name sequences with the same members are the same
/// sequence: together with the sanitizer's contract, re-sanitizing a
/// sanitized list gives back the identical list.
pub proof fn lemma_strictly_sorted_unique(a: Seq<Seq<char>>, b: Seq<Seq<char>>)
    requires
        strictly_sorted(a),
        strictly_sorted(b),
        forall|t: Seq<char>| #[trigger] a.contains(t) <==> b.contains(t),
    ensures
        a == b,
    decreases a.len(),
{
    if a.len() == 0 {
        if b.len() > 0 {
            assert(b.contains(b[0]));
            assert(a.contains(b[0]));
        }
        assert(a =~= b);
    } else {
        assert(a.contains(a[0]));
        assert(b.contains(b[0]));
        assert(b.contains(a[0]));
        assert(a.contains(b[0]));
        let j = choose|j: int| 0 <= j < b.len() && b[j] == a[0];
        let i = choose|i: int| 0 <= i < a.len() && a[i] == b[0];
        if a[0] != b[0] {
            assert(j > 0);
            assert(i > 0);
            assert(lex_lt(b[0], b[j]));
            assert(lex_lt(a[0], a[i]));
            lemma_lex_lt_asym(a[0], b[0]);
            assert(false);
        }
        let at = a.skip(1);
        let bt = b.skip(1);
        assert(forall|k: int| 0 <= k < at.len() ==> #[trigger] at[k] == a[k + 1]);
        assert(forall|k: int| 0 <= k < bt.len() ==> #[trigger] bt[k] == b[k + 1]);
        assert forall|t: Seq<char>| #[trigger] at.contains(t) <==> bt.contains(t) by {
            if at.contains(t) {
                let k = choose|k: int| 0 <= k < at.len() && at[k] == t;
                assert(a.contains(t)) by {
                    assert(a[k + 1] == t);
                }
                if t == a[0] {
                    assert(lex_lt(a[0], a[k + 1]));
                    lemma_lex_lt_irrefl(a[0]);
                    assert(false);
                }
                let q = choose|q: int| 0 <= q < b.len() && b[q] == t;
                assert(q > 0);
                assert(bt[q - 1] == t);
            }
            if bt.contains(t) {
                let k = choose|k: int| 0 <= k < bt.len() && bt[k] == t;
                assert(b.contains(t)) by {
                    assert(b[k + 1] == t);
                }
                if t == b[0] {
                    assert(lex_lt(b[0], b[k + 1]));
                    lemma_lex_lt_irrefl(b[0]);
                    assert(false);
                }
                assert(a.contains(t));
                let q = choose|q: int| 0 <= q < a.len() && a[q] == t;
                assert(q > 0);
                assert(at[q - 1] == t);
            }
        }
        lemma_strictly_sorted_unique(at, bt);
        assert(a.len() == b.len());
        assert forall|k: int| 0 <= k < a.len() implies a[k] == b[k] by {
            if k > 0 {
                assert(at[k - 1] == bt[k - 1]);
            }
        }
        assert(a =~= b);
    }
}

} // verus!
