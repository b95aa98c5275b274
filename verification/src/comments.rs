//! Association of leading comments with declarations.
//!
//! Given a declaration's start offset and a module's ordered comment
//! stream, [`attach`] returns the documentation comment attached to the
//! declaration, if any: the maximal run of comments that ends separated
//! from the declaration by only whitespace, whose members are separated
//! from each other by at most a configurable number of blank lines, and
//! whose first member starts its own line (a trailing comment of a
//! preceding statement is never attached to the next declaration).

use vstd::prelude::*;

use crate::model::Comment;
use crate::model::CommentKind;
use crate::position::count_newlines;
use crate::position::line_start;

verus! {

/// Whitespace bytes: space, tab, line feed, carriage return.
pub open spec fn is_ws_byte(b: u8) -> bool {
    b == 32 || b == 9 || b == 10 || b == 13
}

/// Every byte of `src` in `[a, b)` is whitespace.
pub open spec fn all_ws(src: Seq<u8>, a: int, b: int) -> bool {
    forall|i: int| a <= i < b ==> is_ws_byte(#[trigger] src[i])
}

/// Number of line feeds in `src` within `[a, b)`.
pub open spec fn newlines_between(src: Seq<u8>, a: int, b: int) -> nat {
    count_newlines(src.subrange(a, b))
}

/// Position `lo` is preceded on its line by nothing but whitespace.
pub open spec fn own_line(src: Seq<u8>, lo: int) -> bool {
    all_ws(src, line_start(src, lo), lo)
}

/// The comment stream is ordered by offset, without overlaps, and lies
/// inside the source.
pub open spec fn comments_wf(src: Seq<u8>, comments: Seq<Comment>) -> bool {
    &&& forall|i: int|
        0 <= i < comments.len() ==> (#[trigger] comments[i]).lo <= comments[i].hi <= src.len()
    &&& forall|i: int, j: int|
        0 <= i < j < comments.len() ==> (#[trigger] comments[i]).hi <= (#[trigger] comments[j]).lo
}

/// Index of the first comment at or after `i` that does not end at or
/// before `decl_lo`; the comments before it are the candidates for a run.
pub open spec fn cand_end(comments: Seq<Comment>, decl_lo: int, i: int) -> int
    decreases comments.len() - i,
{
    if i < 0 || i >= comments.len() {
        comments.len() as int
    } else if comments[i].hi > decl_lo {
        i
    } else {
        cand_end(comments, decl_lo, i + 1)
    }
}

/// The gap between comments `j - 1` and `j` is whitespace only and holds
/// at most `max_nl` line feeds.
pub open spec fn chain_ok(src: Seq<u8>, comments: Seq<Comment>, j: int, max_nl: nat) -> bool {
    &&& all_ws(src, comments[j - 1].hi as int, comments[j].lo as int)
    &&& newlines_between(src, comments[j - 1].hi as int, comments[j].lo as int) <= max_nl
}

/// Start of the maximal chained run of comments ending at index `j`.
pub open spec fn run_start(src: Seq<u8>, comments: Seq<Comment>, j: int, max_nl: nat) -> int
    decreases j,
{
    if j <= 0 {
        0
    } else if chain_ok(src, comments, j, max_nl) {
        run_start(src, comments, j - 1, max_nl)
    } else {
        j
    }
}

/// First index in `[r, m)` whose comment starts its own line; comments
/// before it trail some earlier code and are dropped from the run.
pub open spec fn front_drop(src: Seq<u8>, comments: Seq<Comment>, r: int, m: int) -> int
    decreases m - r,
{
    if r < 0 || r >= m {
        m
    } else if own_line(src, comments[r].lo as int) {
        r
    } else {
        front_drop(src, comments, r + 1, m)
    }
}

/// A character removed by trimming a line comment's body: space or tab.
pub open spec fn is_trim_char(c: char) -> bool {
    c == ' ' || c == '\t'
}

/// `s` without its leading spaces and tabs.
pub open spec fn trim_front(s: Seq<char>) -> Seq<char>
    decreases s.len(),
{
    if s.len() > 0 && is_trim_char(s[0]) {
        trim_front(s.drop_first())
    } else {
        s
    }
}

/// `s` without its trailing spaces and tabs.
pub open spec fn trim_back(s: Seq<char>) -> Seq<char>
    decreases s.len(),
{
    if s.len() > 0 && is_trim_char(s.last()) {
        trim_back(s.drop_last())
    } else {
        s
    }
}

/// `s` without leading and trailing spaces and tabs.
pub open spec fn trimmed(s: Seq<char>) -> Seq<char> {
    trim_back(trim_front(s))
}

/// What a comment contributes to the attached documentation: a line
/// comment its trimmed body, a block comment its full body.
pub open spec fn comment_body(c: Comment) -> Seq<char> {
    if c.kind is Line {
        trimmed(c.text@)
    } else {
        c.text@
    }
}

/// The bodies of the run's comments in source order, joined with line
/// feeds.
pub open spec fn attached_text(run: Seq<Comment>) -> Seq<char>
    decreases run.len(),
{
    if run.len() == 0 {
        Seq::<char>::empty()
    } else if run.len() == 1 {
        comment_body(run[0])
    } else {
        attached_text(run.drop_last()) + seq!['\n'] + comment_body(run.last())
    }
}

/// The documentation comment attached to a declaration starting at
/// `decl_lo`, with at most `max_blank` blank lines permitted between
/// consecutive comments of the run and between its last comment and the
/// declaration.
pub open spec fn attach_spec(
    src: Seq<u8>,
    comments: Seq<Comment>,
    decl_lo: int,
    max_blank: nat,
) -> Option<Seq<char>> {
    let m = cand_end(comments, decl_lo, 0);
    if m == 0 {
        Option::None
    } else if !(all_ws(src, comments[m - 1].hi as int, decl_lo) && newlines_between(
        src,
        comments[m - 1].hi as int,
        decl_lo,
    ) <= max_blank + 1) {
        Option::None
    } else {
        let r0 = run_start(src, comments, m - 1, max_blank + 1);
        let r = front_drop(src, comments, r0, m);
        if r == m {
            Option::None
        } else {
            Option::Some(attached_text(comments.subrange(r, m)))
        }
    }
}

/// Checks that `src[a..b)` is all whitespace with at most `max_nl` line
/// feeds.
fn check_gap(src: &[u8], a: usize, b: usize, max_nl: usize) -> (ok: bool)
    requires
        a <= b <= src@.len() < usize::MAX,
    ensures
        ok == (all_ws(src@, a as int, b as int) && newlines_between(src@, a as int, b as int)
            <= max_nl),
{
    let mut ws = true;
    let mut count: usize = 0;
    let mut i: usize = a;
    proof {
        assert(src@.subrange(a as int, a as int) =~= Seq::<u8>::empty());
    }
    while i < b
        invariant
            a <= i <= b <= src@.len() < usize::MAX,
            count <= i - a,
            ws == all_ws(src@, a as int, i as int),
            count == newlines_between(src@, a as int, i as int),
        decreases b - i,
    {
        proof {
            assert(src@.subrange(a as int, i + 1).drop_last() =~= src@.subrange(
                a as int,
                i as int,
            ));
            assert(src@.subrange(a as int, i + 1).last() == src@[i as int]);
        }
        let byte = src[i];
        if !(byte == 32 || byte == 9 || byte == 10 || byte == 13) {
            ws = false;
        }
        if byte == 10 {
            count = count + 1;
        }
        i = i + 1;
    }
    ws && count <= max_nl
}

/// Finds the start of the line containing position `lo`.
fn find_line_start(src: &[u8], lo: usize) -> (s: usize)
    requires
        lo <= src@.len(),
    ensures
        s == line_start(src@, lo as int),
        s <= lo,
{
    let mut j = lo;
    while j > 0 && src[j - 1] != 10
        invariant
            j <= lo <= src@.len(),
            line_start(src@, lo as int) == line_start(src@, j as int),
        decreases j,
    {
        j = j - 1;
    }
    j
}

/// Checks that position `lo` is preceded on its line only by whitespace.
fn check_own_line(src: &[u8], lo: usize) -> (r: bool)
    requires
        lo <= src@.len() < usize::MAX,
    ensures
        r == own_line(src@, lo as int),
{
    let s = find_line_start(src, lo);
    proof {
        crate::position::lemma_count_newlines_le(src@.subrange(s as int, lo as int));
    }
    check_gap(src, s, lo, lo)
}

/// Trims leading and trailing spaces and tabs from `s`.
fn trim_spaces(s: &String) -> (r: String)
    ensures
        r@ == trimmed(s@),
{
    let text = s.as_str();
    let n = text.unicode_len();
    let mut start: usize = 0;
    loop
        invariant
            text@ == s@,
            start <= n == s@.len(),
            forall|i: int| 0 <= i < start ==> is_trim_char(s@[i]),
        ensures
            start <= n,
            forall|i: int| 0 <= i < start ==> is_trim_char(s@[i]),
            start < n ==> !is_trim_char(s@[start as int]),
        decreases n - start,
    {
        if start >= n {
            break ;
        }
        let c = text.get_char(start);
        if !(c == ' ' || c == '\t') {
            break ;
        }
        start = start + 1;
    }
    let mut end: usize = n;
    loop
        invariant
            text@ == s@,
            start <= end <= n == s@.len(),
            forall|i: int| end <= i < n ==> is_trim_char(s@[i]),
        ensures
            start <= end <= n,
            forall|i: int| end <= i < n ==> is_trim_char(s@[i]),
            end > start ==> !is_trim_char(s@[end - 1]),
        decreases end,
    {
        if end <= start {
            break ;
        }
        let c = text.get_char(end - 1);
        if !(c == ' ' || c == '\t') {
            break ;
        }
        end = end - 1;
    }
    let out = text.substring_char(start, end);
    proof {
        lemma_trim_front_at(s@, start as int);
        let t = s@.subrange(start as int, n as int);
        lemma_trim_back_at(t, end - start);
        assert(t.subrange(0, end - start) =~= s@.subrange(start as int, end as int));
    }
    String::from_str(out)
}

proof fn lemma_trim_front_at(s: Seq<char>, k: int)
    requires
        0 <= k <= s.len(),
        forall|i: int| 0 <= i < k ==> is_trim_char(s[i]),
        k < s.len() ==> !is_trim_char(s[k]),
    ensures
        trim_front(s) == s.subrange(k, s.len() as int),
    decreases k,
{
    if k == 0 {
        assert(s =~= s.subrange(0, s.len() as int));
    } else {
        lemma_trim_front_at(s.drop_first(), k - 1);
        assert(s.drop_first().subrange(k - 1, s.drop_first().len() as int) =~= s.subrange(
            k,
            s.len() as int,
        ));
    }
}

proof fn lemma_trim_back_at(s: Seq<char>, e: int)
    requires
        0 <= e <= s.len(),
        forall|i: int| e <= i < s.len() ==> is_trim_char(s[i]),
        e > 0 ==> !is_trim_char(s[e - 1]),
    ensures
        trim_back(s) == s.subrange(0, e),
    decreases s.len(),
{
    if e == s.len() {
        if s.len() == 0 {
            assert(s =~= s.subrange(0, 0));
        } else {
            assert(s =~= s.subrange(0, s.len() as int));
        }
    } else {
        lemma_trim_back_at(s.drop_last(), e);
        assert(s.drop_last().subrange(0, e) =~= s.subrange(0, e));
    }
}

/// The body a comment contributes to the attached documentation.
fn body_of(c: &Comment) -> (r: String)
    ensures
        r@ == comment_body(*c),
{
    match c.kind {
        CommentKind::Line => trim_spaces(&c.text),
        CommentKind::Block => c.text.clone(),
    }
}

/// Returns the documentation comment attached to the declaration starting
/// at byte `decl_lo`, scanning the module's ordered comment stream, with
/// at most `max_blank_lines` blank lines permitted between consecutive
/// comments of the run. Deterministic: the result is a function of the
/// source bytes, the comment stream, the offset and the threshold alone.
pub fn attach(src: &[u8], comments: &Vec<Comment>, decl_lo: usize, max_blank_lines: usize) -> (r:
    Option<String>)
    requires
        comments_wf(src@, comments@),
        decl_lo <= src@.len(),
        src@.len() < usize::MAX,
        max_blank_lines < usize::MAX,
    ensures
        match r {
            Option::Some(s) => attach_spec(
                src@,
                comments@,
                decl_lo as int,
                max_blank_lines as nat,
            ) == Option::Some(s@),
            Option::None => attach_spec(
                src@,
                comments@,
                decl_lo as int,
                max_blank_lines as nat,
            ) is None,
        },
{
    let n = comments.len();
    // Candidates: the prefix of comments ending at or before the declaration.
    let mut m: usize = 0;
    while m < n && comments[m].hi <= decl_lo
        invariant
            m <= n == comments@.len(),
            cand_end(comments@, decl_lo as int, 0) == cand_end(comments@, decl_lo as int, m as int),
            forall|i: int| 0 <= i < m ==> (#[trigger] comments@[i]).hi <= decl_lo,
        decreases n - m,
    {
        m = m + 1;
    }
    if m == 0 {
        return Option::None;
    }
    // The run must end separated from the declaration by whitespace only,
    // within the blank-line threshold.
    let max_nl = max_blank_lines + 1;
    let last_hi = comments[m - 1].hi;
    if !check_gap(src, last_hi, decl_lo, max_nl) {
        return Option::None;
    }
    // Extend the run backwards while gaps stay whitespace-only and within
    // the blank-line threshold.
    let mut r: usize = m - 1;
    loop
        invariant
            r <= m - 1 < n == comments@.len(),
            comments_wf(src@, comments@),
            src@.len() < usize::MAX,
            run_start(src@, comments@, m - 1, max_nl as nat) == run_start(
                src@,
                comments@,
                r as int,
                max_nl as nat,
            ),
        ensures
            r <= m - 1,
            r == run_start(src@, comments@, m - 1, max_nl as nat),
        decreases r,
    {
        if r == 0 {
            break ;
        }
        let prev_hi = comments[r - 1].hi;
        let cur_lo = comments[r].lo;
        if !check_gap(src, prev_hi, cur_lo, max_nl) {
            break ;
        }
        r = r - 1;
    }
    // Drop leading comments that trail earlier code on their line.
    let ghost r0 = run_start(src@, comments@, m - 1, max_nl as nat);
    loop
        invariant
            r0 <= r <= m <= n == comments@.len(),
            comments_wf(src@, comments@),
            src@.len() < usize::MAX,
            front_drop(src@, comments@, r0, m as int) == front_drop(
                src@,
                comments@,
                r as int,
                m as int,
            ),
        ensures
            r <= m,
            r == front_drop(src@, comments@, r0, m as int),
        decreases m - r,
    {
        if r >= m {
            break ;
        }
        if check_own_line(src, comments[r].lo) {
            break ;
        }
        r = r + 1;
    }
    if r == m {
        return Option::None;
    }
    // Concatenate the bodies of the run in source order.
    let mut acc = body_of(&comments[r]);
    let mut i: usize = r + 1;
    while i < m
        invariant
            r < i <= m <= comments@.len(),
            acc@ == attached_text(comments@.subrange(r as int, i as int)),
        decreases m - i,
    {
        proof {
            reveal_strlit("\n");
            assert("\n"@ =~= seq!['\n']);
            let run = comments@.subrange(r as int, i + 1);
            assert(run.drop_last() =~= comments@.subrange(r as int, i as int));
            assert(run.last() == comments@[i as int]);
        }
        acc.append("\n");
        let body = body_of(&comments[i]);
        acc.append(body.as_str());
        i = i + 1;
    }
    proof {
        assert(comments@.subrange(r as int, r + 1).len() == 1);
        assert(comments@.subrange(r as int, r + 1)[0] == comments@[r as int]);
    }
    Option::Some(acc)
}

} // verus!
