use vstd::prelude::*;

use crate::text::{chars_substring, str_chars};

verus! {

/// The two kinds of comment.
#[derive(Debug, Clone, Copy, PartialEq, Eq)]
pub enum CommentStyle {
    /// A `//` comment running to the end of its line.
    Line,
    /// A `/* ... */` comment, possibly spanning several lines.
    Block,
}

/// A comment recovered from raw source text: its kind, its exact text
/// including the delimiters, and the 0-based line and column of its opening
/// delimiter.
#[derive(Debug, Clone)]
pub struct Comment {
    pub style: CommentStyle,
    pub content: String,
    pub line: usize,
    pub column: usize,
}

/// The mathematical shape of a comment: its text as a character sequence
/// and its position as unbounded naturals.
pub struct CommentView {
    pub style: CommentStyle,
    pub content: Seq<char>,
    pub line: nat,
    pub column: nat,
}

impl View for Comment {
    type V = CommentView;

    open spec fn view(&self) -> CommentView {
        CommentView {
            style: self.style,
            content: self.content@,
            line: self.line as nat,
            column: self.column as nat,
        }
    }
}

/// The views of the collected comments, in order.
pub open spec fn comments_view(cs: Seq<Comment>) -> Seq<CommentView> {
    cs.map_values(|c: Comment| c@)
}

/// Where a line comment ends: the position of the first newline at or
/// after `from`, or the end of input. The newline itself is not part of
/// the comment.
pub open spec fn line_end(s: Seq<char>, from: int) -> int
    decreases s.len() - from,
{
    if from < 0 || from >= s.len() {
        s.len() as int
    } else if s[from] == '\n' {
        from
    } else {
        line_end(s, from + 1)
    }
}

/// Where a block comment ends: the position just past the first `*/` at or
/// after `from`, or the end of input when the comment is unterminated.
pub open spec fn block_end(s: Seq<char>, from: int) -> int
    decreases s.len() - from,
{
    if from < 0 || from >= s.len() {
        s.len() as int
    } else if s[from] == '*' && from + 1 < s.len() && s[from + 1] == '/' {
        from + 2
    } else {
        block_end(s, from + 1)
    }
}

/// How many newlines stand in `s` at positions in `[from, end)`.
pub open spec fn count_newlines(s: Seq<char>, from: int, end: int) -> nat
    decreases end - from,
{
    if from < 0 || from >= end || from >= s.len() {
        0
    } else {
        (if s[from] == '\n' {
            1nat
        } else {
            0nat
        }) + count_newlines(s, from + 1, end)
    }
}

/// The start offset of the current line after scanning positions
/// `[from, end)` of `s`: one past the last newline among them, or `start`
/// when there is none.
pub open spec fn line_start_after(s: Seq<char>, from: int, end: int, start: int) -> int
    decreases end - from,
{
    if from < 0 || from >= end || from >= s.len() {
        start
    } else if s[from] == '\n' {
        line_start_after(s, from + 1, end, from + 1)
    } else {
        line_start_after(s, from + 1, end, start)
    }
}

/// A line comment ends at or after its opening position, within the input.
pub proof fn lemma_line_end_bounds(s: Seq<char>, from: int)
    requires
        0 <= from <= s.len(),
    ensures
        from <= line_end(s, from) <= s.len(),
    decreases s.len() - from,
{
    if from < s.len() && s[from] != '\n' {
        lemma_line_end_bounds(s, from + 1);
    }
}

/// A block comment ends at or after its opening position, within the input.
pub proof fn lemma_block_end_bounds(s: Seq<char>, from: int)
    requires
        0 <= from <= s.len(),
    ensures
        from <= block_end(s, from) <= s.len(),
    decreases s.len() - from,
{
    if from < s.len() && !(s[from] == '*' && from + 1 < s.len() && s[from + 1] == '/') {
        lemma_block_end_bounds(s, from + 1);
    }
}

/// There are no more newlines in a range than positions.
pub proof fn lemma_count_newlines_bound(s: Seq<char>, from: int, end: int)
    requires
        0 <= from <= end,
    ensures
        count_newlines(s, from, end) <= end - from,
    decreases end - from,
{
    if from < end && from < s.len() {
        lemma_count_newlines_bound(s, from + 1, end);
    }
}

/// The line-start offset after a scan lies between the offset it started
/// from and the end of the scanned range.
pub proof fn lemma_line_start_after_bounds(s: Seq<char>, from: int, end: int, start: int)
    requires
        0 <= start <= from <= end,
    ensures
        start <= line_start_after(s, from, end, start) <= end,
    decreases end - from,
{
    if from < end && from < s.len() {
        if s[from] == '\n' {
            lemma_line_start_after_bounds(s, from + 1, end, from + 1);
        } else {
            lemma_line_start_after_bounds(s, from + 1, end, start);
        }
    }
}

/// The comments found by scanning `s` left to right from position `i`,
/// standing on 0-based line `line` whose start offset is `line_start`,
/// with `in_string` telling whether the position lies inside a
/// double-quoted string literal.
///
/// A `"` toggles the string flag with no escape-sequence awareness; inside
/// a string every character is inert. Outside one, `//` opens a line
/// comment running to the next newline and `/*` opens a block comment
/// running to the first `*/` or, unterminated, to the end of input. Each
/// comment records its exact text, delimiters included, and the line and
/// column of its opening character.
pub open spec fn spec_scan(
    s: Seq<char>,
    i: int,
    line: nat,
    line_start: int,
    in_string: bool,
) -> Seq<CommentView>
    decreases s.len() - i,
{
    if i < 0 || i >= s.len() {
        Seq::empty()
    } else if s[i] == '\n' {
        spec_scan(s, i + 1, line + 1, i + 1, in_string)
    } else if s[i] == '"' {
        spec_scan(s, i + 1, line, line_start, !in_string)
    } else if in_string {
        spec_scan(s, i + 1, line, line_start, true)
    } else if s[i] == '/' && i + 1 < s.len() && s[i + 1] == '/' {
        let end = line_end(s, i + 2);
        proof {
            lemma_line_end_bounds(s, i + 2);
        }
        seq![
            CommentView {
                style: CommentStyle::Line,
                content: s.subrange(i, end),
                line: line,
                column: (i - line_start) as nat,
            },
        ] + spec_scan(s, end, line, line_start, false)
    } else if s[i] == '/' && i + 1 < s.len() && s[i + 1] == '*' {
        let end = block_end(s, i + 2);
        proof {
            lemma_block_end_bounds(s, i + 2);
        }
        seq![
            CommentView {
                style: CommentStyle::Block,
                content: s.subrange(i, end),
                line: line,
                column: (i - line_start) as nat,
            },
        ] + spec_scan(
            s,
            end,
            line + count_newlines(s, i + 2, end),
            line_start_after(s, i + 2, end, line_start),
            false,
        )
    } else {
        spec_scan(s, i + 1, line, line_start, in_string)
    }
}

/// The position of the first newline at or after `from`, or the input's end.
fn find_line_end(cs: &Vec<char>, from: usize) -> (r: usize)
    requires
        from <= cs@.len(),
    ensures
        r == line_end(cs@, from as int),
        from <= r <= cs@.len(),
{
    let mut j: usize = from;
    while j < cs.len()
        invariant
            from <= j <= cs@.len(),
            line_end(cs@, from as int) == line_end(cs@, j as int),
        decreases cs@.len() - j,
    {
        if cs[j] == '\n' {
            return j;
        }
        j = j + 1;
    }
    j
}

/// The position just past the first `*/` at or after `from`, or the
/// input's end when none closes the comment.
fn find_block_end(cs: &Vec<char>, from: usize) -> (r: usize)
    requires
        from <= cs@.len(),
    ensures
        r == block_end(cs@, from as int),
        from <= r <= cs@.len(),
{
    let mut j: usize = from;
    while j < cs.len()
        invariant
            from <= j <= cs@.len(),
            block_end(cs@, from as int) == block_end(cs@, j as int),
        decreases cs@.len() - j,
    {
        if cs[j] == '*' && j + 1 < cs.len() && cs[j + 1] == '/' {
            return j + 2;
        }
        j = j + 1;
    }
    j
}

/// Counts the newlines in `[from, end)` and computes the line-start offset
/// the scan stands at afterwards, starting from offset `start`.
fn advance_lines(cs: &Vec<char>, from: usize, end: usize, start: usize) -> (r: (usize, usize))
    requires
        start <= from <= end <= cs@.len(),
    ensures
        r.0 == count_newlines(cs@, from as int, end as int),
        r.1 == line_start_after(cs@, from as int, end as int, start as int),
        r.0 <= end - from,
        start <= r.1 <= end,
{
    let mut nl: usize = 0;
    let mut ls: usize = start;
    let mut j: usize = from;
    while j < end
        invariant
            from <= j <= end <= cs@.len(),
            nl <= j - from,
            start <= ls <= j,
            count_newlines(cs@, from as int, end as int) == nl + count_newlines(
                cs@,
                j as int,
                end as int,
            ),
            line_start_after(cs@, from as int, end as int, start as int) == line_start_after(
                cs@,
                j as int,
                end as int,
                ls as int,
            ),
        decreases end - j,
    {
        if cs[j] == '\n' {
            nl = nl + 1;
            ls = j + 1;
        }
        j = j + 1;
    }
    (nl, ls)
}

/// Scanning never finds a comment on an earlier line than the one it
/// stands on, and the comments it finds come in order of opening line, so
/// the collected comments stand grouped by line: all comments opening on
/// one line are adjacent, in scan order.
pub proof fn lemma_scan_lines_ordered(
    s: Seq<char>,
    i: int,
    line: nat,
    line_start: int,
    in_string: bool,
)
    ensures
        ({
            let r = spec_scan(s, i, line, line_start, in_string);
            forall|k: int| 0 <= k < r.len() ==> (#[trigger] r[k]).line >= line
        }),
        ({
            let r = spec_scan(s, i, line, line_start, in_string);
            forall|k1: int, k2: int|
                0 <= k1 <= k2 < r.len() ==> (#[trigger] r[k1]).line <= (#[trigger] r[k2]).line
        }),
    decreases s.len() - i,
{
    let r = spec_scan(s, i, line, line_start, in_string);
    if i < 0 || i >= s.len() {
    } else if s[i] == '\n' {
        lemma_scan_lines_ordered(s, i + 1, line + 1, i + 1, in_string);
    } else if s[i] == '"' {
        lemma_scan_lines_ordered(s, i + 1, line, line_start, !in_string);
    } else if in_string {
        lemma_scan_lines_ordered(s, i + 1, line, line_start, true);
    } else if s[i] == '/' && i + 1 < s.len() && s[i + 1] == '/' {
        lemma_line_end_bounds(s, i + 2);
        let end = line_end(s, i + 2);
        lemma_scan_lines_ordered(s, end, line, line_start, false);
        let rest = spec_scan(s, end, line, line_start, false);
        assert forall|k: int| 0 <= k < r.len() implies (#[trigger] r[k]).line >= line by {
            if k > 0 {
                assert(r[k] == rest[k - 1]);
            }
        }
        assert forall|k1: int, k2: int| 0 <= k1 <= k2 < r.len() implies (#[trigger] r[k1]).line
            <= (#[trigger] r[k2]).line by {
            if k1 > 0 {
                assert(r[k1] == rest[k1 - 1]);
                assert(r[k2] == rest[k2 - 1]);
            } else if k2 > 0 {
                assert(r[k2] == rest[k2 - 1]);
            }
        }
    } else if s[i] == '/' && i + 1 < s.len() && s[i + 1] == '*' {
        lemma_block_end_bounds(s, i + 2);
        let end = block_end(s, i + 2);
        let line2 = line + count_newlines(s, i + 2, end);
        let start2 = line_start_after(s, i + 2, end, line_start);
        lemma_scan_lines_ordered(s, end, line2, start2, false);
        let rest = spec_scan(s, end, line2, start2, false);
        assert forall|k: int| 0 <= k < r.len() implies (#[trigger] r[k]).line >= line by {
            if k > 0 {
                assert(r[k] == rest[k - 1]);
                assert(rest[k - 1].line >= line2);
            }
        }
        assert forall|k1: int, k2: int| 0 <= k1 <= k2 < r.len() implies (#[trigger] r[k1]).line
            <= (#[trigger] r[k2]).line by {
            if k1 > 0 {
                assert(r[k1] == rest[k1 - 1]);
                assert(r[k2] == rest[k2 - 1]);
            } else if k2 > 0 {
                assert(r[k2] == rest[k2 - 1]);
                assert(rest[k2 - 1].line >= line2);
            }
        }
    } else {
        lemma_scan_lines_ordered(s, i + 1, line, line_start, in_string);
    }
}

/// Scans raw source text and collects every comment in scan order, each
/// with its exact text and the 0-based line and column where it opens.
/// Comment-like sequences inside double-quoted string literals are
/// ignored; the string tracking has no escape-sequence awareness. An
/// unterminated block comment is accepted and runs to the end of input.
pub fn extract_comments(source: &str) -> (r: Vec<Comment>)
    ensures
        comments_view(r@) == spec_scan(source@, 0, 0, 0, false),
        forall|k1: int, k2: int|
            0 <= k1 <= k2 < r@.len() ==> (#[trigger] r@[k1])@.line <= (#[trigger] r@[k2])@.line,
{
    let chars = str_chars(source);
    let ghost s = source@;
    let mut result: Vec<Comment> = Vec::new();
    let mut i: usize = 0;
    let mut line: usize = 0;
    let mut line_start: usize = 0;
    let mut in_string: bool = false;
    proof {
        assert(comments_view(Seq::<Comment>::empty()) =~= Seq::<CommentView>::empty());
        assert(comments_view(result@) + spec_scan(s, 0, 0, 0, false) =~= spec_scan(
            s,
            0,
            0,
            0,
            false,
        ));
    }
    while i < chars.len()
        invariant
            chars@ == s,
            i <= s.len(),
            line_start <= i,
            line <= i,
            comments_view(result@) + spec_scan(
                s,
                i as int,
                line as nat,
                line_start as int,
                in_string,
            ) == spec_scan(s, 0, 0, 0, false),
        decreases s.len() - i,
    {
        let c = chars[i];
        if c == '\n' {
            line = line + 1;
            line_start = i + 1;
            i = i + 1;
        } else if c == '"' {
            in_string = !in_string;
            i = i + 1;
        } else if in_string {
            i = i + 1;
        } else if c == '/' && i + 1 < chars.len() && chars[i + 1] == '/' {
            let end = find_line_end(&chars, i + 2);
            let content = chars_substring(&chars, i, end);
            let cmt = Comment { style: CommentStyle::Line, content, line, column: i - line_start };
            proof {
                let cv = CommentView {
                    style: CommentStyle::Line,
                    content: s.subrange(i as int, end as int),
                    line: line as nat,
                    column: (i - line_start) as nat,
                };
                assert(cmt@ == cv);
                let rest = spec_scan(s, end as int, line as nat, line_start as int, false);
                assert(spec_scan(s, i as int, line as nat, line_start as int, in_string)
                    == seq![cv] + rest);
                assert(comments_view(result@.push(cmt)) =~= comments_view(result@) + seq![cv]);
                assert((comments_view(result@) + seq![cv]) + rest =~= comments_view(result@) + (
                seq![cv] + rest));
            }
            result.push(cmt);
            i = end;
        } else if c == '/' && i + 1 < chars.len() && chars[i + 1] == '*' {
            let end = find_block_end(&chars, i + 2);
            let content = chars_substring(&chars, i, end);
            let cmt = Comment { style: CommentStyle::Block, content, line, column: i - line_start };
            let lines_crossed = advance_lines(&chars, i + 2, end, line_start);
            proof {
                let cv = CommentView {
                    style: CommentStyle::Block,
                    content: s.subrange(i as int, end as int),
                    line: line as nat,
                    column: (i - line_start) as nat,
                };
                assert(cmt@ == cv);
                let rest = spec_scan(
                    s,
                    end as int,
                    (line + lines_crossed.0) as nat,
                    lines_crossed.1 as int,
                    false,
                );
                assert(spec_scan(s, i as int, line as nat, line_start as int, in_string)
                    == seq![cv] + rest);
                assert(comments_view(result@.push(cmt)) =~= comments_view(result@) + seq![cv]);
                assert((comments_view(result@) + seq![cv]) + rest =~= comments_view(result@) + (
                seq![cv] + rest));
            }
            result.push(cmt);
            line = line + lines_crossed.0;
            line_start = lines_crossed.1;
            i = end;
        } else {
            i = i + 1;
        }
    }
    proof {
        assert(spec_scan(s, i as int, line as nat, line_start as int, in_string)
            =~= Seq::<CommentView>::empty());
        assert(comments_view(result@) + Seq::<CommentView>::empty() =~= comments_view(result@));
        lemma_scan_lines_ordered(s, 0, 0, 0, false);
        assert(forall|k: int|
            0 <= k < result@.len() ==> comments_view(result@)[k] == (#[trigger] result@[k])@);
    }
    result
}

} // verus!
