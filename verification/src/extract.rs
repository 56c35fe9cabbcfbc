//! Comment extraction: collects the comment nodes of a syntax tree, merges
//! runs of adjacent line comments, and strips comment syntax so that only the
//! prose remains.

use vstd::prelude::*;

use crate::grammar::{parse_source, ParseError, SyntaxNode};
use crate::text::{
    chars_of, end_of_text, ends_with, find_char, join, same_text, starts_with, string_of,
    text_of_bytes, text_range,
};

#[allow(unused_imports)]
use crate::grammar::{grammar_loads, parsed, SyntaxTree};
#[allow(unused_imports)]
use crate::text::{
    is_space, joined, lemma_span, lemma_span_is, lemma_trim_end, lemma_trim_start, lemma_trim_trimmed, lines, span, trim,
    trim_end, trim_start, trimmed, views, without_cr,
};

verus! {

/// The delimiters that open a line comment, longer ones before those that they
/// begin with.
pub open spec fn line_delimiters() -> Seq<Seq<char>> {
    seq![
        "////"@,
        "//!"@,
        "///"@,
        "//"@,
        "#!"@,
        "#"@,
        "--"@,
        ";;"@,
        ";"@,
        "%%"@,
        "%"@,
        "(*"@,
    ]
}

/// The delimiters that may open a line of a comment.
pub open spec fn openers() -> Seq<Seq<char>> {
    seq![
        "/**"@,
        "/*!"@,
        "/*"@,
        "////"@,
        "//!"@,
        "///"@,
        "//"@,
        "<!--"@,
        "#!"@,
        "#="@,
        "#[["@,
        "#"@,
        "--[["@,
        "--"@,
        "=begin"@,
        ";"@,
        "%%"@,
        "%"@,
        "(**"@,
        "(*"@,
        "{-|"@,
        "{-"@,
    ]
}

/// The delimiters that may close a line of a comment.
pub open spec fn closers() -> Seq<Seq<char>> {
    seq!["*/"@, "-->"@, "=end"@, "=#"@, "]]"@, "*)"@, "-}"@]
}

/// The first of `delimiters` that `s` begins with, or nothing.
pub open spec fn first_prefix(s: Seq<char>, delimiters: Seq<Seq<char>>) -> Seq<char>
    decreases delimiters.len(),
{
    if delimiters.len() == 0 {
        Seq::empty()
    } else if delimiters[0].is_prefix_of(s) {
        delimiters[0]
    } else {
        first_prefix(s, delimiters.skip(1))
    }
}

/// The delimiter that opens a line comment; empty where none does.
pub open spec fn line_delimiter(raw: Seq<char>) -> Seq<char> {
    first_prefix(raw, line_delimiters())
}

/// `s` after each of `delimiters` in turn has been taken off its end, with the
/// white space before it.
pub open spec fn without_closers(s: Seq<char>, delimiters: Seq<Seq<char>>) -> Seq<char>
    decreases delimiters.len(),
{
    if delimiters.len() == 0 {
        s
    } else if delimiters[0].is_suffix_of(s) {
        without_closers(trim_end(s.take(s.len() - delimiters[0].len())), delimiters.skip(1))
    } else {
        without_closers(s, delimiters.skip(1))
    }
}

/// `s` without the first of `delimiters` that it begins with; where it begins
/// with none, without one leading asterisk.
pub open spec fn without_opener(s: Seq<char>, delimiters: Seq<Seq<char>>) -> Seq<char>
    decreases delimiters.len(),
{
    if delimiters.len() == 0 {
        if s.len() > 0 && s[0] == '*' {
            s.skip(1)
        } else {
            s
        }
    } else if delimiters[0].is_prefix_of(s) {
        s.skip(delimiters[0].len() as int)
    } else {
        without_opener(s, delimiters.skip(1))
    }
}

/// The prose of one line of a comment.
pub open spec fn line_prose(line: Seq<char>) -> Seq<char> {
    trim(without_opener(without_closers(trim(line), closers()), openers()))
}

/// Whether the prose of a line is no more than a block marker.
pub open spec fn is_block_marker(prose: Seq<char>) -> bool {
    prose == "=end"@ || prose == "=begin"@
}

/// The prose of each line, block markers left out.
pub open spec fn prose_lines(ls: Seq<Seq<char>>) -> Seq<Seq<char>>
    decreases ls.len(),
{
    if ls.len() == 0 {
        Seq::empty()
    } else if is_block_marker(line_prose(ls[0])) {
        prose_lines(ls.skip(1))
    } else {
        seq![line_prose(ls[0])] + prose_lines(ls.skip(1))
    }
}

/// `ls` from its first line that is not empty.
pub open spec fn without_leading_blanks(ls: Seq<Seq<char>>) -> Seq<Seq<char>>
    decreases ls.len(),
{
    if ls.len() > 0 && ls[0].len() == 0 {
        without_leading_blanks(ls.skip(1))
    } else {
        ls
    }
}

/// `ls` up to its last line that is not empty.
pub open spec fn without_trailing_blanks(ls: Seq<Seq<char>>) -> Seq<Seq<char>>
    decreases ls.len(),
{
    if ls.len() > 0 && ls.last().len() == 0 {
        without_trailing_blanks(ls.drop_last())
    } else {
        ls
    }
}

/// The lines of prose that a comment holds.
pub open spec fn prose(raw: Seq<char>) -> Seq<Seq<char>> {
    without_trailing_blanks(without_leading_blanks(prose_lines(lines(raw))))
}

/// A comment's prose: its lines without comment syntax, blank lines at either
/// end dropped and those between kept.
pub open spec fn cleaned(raw: Seq<char>) -> Seq<char> {
    joined(prose(raw), '\n')
}

/// Each buffer by its characters.
spec fn buffers(lists: Seq<Vec<char>>) -> Seq<Seq<char>> {
    Seq::new(lists.len(), |i: int| lists[i]@)
}

/// The characters of each text of `list`.
fn buffers_of(list: &[&str]) -> (r: Vec<Vec<char>>)
    ensures
        r@.len() == list@.len(),
        forall|i: int| 0 <= i < r@.len() ==> (#[trigger] r@[i])@ == list@[i]@,
{
    let mut r: Vec<Vec<char>> = Vec::new();
    let mut i: usize = 0;
    while i < list.len()
        invariant
            i <= list@.len(),
            r@.len() == i,
            forall|j: int| 0 <= j < i ==> (#[trigger] r@[j])@ == list@[j]@,
        decreases list.len() - i,
    {
        r.push(chars_of(list[i]));
        i += 1;
    }
    r
}

fn opener_buffers() -> (r: Vec<Vec<char>>)
    ensures
        buffers(r@) == openers(),
{
    let list: [&str; 22] = [
        "/**", "/*!", "/*", "////", "//!", "///", "//", "<!--", "#!", "#=", "#[[", "#", "--[[", "--",
        "=begin", ";", "%%", "%", "(**", "(*", "{-|", "{-",
    ];
    let r = buffers_of(&list);
    assert(buffers(r@) =~= openers());
    r
}

fn closer_buffers() -> (r: Vec<Vec<char>>)
    ensures
        buffers(r@) == closers(),
{
    let list: [&str; 7] = ["*/", "-->", "=end", "=#", "]]", "*)", "-}"];
    let r = buffers_of(&list);
    assert(buffers(r@) =~= closers());
    r
}

/// Where `v[lo..hi]` ends once every closing delimiter is off.
fn end_before_closers(v: &Vec<char>, lo: usize, hi: usize, delimiters: &Vec<Vec<char>>) -> (r: usize)
    requires
        lo <= hi <= v@.len(),
    ensures
        lo <= r <= hi,
        v@.subrange(lo as int, r as int) == without_closers(
            v@.subrange(lo as int, hi as int),
            buffers(delimiters@),
        ),
{
    let ghost all = buffers(delimiters@);
    let ghost whole = v@.subrange(lo as int, hi as int);
    let mut end: usize = hi;
    let mut i: usize = 0;
    assert(all.skip(0) =~= all);
    while i < delimiters.len()
        invariant
            i <= delimiters@.len() == all.len(),
            all == buffers(delimiters@),
            lo <= end <= hi <= v@.len(),
            without_closers(whole, all) == without_closers(
                v@.subrange(lo as int, end as int),
                all.skip(i as int),
            ),
        decreases delimiters.len() - i,
    {
        let ghost s = v@.subrange(lo as int, end as int);
        assert(all.skip(i as int)[0] == delimiters@[i as int]@);
        assert(all.skip(i as int).skip(1) =~= all.skip(i + 1));
        if ends_with(v, lo, end, &delimiters[i]) {
            let cut: usize = end - delimiters[i].len();
            assert(s.take(s.len() - delimiters@[i as int]@.len()) =~= v@.subrange(lo as int, cut as int));
            end = end_of_text(v, lo, cut);
        }
        i += 1;
    }
    end
}

/// Where `v[lo..hi]` begins once its opening delimiter is off.
fn start_after_opener(v: &Vec<char>, lo: usize, hi: usize, delimiters: &Vec<Vec<char>>) -> (r: usize)
    requires
        lo <= hi <= v@.len(),
    ensures
        lo <= r <= hi,
        v@.subrange(r as int, hi as int) == without_opener(
            v@.subrange(lo as int, hi as int),
            buffers(delimiters@),
        ),
{
    let ghost all = buffers(delimiters@);
    let ghost whole = v@.subrange(lo as int, hi as int);
    let mut i: usize = 0;
    assert(all.skip(0) =~= all);
    while i < delimiters.len()
        invariant
            i <= delimiters@.len() == all.len(),
            all == buffers(delimiters@),
            lo <= hi <= v@.len(),
            whole == v@.subrange(lo as int, hi as int),
            without_opener(whole, all) == without_opener(whole, all.skip(i as int)),
        decreases delimiters.len() - i,
    {
        assert(all.skip(i as int)[0] == delimiters@[i as int]@);
        assert(all.skip(i as int).skip(1) =~= all.skip(i + 1));
        if starts_with(v, lo, hi, &delimiters[i]) {
            let cut: usize = lo + delimiters[i].len();
            assert(whole.skip(delimiters@[i as int]@.len() as int) =~= v@.subrange(cut as int, hi as int));
            return cut;
        }
        i += 1;
    }
    if lo < hi && v[lo] == '*' {
        assert(whole.skip(1) =~= v@.subrange(lo + 1, hi as int));
        lo + 1
    } else {
        lo
    }
}

/// The range of `v[lo..hi]` that holds its prose.
fn prose_range(
    v: &Vec<char>,
    lo: usize,
    hi: usize,
    opening: &Vec<Vec<char>>,
    closing: &Vec<Vec<char>>,
) -> (r: (usize, usize))
    requires
        lo <= hi <= v@.len(),
        buffers(opening@) == openers(),
        buffers(closing@) == closers(),
    ensures
        lo <= r.0 <= r.1 <= hi,
        v@.subrange(r.0 as int, r.1 as int) == line_prose(v@.subrange(lo as int, hi as int)),
{
    let (a, b): (usize, usize) = text_range(v, lo, hi);
    let end: usize = end_before_closers(v, a, b, closing);
    let start: usize = start_after_opener(v, a, end, opening);
    text_range(v, start, end)
}

/// Strips comment delimiters and leading decoration from every line.
pub fn clean(raw: &str) -> (r: String)
    ensures
        r@ == cleaned(raw@),
{
    let v = chars_of(raw);
    let n: usize = v.len();
    let opening = opener_buffers();
    let closing = closer_buffers();
    let begin_marker = chars_of("=begin");
    let end_marker = chars_of("=end");
    let mut kept: Vec<String> = Vec::new();
    let mut i: usize = 0;
    assert(v@.subrange(0, n as int) =~= raw@);
    assert(views(kept@) + prose_lines(lines(raw@)) =~= prose_lines(lines(raw@)));
    while i < n
        invariant
            i <= n == v@.len(),
            buffers(opening@) == openers(),
            buffers(closing@) == closers(),
            begin_marker@ == "=begin"@,
            end_marker@ == "=end"@,
            views(kept@) + prose_lines(lines(v@.subrange(i as int, n as int))) == prose_lines(
                lines(raw@),
            ),
        decreases n - i,
    {
        let ghost rest = v@.subrange(i as int, n as int);
        let j: usize = find_char(&v, i, n, '\n');
        let mut end: usize = j;
        if j < n && j > i && v[j - 1] == '\r' {
            end = j - 1;
        }
        let ghost line = v@.subrange(i as int, end as int);
        let next: usize = if j < n {
            j + 1
        } else {
            n
        };
        proof {
            if j < n {
                assert(rest.take(j - i) =~= v@.subrange(i as int, j as int));
                assert(line =~= without_cr(v@.subrange(i as int, j as int)));
                assert(rest.skip(j - i + 1) =~= v@.subrange(next as int, n as int));
                assert(lines(rest) == seq![line] + lines(v@.subrange(next as int, n as int)));
            } else {
                assert(line =~= rest);
                assert(v@.subrange(next as int, n as int) =~= Seq::<char>::empty());
                assert(lines(rest) =~= seq![line] + lines(v@.subrange(next as int, n as int)));
            }
            assert(lines(rest)[0] == line);
            assert(lines(rest).skip(1) =~= lines(v@.subrange(next as int, n as int)));
        }
        let (a, b): (usize, usize) = prose_range(&v, i, end, &opening, &closing);
        let text = string_of(&v, a, b);
        let marker = is_exactly(&v, a, b, &end_marker) || is_exactly(&v, a, b, &begin_marker);
        if !marker {
            let ghost before = kept@;
            kept.push(text);
            proof {
                let later = prose_lines(lines(v@.subrange(next as int, n as int)));
                assert(views(kept@) =~= views(before).push(text@));
                assert(views(before).push(text@) + later =~= views(before) + (seq![text@] + later));
            }
        }
        i = next;
    }
    proof {
        assert(v@.subrange(n as int, n as int) =~= Seq::<char>::empty());
        assert(lines(Seq::<char>::empty()) =~= Seq::<Seq<char>>::empty());
        assert(views(kept@) + Seq::<Seq<char>>::empty() =~= views(kept@));
    }
    drop_blank_ends(&mut kept);
    join(&kept, '\n')
}

/// Whether `v[lo..hi]` is `p`.
fn is_exactly(v: &Vec<char>, lo: usize, hi: usize, p: &Vec<char>) -> (r: bool)
    requires
        lo <= hi <= v@.len(),
    ensures
        r == (v@.subrange(lo as int, hi as int) == p@),
{
    let ghost s = v@.subrange(lo as int, hi as int);
    assert(s.subrange(0, s.len() as int) =~= s);
    p.len() == hi - lo && starts_with(v, lo, hi, p)
}

/// Drops leading and trailing blank lines and keeps interior paragraph breaks.
fn drop_blank_ends(kept: &mut Vec<String>)
    ensures
        views(final(kept)@) == without_trailing_blanks(without_leading_blanks(views(old(kept)@))),
{
    while kept.len() > 0 && kept[0].as_str().is_empty()
        invariant
            without_leading_blanks(views(kept@)) == without_leading_blanks(views(old(kept)@)),
        decreases kept@.len(),
    {
        let ghost before = views(kept@);
        kept.remove(0);
        assert(views(kept@) =~= before.skip(1));
    }
    assert(without_leading_blanks(views(kept@)) == views(kept@));
    while kept.len() > 0 && kept[kept.len() - 1].as_str().is_empty()
        invariant
            without_trailing_blanks(views(kept@)) == without_trailing_blanks(
                without_leading_blanks(views(old(kept)@)),
            ),
        decreases kept@.len(),
    {
        let ghost before = views(kept@);
        kept.pop();
        assert(views(kept@) =~= before.drop_last());
    }
}

/// The delimiter that opens a line comment, used so that `//` and `///` runs
/// are not merged together.
pub fn line_prefix(raw: &str) -> (r: &'static str)
    ensures
        r@ == line_delimiter(raw@),
{
    let list: [&'static str; 12] = [
        "////", "//!", "///", "//", "#!", "#", "--", ";;", ";", "%%", "%", "(*",
    ];
    let v = chars_of(raw);
    let ghost all = line_delimiters();
    let mut i: usize = 0;
    assert(all.skip(0) =~= all);
    assert(v@.subrange(0, v@.len() as int) =~= raw@);
    assert forall|k: int| 0 <= k < 12 implies (#[trigger] list@[k])@ == all[k] by {}
    while i < 12
        invariant
            i <= 12 == all.len(),
            all == line_delimiters(),
            v@ == raw@,
            v@.subrange(0, v@.len() as int) == raw@,
            forall|k: int| 0 <= k < 12 ==> (#[trigger] list@[k])@ == all[k],
            first_prefix(raw@, all) == first_prefix(raw@, all.skip(i as int)),
        decreases 12 - i,
    {
        let p = list[i];
        assert(all.skip(i as int)[0] == p@);
        assert(all.skip(i as int).skip(1) =~= all.skip(i + 1));
        if starts_with(&v, 0, v.len(), &chars_of(p)) {
            return p;
        }
        i += 1;
    }
    assert(all.skip(12) =~= Seq::<Seq<char>>::empty());
    let none = "";
    proof {
        reveal_strlit("");
        assert(none@ =~= Seq::<char>::empty());
    }
    none
}

/// One comment (or run of adjacent line comments) found in a source file.
#[derive(Debug, PartialEq, Eq)]
pub struct Comment {
    /// 1-based line of the first character of the comment.
    pub line: usize,
    /// 1-based column (in bytes) of the first character of the comment.
    pub column: usize,
    /// The comment with its delimiters removed and lines joined by newlines.
    pub text: String,
}

/// What a [`Comment`] says.
pub struct CommentView {
    pub line: int,
    pub column: int,
    pub text: Seq<char>,
}

impl View for Comment {
    type V = CommentView;

    open spec fn view(&self) -> CommentView {
        CommentView { line: self.line as int, column: self.column as int, text: self.text@ }
    }
}

impl Clone for Comment {
    fn clone(&self) -> (r: Self)
        ensures
            r@ == self@,
    {
        Comment { line: self.line, column: self.column, text: self.text.clone() }
    }
}

/// A raw comment node before merging and cleaning.
#[derive(Debug)]
pub struct RawComment {
    pub start_row: usize,
    pub start_col: usize,
    pub end_row: usize,
    pub raw: String,
    /// True when this block is a single line comment or a run of them, and
    /// so may absorb the next adjacent line comment.
    pub line_run: bool,
}

/// What a [`RawComment`] says.
pub struct RawView {
    pub start_row: int,
    pub start_col: int,
    pub end_row: int,
    pub raw: Seq<char>,
    pub line_run: bool,
}

impl View for RawComment {
    type V = RawView;

    open spec fn view(&self) -> RawView {
        RawView {
            start_row: self.start_row as int,
            start_col: self.start_col as int,
            end_row: self.end_row as int,
            raw: self.raw@,
            line_run: self.line_run,
        }
    }
}

/// Each raw comment by what it says.
pub open spec fn raw_views(raw: Seq<RawComment>) -> Seq<RawView> {
    Seq::new(raw.len(), |i: int| raw[i]@)
}

/// Each comment by what it says.
pub open spec fn comment_views(comments: Seq<Comment>) -> Seq<CommentView> {
    Seq::new(comments.len(), |i: int| comments[i]@)
}

/// Whether `next` continues the run of line comments that `prev` is: it stands
/// on the row after it, in the same column, with the same delimiter.
pub open spec fn continues(prev: RawView, next: RawView) -> bool {
    &&& next.line_run
    &&& prev.line_run
    &&& prev.end_row + 1 == next.start_row
    &&& prev.start_col == next.start_col
    &&& line_delimiter(prev.raw) == line_delimiter(next.raw)
}

/// `prev` with `next` as its last line.
pub open spec fn extended(prev: RawView, next: RawView) -> RawView {
    RawView { raw: prev.raw.push('\n') + next.raw, end_row: next.end_row, ..prev }
}

/// The blocks that comments form: each run of line comments is one block.
pub open spec fn merged(raw: Seq<RawView>) -> Seq<RawView>
    decreases raw.len(),
{
    if raw.len() == 0 {
        Seq::empty()
    } else {
        let blocks = merged(raw.drop_last());
        let next = raw.last();
        if blocks.len() > 0 && continues(blocks.last(), next) {
            blocks.drop_last().push(extended(blocks.last(), next))
        } else {
            blocks.push(next)
        }
    }
}

/// A block as a comment, its position counted from one.
pub open spec fn block_comment(block: RawView) -> CommentView {
    CommentView {
        line: block.start_row + 1,
        column: block.start_col + 1,
        text: cleaned(block.raw),
    }
}

/// The blocks that hold prose, as comments.
pub open spec fn block_comments(blocks: Seq<RawView>) -> Seq<CommentView>
    decreases blocks.len(),
{
    if blocks.len() == 0 {
        Seq::empty()
    } else {
        let before = block_comments(blocks.drop_last());
        if cleaned(blocks.last().raw).len() == 0 {
            before
        } else {
            before.push(block_comment(blocks.last()))
        }
    }
}

/// Every comment begins where a position counted from one can still be told.
pub open spec fn countable(raw: Seq<RawView>) -> bool {
    forall|i: int|
        0 <= i < raw.len() ==> (#[trigger] raw[i]).start_row < usize::MAX && raw[i].start_col < usize::MAX
}

/// Whether `next` continues the run that `prev` is.
fn extends(prev: &RawComment, next: &RawComment) -> (r: bool)
    ensures
        r == continues(prev@, next@),
{
    next.line_run && prev.line_run && prev.end_row < next.start_row && next.start_row - prev.end_row == 1
        && prev.start_col == next.start_col && same_text(line_prefix(prev.raw.as_str()), line_prefix(next.raw.as_str()))
}

/// Merges consecutive single-line comments that start at the same column and
/// use the same delimiter into one block, then strips comment delimiters.
pub fn merge_and_clean(raw: Vec<RawComment>) -> (r: Vec<Comment>)
    requires
        countable(raw_views(raw@)),
    ensures
        comment_views(r@) == block_comments(merged(raw_views(raw@))),
{
    let blocks = merge(raw);
    let mut out: Vec<Comment> = Vec::new();
    let ghost all = raw_views(blocks@);
    let mut i: usize = 0;
    assert(all.take(0) =~= Seq::<RawView>::empty());
    while i < blocks.len()
        invariant
            i <= blocks@.len(),
            all == raw_views(blocks@),
            countable(all),
            comment_views(out@) == block_comments(all.take(i as int)),
        decreases blocks.len() - i,
    {
        let ghost next = all.take(i + 1);
        assert(next.drop_last() =~= all.take(i as int));
        assert(next.last() == blocks@[i as int]@);
        assert(all[i as int].start_row < usize::MAX);
        let text = clean(blocks[i].raw.as_str());
        if !text.as_str().is_empty() {
            let ghost before = out@;
            let comment = Comment { line: blocks[i].start_row + 1, column: blocks[i].start_col + 1, text };
            out.push(comment);
            assert(comment_views(out@) =~= comment_views(before).push(block_comment(all[i as int])));
        }
        i += 1;
    }
    assert(all.take(all.len() as int) =~= all);
    out
}

/// Merges consecutive single-line comments that start at the same column and
/// use the same delimiter into one block.
fn merge(raw: Vec<RawComment>) -> (blocks: Vec<RawComment>)
    ensures
        raw_views(blocks@) == merged(raw_views(raw@)),
        countable(raw_views(raw@)) ==> countable(raw_views(blocks@)),
{
    let ghost all = raw_views(raw@);
    let mut blocks: Vec<RawComment> = Vec::new();
    let mut i: usize = 0;
    assert(all.take(0) =~= Seq::<RawView>::empty());
    while i < raw.len()
        invariant
            i <= raw@.len(),
            all == raw_views(raw@),
            raw_views(blocks@) == merged(all.take(i as int)),
            countable(all) ==> countable(raw_views(blocks@)),
        decreases raw.len() - i,
    {
        let c = &raw[i];
        let ghost before = raw_views(blocks@);
        proof {
            let next = all.take(i + 1);
            assert(next.drop_last() =~= all.take(i as int));
            assert(next.last() == all[i as int]);
            assert(before.len() > 0 ==> before.last() == blocks@[blocks@.len() - 1]@);
        }
        if blocks.len() > 0 && extends(&blocks[blocks.len() - 1], c) {
            let prev = blocks.pop();
            if let Some(prev) = prev {
                let mut text = prev.raw;
                text.push('\n');
                text.append(c.raw.as_str());
                let block = RawComment {
                    start_row: prev.start_row,
                    start_col: prev.start_col,
                    end_row: c.end_row,
                    raw: text,
                    line_run: prev.line_run,
                };
                blocks.push(block);
                assert(raw_views(blocks@) =~= before.drop_last().push(extended(before.last(), all[i as int])));
            }
        } else {
            let block = RawComment {
                start_row: c.start_row,
                start_col: c.start_col,
                end_row: c.end_row,
                raw: c.raw.clone(),
                line_run: c.line_run,
            };
            blocks.push(block);
            assert(raw_views(blocks@) =~= before.push(all[i as int]));
        }
        i += 1;
    }
    assert(all.take(all.len() as int) =~= all);
    blocks
}

/// Whether the grammar's name for a node says that it is a comment.
pub open spec fn names_comment(kind: Seq<char>) -> bool {
    "comment"@.is_suffix_of(kind)
}

/// The text between two byte offsets of a source; none where the bytes between
/// them are not text of their own.
pub open spec fn text_between(source: Seq<char>, start: int, end: int) -> Seq<char> {
    let bytes = vstd::utf8::encode_utf8(source);
    if 0 <= start <= end <= bytes.len() && vstd::utf8::valid_utf8(bytes.subrange(start, end)) {
        vstd::utf8::decode_utf8(bytes.subrange(start, end))
    } else {
        Seq::empty()
    }
}

/// `s` without line feeds and carriage returns at its end.
pub open spec fn without_newlines(s: Seq<char>) -> Seq<char>
    decreases s.len(),
{
    if s.len() > 0 && (s.last() == '\n' || s.last() == '\r') {
        without_newlines(s.drop_last())
    } else {
        s
    }
}

/// The row on which a node ends. Some grammars count the newline after a
/// comment as part of it, which makes it end at the very start of the next row.
pub open spec fn last_row(node: SyntaxTree) -> int {
    if node.end_col == 0 && node.end_row > node.start_row {
        node.end_row - 1
    } else {
        node.end_row
    }
}

/// A comment node as a raw comment.
pub open spec fn raw_comment(node: SyntaxTree, source: Seq<char>) -> RawView {
    let raw = without_newlines(text_between(source, node.start_byte, node.end_byte));
    RawView {
        start_row: node.start_row,
        start_col: node.start_col,
        end_row: last_row(node),
        raw,
        line_run: node.start_row == last_row(node) && line_delimiter(raw).len() > 0,
    }
}

/// The comments of a tree in the order of the source. Nothing below a comment
/// counts.
pub open spec fn raw_comments(node: SyntaxTree, source: Seq<char>) -> Seq<RawView>
    decreases node,
{
    if names_comment(node.kind) {
        seq![raw_comment(node, source)]
    } else {
        raw_comments_of(node.children, source)
    }
}

/// The comments of several trees, one after the other.
pub open spec fn raw_comments_of(nodes: Seq<SyntaxTree>, source: Seq<char>) -> Seq<RawView>
    decreases nodes,
{
    if nodes.len() == 0 {
        Seq::empty()
    } else {
        raw_comments_of(nodes.drop_last(), source) + raw_comments(nodes.last(), source)
    }
}

/// The comments that a source with this syntax tree holds.
pub open spec fn comments_of(root: SyntaxTree, source: Seq<char>) -> Seq<CommentView> {
    block_comments(merged(raw_comments(root, source)))
}

/// Whether the grammar's name for a node says that it is a comment.
pub fn is_comment_kind(kind: &str) -> (r: bool)
    ensures
        r == names_comment(kind@),
{
    let v = chars_of(kind);
    assert(v@.subrange(0, v@.len() as int) =~= kind@);
    ends_with(&v, 0, v.len(), &chars_of("comment"))
}

/// The text between two byte offsets of `source`.
fn slice_text(source: &str, start: usize, end: usize) -> (r: String)
    ensures
        r@ == text_between(source@, start as int, end as int),
{
    let bytes = source.as_bytes();
    if start <= end && end <= bytes.len() {
        let part = vstd::slice::slice_subrange(bytes, start, end);
        match text_of_bytes(part) {
            Some(text) => text.to_owned(),
            None => String::new(),
        }
    } else {
        String::new()
    }
}

/// `s` without line feeds and carriage returns at its end.
fn trim_newlines(s: &str) -> (r: String)
    ensures
        r@ == without_newlines(s@),
{
    let v = chars_of(s);
    let mut end: usize = v.len();
    assert(v@.subrange(0, end as int) =~= s@);
    while end > 0 && (v[end - 1] == '\n' || v[end - 1] == '\r')
        invariant
            end <= v@.len(),
            without_newlines(s@) == without_newlines(v@.subrange(0, end as int)),
        decreases end,
    {
        assert(v@.subrange(0, end as int).drop_last() =~= v@.subrange(0, end - 1));
        end -= 1;
    }
    string_of(&v, 0, end)
}

/// Appends the comments of `node` to `out`.
pub fn collect(node: &SyntaxNode, source: &str, out: &mut Vec<RawComment>)
    ensures
        raw_views(final(out)@) == raw_views(old(out)@) + raw_comments(node.tree(), source@),
    decreases node,
{
    let ghost tree = node.tree();
    if is_comment_kind(node.kind.as_str()) {
        let text = slice_text(source, node.start_byte, node.end_byte);
        let raw = trim_newlines(text.as_str());
        let mut end_row: usize = node.end_row;
        // Some grammars (Rust doc comments, for one) include the trailing
        // newline in the node, which would make a one-line comment look like
        // it spans two rows.
        if node.end_col == 0 && end_row > node.start_row {
            end_row -= 1;
        }
        let line_run = node.start_row == end_row && !line_prefix(raw.as_str()).is_empty();
        let found = RawComment {
            start_row: node.start_row,
            start_col: node.start_col,
            end_row,
            raw,
            line_run,
        };
        let ghost before = out@;
        out.push(found);
        assert(raw_views(out@) =~= raw_views(before) + seq![raw_comment(tree, source@)]);
        return ;
    }
    let mut i: usize = 0;
    assert(tree.children.take(0) =~= Seq::<SyntaxTree>::empty());
    assert(raw_views(out@) + Seq::<RawView>::empty() =~= raw_views(out@));
    while i < node.children.len()
        invariant
            i <= node.children@.len(),
            tree == node.tree(),
            raw_views(out@) == raw_views(old(out)@) + raw_comments_of(
                tree.children.take(i as int),
                source@,
            ),
        decreases node.children.len() - i,
    {
        let ghost before = raw_views(out@);
        collect(&node.children[i], source, out);
        proof {
            let next = tree.children.take(i + 1);
            assert(next.drop_last() =~= tree.children.take(i as int));
            assert(next.last() == node.children@[i as int].tree());
            assert(raw_views(out@) =~= raw_views(old(out)@) + (raw_comments_of(next.drop_last(), source@)
                + raw_comments(next.last(), source@)));
        }
        i += 1;
    }
    assert(tree.children.take(tree.children.len() as int) =~= tree.children);
}

/// The comments worth evaluating of a source with the syntax tree `root`.
pub fn comments_in(root: &SyntaxNode, source: &str) -> (r: Vec<Comment>)
    requires
        countable(raw_comments(root.tree(), source@)),
    ensures
        comment_views(r@) == comments_of(root.tree(), source@),
{
    let mut raw: Vec<RawComment> = Vec::new();
    collect(root, source, &mut raw);
    assert(raw_views(raw@) =~= raw_comments(root.tree(), source@));
    merge_and_clean(raw)
}

/// Why no comments could be taken from a source text.
#[derive(Debug)]
pub enum ExtractError {
    /// The parser refused the grammar.
    Grammar(tree_sitter::LanguageError),
    /// The parser found no syntax tree.
    NoTree,
    /// A comment begins on the last row or in the last column that a machine
    /// word can number, so its position cannot be counted from one.
    Position,
}

/// What a grammar makes of a source text: each error stands for one way to
/// fail, and where none of them applies the comments are found.
pub open spec fn extracts(
    r: Result<Vec<Comment>, ExtractError>,
    grammar: tree_sitter::Language,
    source: Seq<char>,
) -> bool {
    match r {
        Err(ExtractError::Grammar(_)) => !grammar_loads(grammar),
        Err(ExtractError::NoTree) => grammar_loads(grammar) && parsed(grammar, source) is None,
        Err(ExtractError::Position) => {
            &&& grammar_loads(grammar)
            &&& parsed(grammar, source) is Some
            &&& !countable(raw_comments(parsed(grammar, source)->0, source))
        },
        Ok(comments) => {
            &&& grammar_loads(grammar)
            &&& parsed(grammar, source) is Some
            &&& countable(raw_comments(parsed(grammar, source)->0, source))
            &&& comment_views(comments@) == comments_of(parsed(grammar, source)->0, source)
        },
    }
}

/// Parses `source` with `grammar` and returns every comment worth evaluating.
pub fn extract_comments(grammar: &tree_sitter::Language, source: &str) -> (r: Result<
    Vec<Comment>,
    ExtractError,
>)
    ensures
        extracts(r, *grammar, source@),
{
    match parse_source(grammar, source) {
        Err(ParseError::Grammar(e)) => Err(ExtractError::Grammar(e)),
        Err(ParseError::NoTree) => Err(ExtractError::NoTree),
        Ok(root) => {
            let mut raw: Vec<RawComment> = Vec::new();
            collect(&root, source, &mut raw);
            assert(raw_views(raw@) =~= raw_comments(root.tree(), source@));
            let mut i: usize = 0;
            while i < raw.len()
                invariant
                    i <= raw@.len(),
                    raw_views(raw@) == raw_comments(root.tree(), source@),
                    grammar_loads(*grammar),
                    parsed(*grammar, source@) == Some(root.tree()),
                    forall|j: int|
                        0 <= j < i ==> raw@[j].start_row < usize::MAX && raw@[j].start_col < usize::MAX,
                decreases raw.len() - i,
            {
                if raw[i].start_row == usize::MAX || raw[i].start_col == usize::MAX {
                    assert(raw_views(raw@)[i as int] == raw@[i as int]@);
                    return Err(ExtractError::Position);
                }
                i += 1;
            }
            Ok(merge_and_clean(raw))
        },
    }
}

/// Reads the bytes of a file as text and returns its comments, or nothing where
/// the file is not UTF-8.
pub fn extract_from_file(grammar: &tree_sitter::Language, bytes: &[u8]) -> (r: Result<
    Option<Vec<Comment>>,
    ExtractError,
>)
    ensures
        r matches Ok(None) <==> !vstd::utf8::valid_utf8(bytes@),
        r matches Ok(Some(comments)) ==> extracts(
            Ok(comments),
            *grammar,
            vstd::utf8::decode_utf8(bytes@),
        ),
        r matches Err(e) ==> extracts(Err(e), *grammar, vstd::utf8::decode_utf8(bytes@)),
{
    match text_of_bytes(bytes) {
        None => Ok(None),
        Some(source) => match extract_comments(grammar, source) {
            Ok(comments) => Ok(Some(comments)),
            Err(e) => Err(e),
        },
    }
}

proof fn lemma_prose_lines_trimmed(ls: Seq<Seq<char>>)
    ensures
        forall|i: int| 0 <= i < prose_lines(ls).len() ==> trimmed(#[trigger] prose_lines(ls)[i]),
    decreases ls.len(),
{
    if ls.len() > 0 {
        let rest = prose_lines(ls.skip(1));
        lemma_prose_lines_trimmed(ls.skip(1));
        lemma_trim_trimmed(without_opener(without_closers(trim(ls[0]), closers()), openers()));
        if !is_block_marker(line_prose(ls[0])) {
            assert forall|i: int| 0 <= i < prose_lines(ls).len() implies trimmed(#[trigger] prose_lines(ls)[i]) by {
                if i > 0 {
                    assert(prose_lines(ls)[i] == rest[i - 1]);
                }
            }
        }
    }
}

proof fn lemma_without_leading_blanks(ls: Seq<Seq<char>>)
    ensures
        without_leading_blanks(ls).len() > 0 ==> without_leading_blanks(ls)[0].len() > 0,
        forall|i: int|
            0 <= i < without_leading_blanks(ls).len() ==> ls.contains(#[trigger] without_leading_blanks(ls)[i]),
    decreases ls.len(),
{
    if ls.len() > 0 && ls[0].len() == 0 {
        let rest = ls.skip(1);
        lemma_without_leading_blanks(rest);
        assert forall|i: int| 0 <= i < without_leading_blanks(ls).len() implies ls.contains(
            #[trigger] without_leading_blanks(ls)[i],
        ) by {
            let line = without_leading_blanks(rest)[i];
            assert(rest.contains(line));
            let k = rest.index_of(line);
            assert(ls[k + 1] == line);
        }
    }
}

proof fn lemma_without_trailing_blanks(ls: Seq<Seq<char>>)
    ensures
        without_trailing_blanks(ls).len() > 0 ==> {
            &&& without_trailing_blanks(ls).last().len() > 0
            &&& without_trailing_blanks(ls)[0] == ls[0]
        },
        without_trailing_blanks(ls).is_prefix_of(ls),
    decreases ls.len(),
{
    if ls.len() > 0 && ls.last().len() == 0 {
        lemma_without_trailing_blanks(ls.drop_last());
        assert(without_trailing_blanks(ls) =~= ls.take(without_trailing_blanks(ls).len() as int));
    } else {
        assert(ls.take(ls.len() as int) =~= ls);
    }
}

/// The lines of prose of a comment have no white space at their ends, and the
/// first and the last of them are not empty.
pub proof fn prose_lines_are_trimmed(raw: Seq<char>)
    ensures
        forall|i: int| 0 <= i < prose(raw).len() ==> trimmed(#[trigger] prose(raw)[i]),
        prose(raw).len() > 0 ==> prose(raw)[0].len() > 0 && prose(raw).last().len() > 0,
{
    let all = prose_lines(lines(raw));
    let inner = without_leading_blanks(all);
    lemma_prose_lines_trimmed(lines(raw));
    lemma_without_leading_blanks(all);
    lemma_without_trailing_blanks(inner);
    assert forall|i: int| 0 <= i < prose(raw).len() implies trimmed(#[trigger] prose(raw)[i]) by {
        assert(prose(raw)[i] == inner[i]);
        assert(all.contains(inner[i]));
        let k = all.index_of(inner[i]);
        assert(trimmed(all[k]));
    }
}

proof fn lemma_joined_ends(parts: Seq<Seq<char>>, sep: char)
    requires
        parts.len() > 0,
        parts[0].len() > 0,
        parts.last().len() > 0,
    ensures
        joined(parts, sep).len() > 0,
        joined(parts, sep)[0] == parts[0][0],
        joined(parts, sep).last() == parts.last().last(),
{
    lemma_joined_start(parts, sep);
}

proof fn lemma_joined_start(parts: Seq<Seq<char>>, sep: char)
    requires
        parts.len() > 0,
        parts[0].len() > 0,
    ensures
        joined(parts, sep).len() > 0,
        joined(parts, sep)[0] == parts[0][0],
    decreases parts.len(),
{
    if parts.len() > 1 {
        lemma_joined_start(parts.drop_last(), sep);
    }
}

/// A comment's prose has no white space at either end.
pub proof fn cleaned_text_is_trimmed(raw: Seq<char>)
    ensures
        trimmed(cleaned(raw)),
        cleaned(raw).len() == 0 <==> prose(raw).len() == 0,
{
    prose_lines_are_trimmed(raw);
    let parts = prose(raw);
    if parts.len() > 0 {
        lemma_joined_ends(parts, '\n');
        assert(trimmed(parts[0]));
        assert(trimmed(parts[parts.len() - 1]));
    }
}

proof fn lemma_delimiters_have_no_newline()
    ensures
        forall|i: int, j: int|
            0 <= i < line_delimiters().len() && 0 <= j < line_delimiters()[i].len() ==> #[trigger] line_delimiters()[i][j]
                != '\n',
{
    reveal_strlit("////");
    reveal_strlit("//!");
    reveal_strlit("///");
    reveal_strlit("//");
    reveal_strlit("#!");
    reveal_strlit("#");
    reveal_strlit("--");
    reveal_strlit(";;");
    reveal_strlit(";");
    reveal_strlit("%%");
    reveal_strlit("%");
    reveal_strlit("(*");
}

/// More lines do not change which delimiter a text begins with.
proof fn lemma_same_prefix(s: Seq<char>, more: Seq<char>, delimiters: Seq<Seq<char>>)
    requires
        forall|i: int, j: int|
            0 <= i < delimiters.len() && 0 <= j < delimiters[i].len() ==> #[trigger] delimiters[i][j] != '\n',
    ensures
        first_prefix(s.push('\n') + more, delimiters) == first_prefix(s, delimiters),
    decreases delimiters.len(),
{
    if delimiters.len() > 0 {
        let d = delimiters[0];
        let long = s.push('\n') + more;
        let rest = delimiters.skip(1);
        if d.is_prefix_of(s) {
            assert(d =~= long.subrange(0, d.len() as int));
        }
        if d.is_prefix_of(long) {
            if d.len() > s.len() {
                assert(d[s.len() as int] == long[s.len() as int]);
                assert(delimiters[0][s.len() as int] != '\n');
            }
            assert(d =~= s.subrange(0, d.len() as int));
        }
        assert forall|i: int, j: int| 0 <= i < rest.len() && 0 <= j < rest[i].len() implies #[trigger] rest[i][j]
            != '\n' by {
            assert(delimiters[i + 1][j] != '\n');
        }
        lemma_same_prefix(s, more, rest);
    }
}

/// A run of line comments keeps the delimiter of its first line.
pub proof fn extended_block_keeps_its_delimiter(prev: RawView, next: RawView)
    ensures
        line_delimiter(extended(prev, next).raw) == line_delimiter(prev.raw),
{
    lemma_delimiters_have_no_newline();
    lemma_same_prefix(prev.raw, next.raw, line_delimiters());
}

/// Merging is complete: no block continues the one before it.
pub proof fn merging_is_complete(raw: Seq<RawView>)
    ensures
        forall|i: int|
            0 <= i < merged(raw).len() - 1 ==> !continues(#[trigger] merged(raw)[i], merged(raw)[i + 1]),
    decreases raw.len(),
{
    if raw.len() > 0 {
        let before = merged(raw.drop_last());
        let next = raw.last();
        merging_is_complete(raw.drop_last());
        if before.len() > 0 && continues(before.last(), next) {
            let block = extended(before.last(), next);
            extended_block_keeps_its_delimiter(before.last(), next);
            assert forall|i: int| 0 <= i < merged(raw).len() - 1 implies !continues(
                #[trigger] merged(raw)[i],
                merged(raw)[i + 1],
            ) by {
                assert(merged(raw)[i] == before[i]);
                assert(!continues(before[i], before[i + 1]));
                if i + 1 == merged(raw).len() - 1 {
                    assert(merged(raw)[i + 1] == block);
                    assert(before[i + 1] == before.last());
                } else {
                    assert(merged(raw)[i + 1] == before[i + 1]);
                }
            }
        } else {
            assert forall|i: int| 0 <= i < merged(raw).len() - 1 implies !continues(
                #[trigger] merged(raw)[i],
                merged(raw)[i + 1],
            ) by {
                assert(merged(raw)[i] == before[i]);
                if i + 1 < before.len() {
                    assert(merged(raw)[i + 1] == before[i + 1]);
                } else {
                    assert(merged(raw)[i + 1] == next);
                    assert(before[i] == before.last());
                }
            }
        }
    }
}

/// The raw text of each block.
pub open spec fn raw_texts(blocks: Seq<RawView>) -> Seq<Seq<char>> {
    Seq::new(blocks.len(), |i: int| blocks[i].raw)
}

/// Merging keeps every line of every comment, in order.
pub proof fn merging_keeps_the_text(raw: Seq<RawView>)
    ensures
        joined(raw_texts(merged(raw)), '\n') == joined(raw_texts(raw), '\n'),
        merged(raw).len() <= raw.len(),
        raw.len() > 0 ==> merged(raw).len() > 0,
    decreases raw.len(),
{
    if raw.len() == 0 {
        assert(raw_texts(merged(raw)) =~= raw_texts(raw));
    } else {
        let outer = raw.drop_last();
        let before = merged(outer);
        let next = raw.last();
        merging_keeps_the_text(outer);
        let texts = raw_texts(raw);
        assert(texts.drop_last() =~= raw_texts(outer));
        assert(texts.last() == next.raw);
        let blocks = raw_texts(merged(raw));
        if before.len() > 0 && continues(before.last(), next) {
            let block = extended(before.last(), next);
            assert(blocks.drop_last() =~= raw_texts(before).drop_last());
            assert(blocks.last() == block.raw);
            assert(outer.len() > 0);
            if before.len() > 1 {
                assert(joined(blocks, '\n') =~= joined(raw_texts(before), '\n').push('\n') + next.raw);
            } else {
                assert(blocks =~= seq![block.raw]);
                assert(raw_texts(before) =~= seq![before.last().raw]);
            }
        } else {
            assert(blocks.drop_last() =~= raw_texts(before));
            assert(blocks.last() == next.raw);
            if before.len() == 0 {
                assert(outer.len() == 0);
                assert(blocks =~= texts);
            }
        }
    }
}

/// Every comment holds prose, and stands where a block begins, its position
/// counted from one.
pub proof fn comments_hold_prose(blocks: Seq<RawView>, i: int)
    requires
        0 <= i < block_comments(blocks).len(),
    ensures
        block_comments(blocks)[i].text.len() > 0,
        trimmed(block_comments(blocks)[i].text),
        exists|k: int| 0 <= k < blocks.len() && block_comments(blocks)[i] == block_comment(#[trigger] blocks[k]),
    decreases blocks.len(),
{
    if blocks.len() > 0 {
        let outer = blocks.drop_last();
        let before = block_comments(outer);
        cleaned_text_is_trimmed(blocks.last().raw);
        if i < before.len() {
            comments_hold_prose(outer, i);
            let k = choose|k: int| 0 <= k < outer.len() && before[i] == block_comment(#[trigger] outer[k]);
            assert(blocks[k] == outer[k]);
            assert(block_comments(blocks)[i] == block_comment(blocks[k]));
        } else {
            assert(block_comments(blocks)[i] == block_comment(blocks[blocks.len() - 1]));
        }
    }
}

/// Comments of which none continues the one before it stay apart.
pub proof fn separate_comments_stay_apart(raw: Seq<RawView>)
    requires
        forall|i: int| 0 <= i < raw.len() - 1 ==> !continues(#[trigger] raw[i], raw[i + 1]),
    ensures
        merged(raw) == raw,
    decreases raw.len(),
{
    if raw.len() > 0 {
        let outer = raw.drop_last();
        assert forall|i: int| 0 <= i < outer.len() - 1 implies !continues(#[trigger] outer[i], outer[i + 1]) by {
            assert(outer[i] == raw[i] && outer[i + 1] == raw[i + 1]);
        }
        separate_comments_stay_apart(outer);
        if outer.len() > 0 {
            let n = raw.len() - 2;
            assert(outer.last() == raw[n]);
            assert(!continues(raw[n], raw[n + 1]));
        }
        assert(outer.push(raw.last()) =~= raw);
    }
}

/// A run of line comments, each of which continues the one before it, becomes
/// one block: it begins where the first does and ends where the last does.
pub proof fn run_becomes_one_block(raw: Seq<RawView>)
    requires
        raw.len() > 0,
        forall|i: int| 0 <= i < raw.len() - 1 ==> continues(#[trigger] raw[i], raw[i + 1]),
    ensures
        merged(raw).len() == 1,
        merged(raw)[0].start_row == raw[0].start_row,
        merged(raw)[0].start_col == raw[0].start_col,
        merged(raw)[0].end_row == raw.last().end_row,
        merged(raw)[0].line_run == raw[0].line_run,
        merged(raw)[0].raw == joined(raw_texts(raw), '\n'),
        line_delimiter(merged(raw)[0].raw) == line_delimiter(raw.last().raw),
        merged(raw)[0].start_col == raw.last().start_col,
    decreases raw.len(),
{
    let outer = raw.drop_last();
    if outer.len() == 0 {
        assert(merged(outer).len() == 0);
        assert(merged(raw) =~= raw);
        assert(raw_texts(raw) =~= seq![raw[0].raw]);
    } else {
        let n = raw.len() - 2;
        assert forall|i: int| 0 <= i < outer.len() - 1 implies continues(#[trigger] outer[i], outer[i + 1]) by {
            assert(outer[i] == raw[i] && outer[i + 1] == raw[i + 1]);
        }
        run_becomes_one_block(outer);
        assert(outer.last() == raw[n]);
        assert(continues(raw[n], raw[n + 1]));
        let block = merged(outer)[0];
        assert(merged(outer).last() == block);
        assert(block.line_run) by {
            assert(continues(raw[0], raw[1]));
        }
        extended_block_keeps_its_delimiter(block, raw.last());
        assert(raw_texts(raw).drop_last() =~= raw_texts(outer));
    }
}

/// White space behind a text is trimmed off with the rest.
proof fn lemma_trim_pushed(s: Seq<char>, c: char)
    requires
        is_space(c),
    ensures
        trim(s.push(c)) == trim(s),
    decreases s.len(),
{
    let long = s.push(c);
    if s.len() == 0 {
        assert(long.skip(1) =~= Seq::<char>::empty());
        assert(trim_start(long) == trim_start(long.skip(1)));
        assert(s =~= Seq::<char>::empty());
    } else if is_space(s[0]) {
        assert(long[0] == s[0]);
        assert(long.skip(1) =~= s.skip(1).push(c));
        lemma_trim_pushed(s.skip(1), c);
    } else {
        assert(long[0] == s[0]);
        assert(long.last() == c);
        assert(long.drop_last() =~= s);
    }
}

/// A carriage return at the end of a line does not matter to its prose.
pub proof fn lemma_prose_without_cr(line: Seq<char>)
    ensures
        trim(without_cr(line)) == trim(line),
        line_prose(without_cr(line)) == line_prose(line),
{
    if line.len() > 0 && line.last() == '\r' {
        lemma_trim_pushed(line.drop_last(), '\r');
        assert(line.drop_last().push('\r') =~= line);
    }
}

proof fn lemma_prose_lines_joined(a: Seq<Seq<char>>, b: Seq<Seq<char>>)
    ensures
        prose_lines(a + b) == prose_lines(a) + prose_lines(b),
    decreases a.len(),
{
    if a.len() == 0 {
        assert(a + b =~= b);
        assert(prose_lines(a) + prose_lines(b) =~= prose_lines(b));
    } else {
        assert((a + b).skip(1) =~= a.skip(1) + b);
        lemma_prose_lines_joined(a.skip(1), b);
        assert(prose_lines(a + b) =~= prose_lines(a) + prose_lines(b));
    }
}

proof fn lemma_prose_of_one(line: Seq<char>)
    ensures
        prose_lines(seq![line]) == if is_block_marker(line_prose(line)) {
            Seq::<Seq<char>>::empty()
        } else {
            seq![line_prose(line)]
        },
{
    let one = seq![line];
    assert(one.skip(1) =~= Seq::<Seq<char>>::empty());
    assert(prose_lines(one.skip(1)) =~= Seq::<Seq<char>>::empty());
    assert(seq![line_prose(line)] + Seq::<Seq<char>>::empty() =~= seq![line_prose(line)]);
}

/// The prose of two texts with a line feed between them, line by line.
proof fn lemma_prose_of_joined(a: Seq<char>, b: Seq<char>)
    requires
        a.len() > 0,
        a.last() != '\n',
    ensures
        prose_lines(lines(a.push('\n') + b)) == prose_lines(lines(a)) + prose_lines(lines(b)),
    decreases a.len(),
{
    let whole = a.push('\n') + b;
    let n = span(a, '\n') as int;
    lemma_span(a, '\n');
    assert forall|i: int| 0 <= i < n implies whole[i] != '\n' by {
        assert(whole[i] == a[i]);
    }
    assert(whole[n] == '\n');
    lemma_span_is(whole, '\n', n as nat);
    assert(whole.take(n) =~= a.take(n));
    let first = without_cr(a.take(n));
    lemma_prose_of_one(first);
    if n >= a.len() {
        assert(a.take(n) =~= a);
        assert(whole.skip(n + 1) =~= b);
        assert(lines(whole) == seq![first] + lines(b));
        lemma_prose_lines_joined(seq![first], lines(b));
        lemma_prose_without_cr(a);
        lemma_prose_of_one(a);
    } else {
        let rest = a.skip(n + 1);
        assert(n < a.len() - 1);
        assert(rest.last() == a.last());
        assert(whole.skip(n + 1) =~= rest.push('\n') + b);
        assert(lines(whole) == seq![first] + lines(rest.push('\n') + b));
        lemma_prose_of_joined(rest, b);
        lemma_prose_lines_joined(seq![first], lines(rest.push('\n') + b));
        lemma_prose_lines_joined(seq![first], lines(rest));
        assert(lines(a) == seq![first] + lines(rest));
        let head = prose_lines(seq![first]);
        assert(head + (prose_lines(lines(rest)) + prose_lines(lines(b))) =~= head + prose_lines(lines(rest))
            + prose_lines(lines(b)));
    }
}

/// Whether a line holds prose, and not a block marker alone.
pub open spec fn holds_prose(line: Seq<char>) -> bool {
    line_prose(line).len() > 0 && !is_block_marker(line_prose(line))
}

/// A line holds prose where something is left of it when it is cleaned alone.
pub proof fn line_with_prose_is_not_cleaned_away(line: Seq<char>)
    requires
        !line.contains('\n'),
    ensures
        holds_prose(line) <==> cleaned(line).len() > 0,
{
    assert forall|i: int| 0 <= i < line.len() implies line[i] != '\n' by {
        assert(line.contains(line[i]));
    }
    lemma_span_is(line, '\n', line.len());
    if line.len() == 0 {
        assert(lines(line) =~= Seq::<Seq<char>>::empty());
        lemma_blank_line_prose(line);
    } else {
        lemma_prose_of_one(line);
        let one = prose_lines(seq![line]);
        if one.len() > 0 && line_prose(line).len() == 0 {
            assert(one.skip(1) =~= Seq::<Seq<char>>::empty());
            assert(without_leading_blanks(one.skip(1)) =~= Seq::<Seq<char>>::empty());
            assert(without_leading_blanks(one) =~= Seq::<Seq<char>>::empty());
        }
    }
}

/// There is no prose in an empty line.
proof fn lemma_blank_line_prose(line: Seq<char>)
    requires
        line.len() == 0,
    ensures
        line_prose(line).len() == 0,
{
    assert(trim(line) =~= line);
    lemma_closers_shorten(line, closers());
    lemma_opener_shortens(without_closers(trim(line), closers()), openers());
    lemma_trim_shortens(without_opener(without_closers(trim(line), closers()), openers()));
}

proof fn lemma_closers_shorten(s: Seq<char>, delimiters: Seq<Seq<char>>)
    ensures
        without_closers(s, delimiters).len() <= s.len(),
    decreases delimiters.len(),
{
    if delimiters.len() > 0 {
        if delimiters[0].is_suffix_of(s) {
            let cut = s.take(s.len() - delimiters[0].len());
            lemma_trim_end(cut);
            lemma_closers_shorten(trim_end(cut), delimiters.skip(1));
        } else {
            lemma_closers_shorten(s, delimiters.skip(1));
        }
    }
}

proof fn lemma_opener_shortens(s: Seq<char>, delimiters: Seq<Seq<char>>)
    ensures
        without_opener(s, delimiters).len() <= s.len(),
    decreases delimiters.len(),
{
    if delimiters.len() > 0 && !delimiters[0].is_prefix_of(s) {
        lemma_opener_shortens(s, delimiters.skip(1));
    }
}

proof fn lemma_trim_shortens(s: Seq<char>)
    ensures
        trim(s).len() <= s.len(),
{
    lemma_trim_start(s);
    lemma_trim_end(trim_start(s));
}

proof fn lemma_leading_blanks_joined(a: Seq<Seq<char>>, b: Seq<Seq<char>>)
    requires
        a.len() > 0,
        a.last().len() > 0,
    ensures
        without_leading_blanks(a + b) == without_leading_blanks(a) + b,
        without_leading_blanks(a).len() > 0,
        without_leading_blanks(a).last() == a.last(),
    decreases a.len(),
{
    assert((a + b)[0] == a[0]);
    if a[0].len() == 0 {
        assert(a.len() > 1);
        assert((a + b).skip(1) =~= a.skip(1) + b);
        assert(a.skip(1).last() == a.last());
        lemma_leading_blanks_joined(a.skip(1), b);
    }
}

proof fn lemma_trailing_blanks_joined(a: Seq<Seq<char>>, b: Seq<Seq<char>>)
    requires
        b.len() > 0,
        b[0].len() > 0,
    ensures
        without_trailing_blanks(a + b) == a + without_trailing_blanks(b),
        without_trailing_blanks(b).len() > 0,
    decreases b.len(),
{
    assert((a + b).last() == b.last());
    if b.last().len() == 0 {
        assert(b.len() > 1);
        assert((a + b).drop_last() =~= a + b.drop_last());
        lemma_trailing_blanks_joined(a, b.drop_last());
    }
}

proof fn lemma_joined_of_joined(a: Seq<Seq<char>>, b: Seq<Seq<char>>, sep: char)
    requires
        a.len() > 0,
        b.len() > 0,
    ensures
        joined(a + b, sep) == joined(a, sep).push(sep) + joined(b, sep),
    decreases b.len(),
{
    let all = a + b;
    assert(all.last() == b.last());
    assert(all.drop_last() =~= a + b.drop_last());
    if b.len() == 1 {
        assert(a + b.drop_last() =~= a);
        assert(joined(b, sep) == b.last());
    } else {
        lemma_joined_of_joined(a, b.drop_last(), sep);
        assert(joined(all, sep) =~= joined(a, sep).push(sep) + joined(b, sep));
    }
}

/// The prose of the last line, where it holds any, comes last.
proof fn lemma_last_prose(ls: Seq<Seq<char>>)
    requires
        ls.len() > 0,
        holds_prose(ls.last()),
    ensures
        prose_lines(ls).len() > 0,
        prose_lines(ls).last() == line_prose(ls.last()),
{
    assert(ls =~= ls.drop_last() + seq![ls.last()]);
    lemma_prose_lines_joined(ls.drop_last(), seq![ls.last()]);
    lemma_prose_of_one(ls.last());
}

/// Comments are cleaned line by line: of two texts with a line feed between them
/// each is cleaned on its own, where the lines that meet hold prose.
pub proof fn cleaning_goes_line_by_line(a: Seq<char>, b: Seq<char>)
    requires
        a.len() > 0,
        a.last() != '\n',
        holds_prose(lines(a).last()),
        lines(b).len() > 0,
        holds_prose(lines(b)[0]),
    ensures
        cleaned(a.push('\n') + b) == cleaned(a).push('\n') + cleaned(b),
{
    let p = prose_lines(lines(a));
    let q = prose_lines(lines(b));
    lemma_prose_of_joined(a, b);
    lemma_last_prose(lines(a));
    assert(q[0] == line_prose(lines(b)[0]));
    lemma_leading_blanks_joined(p, q);
    let x = without_leading_blanks(p);
    lemma_trailing_blanks_joined(x, q);
    assert(without_trailing_blanks(x) == x);
    assert(without_leading_blanks(q) == q);
    assert(prose(a.push('\n') + b) == prose(a) + prose(b));
    lemma_joined_of_joined(prose(a), prose(b), '\n');
}

proof fn lemma_same_prose_lines(ls: Seq<Seq<char>>, ms: Seq<Seq<char>>)
    requires
        ls.len() == ms.len(),
        forall|i: int| 0 <= i < ls.len() ==> trim(#[trigger] ls[i]) == trim(ms[i]),
    ensures
        prose_lines(ls) == prose_lines(ms),
    decreases ls.len(),
{
    if ls.len() > 0 {
        assert(trim(ls[0]) == trim(ms[0]));
        assert forall|i: int| 0 <= i < ls.skip(1).len() implies trim(#[trigger] ls.skip(1)[i]) == trim(ms.skip(1)[i]) by {
            assert(ls.skip(1)[i] == ls[i + 1]);
        }
        lemma_same_prose_lines(ls.skip(1), ms.skip(1));
    }
}

/// White space at the ends of lines does not matter: texts whose lines differ in
/// it alone are cleaned to the same.
pub proof fn space_around_lines_does_not_matter(a: Seq<char>, b: Seq<char>)
    requires
        lines(a).len() == lines(b).len(),
        forall|i: int| 0 <= i < lines(a).len() ==> trim(#[trigger] lines(a)[i]) == trim(lines(b)[i]),
    ensures
        prose_lines(lines(a)) == prose_lines(lines(b)),
        cleaned(a) == cleaned(b),
{
    lemma_same_prose_lines(lines(a), lines(b));
}

/// `s` with a carriage return before every line feed.
pub open spec fn with_crs(s: Seq<char>) -> Seq<char>
    decreases s.len(),
{
    if s.len() == 0 {
        Seq::empty()
    } else if s.last() == '\n' {
        with_crs(s.drop_last()).push('\r').push('\n')
    } else {
        with_crs(s.drop_last()).push(s.last())
    }
}

proof fn lemma_with_crs_joined(a: Seq<char>, b: Seq<char>)
    ensures
        with_crs(a + b) == with_crs(a) + with_crs(b),
    decreases b.len(),
{
    if b.len() == 0 {
        assert(a + b =~= a);
        assert(with_crs(a) + with_crs(b) =~= with_crs(a));
    } else {
        assert((a + b).drop_last() =~= a + b.drop_last());
        assert((a + b).last() == b.last());
        lemma_with_crs_joined(a, b.drop_last());
        assert(with_crs(a + b) =~= with_crs(a) + with_crs(b));
    }
}

proof fn lemma_with_crs_of_line(s: Seq<char>)
    requires
        forall|i: int| 0 <= i < s.len() ==> #[trigger] s[i] != '\n',
    ensures
        with_crs(s) == s,
    decreases s.len(),
{
    if s.len() > 0 {
        assert(s[s.len() - 1] != '\n');
        assert forall|i: int| 0 <= i < s.drop_last().len() implies #[trigger] s.drop_last()[i] != '\n' by {
            assert(s.drop_last()[i] == s[i]);
        }
        lemma_with_crs_of_line(s.drop_last());
        assert(s.drop_last().push(s.last()) =~= s);
    } else {
        assert(with_crs(s) =~= s);
    }
}

proof fn lemma_lines_with_crs(s: Seq<char>)
    ensures
        prose_lines(lines(with_crs(s))) == prose_lines(lines(s)),
    decreases s.len(),
{
    let n = span(s, '\n') as int;
    lemma_span(s, '\n');
    if n >= s.len() {
        lemma_with_crs_of_line(s);
    } else {
        let line = s.take(n);
        let feed = seq!['\n'];
        let rest = s.skip(n + 1);
        assert(s =~= line + feed + rest);
        lemma_with_crs_joined(line, feed);
        lemma_with_crs_joined(line + feed, rest);
        lemma_with_crs_of_line(line);
        assert(feed.drop_last() =~= Seq::<char>::empty());
        assert(with_crs(feed.drop_last()) =~= Seq::<char>::empty());
        assert(with_crs(feed) =~= seq!['\r', '\n']);
        let whole = with_crs(s);
        let long = line.push('\r');
        assert(whole =~= long + feed + with_crs(rest));
        assert forall|i: int| 0 <= i < long.len() implies whole[i] != '\n' by {
            assert(whole[i] == long[i]);
        }
        assert(whole[long.len() as int] == '\n');
        lemma_span_is(whole, '\n', long.len());
        assert(whole.take(long.len() as int) =~= long);
        assert(whole.skip(long.len() as int + 1) =~= with_crs(rest));
        assert(without_cr(long) =~= line);
        assert(lines(whole) == seq![line] + lines(with_crs(rest)));
        assert(lines(s) == seq![without_cr(line)] + lines(rest));
        lemma_lines_with_crs(rest);
        lemma_prose_lines_joined(seq![line], lines(with_crs(rest)));
        lemma_prose_lines_joined(seq![without_cr(line)], lines(rest));
        lemma_prose_without_cr(line);
        lemma_prose_of_one(line);
        lemma_prose_of_one(without_cr(line));
    }
}

/// The style of line endings does not matter: a text with a carriage return
/// before every line feed is cleaned to the same.
pub proof fn line_endings_do_not_matter(s: Seq<char>)
    ensures
        cleaned(with_crs(s)) == cleaned(s),
{
    lemma_lines_with_crs(s);
}

} // verus!
