//! Findings: which comments fail which rules, in what order and in what words
//! they are reported.

use vstd::prelude::*;

use crate::extract::Comment;
use crate::jobs::Job;
use crate::number::push_decimal;
use crate::order::text_precedes;
use crate::paths::{bytes_in, path_precedes};
use crate::score::Score;
use crate::sort::{sort, Ranked};
use crate::table::Table;
use crate::text::{chars_of, copy_of, join, read_lossy, string_of, words_of};

#[allow(unused_imports)]
use crate::extract::CommentView;
#[allow(unused_imports)]
use crate::jobs::JobView;
#[allow(unused_imports)]
use crate::number::decimal;
#[allow(unused_imports)]
use crate::order::{lemma_text_order, text_before};
#[allow(unused_imports)]
use crate::paths::{path_before, path_order, same_parts};
#[allow(unused_imports)]
use crate::sort::{sorted_from, value_views};
#[allow(unused_imports)]
use crate::table::ascending;
#[allow(unused_imports)]
use crate::text::{
    is_space, joined, lemma_joined_single_spaced, lemma_single_spaced, lemma_words_are_words, lemma_words_of_joined,
    lossy_text, single_spaced, words,
};
#[allow(unused_imports)]
use vstd::utf8::{decode_utf8, valid_utf8};

verus! {

/// The most characters that a comment is shown with.
pub const MAX_SHOWN: usize = 120;

/// The words of a text with one space between each and the next.
pub open spec fn spaced(text: Seq<char>) -> Seq<char> {
    joined(words(text), ' ')
}

/// A comment on one line: its words with single spaces, and where that is too
/// long, the first of it and an ellipsis.
pub open spec fn shown(text: Seq<char>) -> Seq<char> {
    if spaced(text).len() <= MAX_SHOWN {
        spaced(text)
    } else {
        spaced(text).take(MAX_SHOWN - 1).push('\u{2026}')
    }
}

/// Collapses a comment to one line, truncated for display.
pub fn oneline(text: &str) -> (r: String)
    ensures
        r@ == shown(text@),
{
    let words = words_of(text);
    let whole = join(&words, ' ');
    let v = chars_of(whole.as_str());
    if v.len() <= MAX_SHOWN {
        return whole;
    }
    let mut cut = string_of(&v, 0, MAX_SHOWN - 1);
    cut.push('\u{2026}');
    assert(v@.subrange(0, MAX_SHOWN - 1) =~= v@.take(MAX_SHOWN - 1));
    cut
}

/// One failed rule for one comment.
#[derive(Debug)]
pub struct Finding {
    pub path: Vec<u8>,
    pub line: usize,
    pub column: usize,
    pub rule: String,
    pub probability: Score,
    pub threshold: Score,
    pub excerpt: String,
}

/// What a [`Finding`] says.
pub struct FindingView {
    pub path: Seq<u8>,
    pub line: int,
    pub column: int,
    pub rule: Seq<char>,
    pub probability: Score,
    pub threshold: Score,
    pub excerpt: Seq<char>,
}

impl View for Finding {
    type V = FindingView;

    open spec fn view(&self) -> FindingView {
        FindingView {
            path: self.path@,
            line: self.line as int,
            column: self.column as int,
            rule: self.rule@,
            probability: self.probability,
            threshold: self.threshold,
            excerpt: self.excerpt@,
        }
    }
}

/// Whether the comment of a job fails the rule `id`, with the answer `p`.
pub open spec fn fails(job: JobView, id: Seq<char>, p: Score) -> bool {
    p.less(job.config.threshold_for(job.config.rules[id]))
}

/// What is found where the comment of a job fails the rule `id`.
pub open spec fn finding_of(job: JobView, id: Seq<char>, p: Score) -> FindingView {
    FindingView {
        path: job.path,
        line: job.comment.line,
        column: job.comment.column,
        rule: id,
        probability: p,
        threshold: job.config.threshold_for(job.config.rules[id]),
        excerpt: shown(job.comment.text),
    }
}

/// What is found with the answers for the rules `ids`, in their order.
pub open spec fn findings_for(job: JobView, ids: Seq<Seq<char>>, answers: Map<Seq<char>, Score>) -> Seq<FindingView>
    decreases ids.len(),
{
    if ids.len() == 0 {
        Seq::empty()
    } else {
        let before = findings_for(job, ids.drop_last(), answers);
        let id = ids.last();
        if fails(job, id, answers[id]) {
            before.push(finding_of(job, id, answers[id]))
        } else {
            before
        }
    }
}

/// Holds the answers for one comment against the thresholds of its rules.
pub fn evaluate_one(job: &Job, answers: &Table<Score>) -> (r: Vec<Finding>)
    requires
        job@.config.rules.dom().subset_of(answers@.dom()),
    ensures
        value_views(r@) == findings_for(job@, job.config.rules.ids(), answers@),
        ascending(job.config.rules.ids()),
{
    let mut r: Vec<Finding> = Vec::new();
    let ghost ids = job.config.rules.ids();
    let n: usize = job.config.rules.len();
    let mut i: usize = 0;
    assert(value_views(r@) =~= findings_for(job@, ids.take(0), answers@));
    while i < n
        invariant
            i <= n == ids.len(),
            ids == job.config.rules.ids(),
            job@.config.rules.dom().subset_of(answers@.dom()),
            value_views(r@) == findings_for(job@, ids.take(i as int), answers@),
        decreases n - i,
    {
        let id = job.config.rules.id_at(i);
        let rule = job.config.rules.value_at(i);
        let ghost before = value_views(r@);
        proof {
            assert(ids.take(i + 1).drop_last() =~= ids.take(i as int));
            assert(ids.take(i + 1).last() == id@);
            assert(answers@.dom().contains(id@));
        }
        let threshold = job.config.threshold_for(rule);
        if let Some(answer) = answers.get(id) {
            let p = *answer;
            if p.is_below(threshold) {
                let path = bytes_in(job.path.as_slice(), 0, job.path.len());
                assert(path@ =~= job.path@);
                let finding = Finding {
                    path,
                    line: job.comment.line,
                    column: job.comment.column,
                    rule: copy_of(id),
                    probability: p,
                    threshold,
                    excerpt: oneline(job.comment.text.as_str()),
                };
                assert(finding@ == finding_of(job@, id@, p));
                r.push(finding);
                assert(value_views(r@) =~= before.push(finding@));
            }
        }
        i += 1;
    }
    assert(ids.take(n as int) =~= ids);
    r
}

/// The order of the report: by path, line, column and rule.
pub open spec fn reported_before(a: FindingView, b: FindingView) -> bool {
    if !same_parts(a.path, b.path) {
        path_before(a.path, b.path)
    } else if a.line != b.line {
        a.line < b.line
    } else if a.column != b.column {
        a.column < b.column
    } else {
        text_before(a.rule, b.rule)
    }
}

impl Ranked for Finding {
    open spec fn ranks_before(a: FindingView, b: FindingView) -> bool {
        reported_before(a, b)
    }

    proof fn one_line(a: FindingView, b: FindingView, c: FindingView) {
        path_order(a.path, b.path, c.path);
        path_order(b.path, a.path, c.path);
        path_order(a.path, c.path, b.path);
        path_order(c.path, b.path, a.path);
        lemma_text_order(a.rule, b.rule, c.rule);
        lemma_text_order(a.rule, c.rule, b.rule);
        lemma_text_order(c.rule, b.rule, a.rule);
        lemma_text_order(b.rule, a.rule, c.rule);
        lemma_text_order(b.rule, c.rule, a.rule);
    }

    fn precedes(&self, other: &Self) -> (r: bool) {
        let a = self.path.as_slice();
        let b = other.path.as_slice();
        proof {
            path_order(a@, b@, a@);
            path_order(b@, a@, b@);
        }
        if path_precedes(a, b) {
            return true;
        }
        if path_precedes(b, a) {
            return false;
        }
        if self.line != other.line {
            self.line < other.line
        } else if self.column != other.column {
            self.column < other.column
        } else {
            text_precedes(self.rule.as_str(), other.rule.as_str())
        }
    }
}

/// Puts findings into the order of the report.
pub fn sort_findings(findings: Vec<Finding>) -> (r: Vec<Finding>)
    ensures
        sorted_from::<Finding>(value_views(r@), value_views(findings@)),
        r@.len() == findings@.len(),
{
    sort(findings)
}

/// `path:line:column`.
pub open spec fn place(path: Seq<char>, line: int, column: int) -> Seq<char> {
    path.push(':') + decimal(line as nat).push(':') + decimal(column as nat)
}

/// Where something is, as `path:line:column`.
pub fn place_text(path: &str, line: usize, column: usize) -> (r: String)
    ensures
        r@ == place(path@, line as int, column as int),
{
    let mut r = copy_of(path);
    r.push(':');
    push_decimal(&mut r, line);
    r.push(':');
    push_decimal(&mut r, column);
    assert(r@ =~= place(path@, line as int, column as int));
    r
}

/// The line that lists a comment.
pub open spec fn listed(path: Seq<char>, comment: CommentView) -> Seq<char> {
    place(path, comment.line, comment.column) + ": "@ + shown(comment.text)
}

/// The line that lists a comment.
pub fn listing_line(path: &str, comment: &Comment) -> (r: String)
    ensures
        r@ == listed(path@, comment@),
{
    let mut r = place_text(path, comment.line, comment.column);
    r.append(": ");
    let text = oneline(comment.text.as_str());
    r.append(text.as_str());
    r
}

/// The lines that list the comments of jobs.
pub fn list_comments(jobs: &Vec<Job>) -> (r: Vec<String>)
    ensures
        r@.len() == jobs@.len(),
        forall|i: int|
            0 <= i < r@.len() ==> (#[trigger] r@[i])@ == listed(lossy_text(jobs@[i].path@), jobs@[i].comment@),
        forall|i: int|
            0 <= i < r@.len() && valid_utf8(jobs@[i].path@) ==> (#[trigger] r@[i])@ == listed(
                decode_utf8(jobs@[i].path@),
                jobs@[i].comment@,
            ),
{
    let mut r: Vec<String> = Vec::new();
    let mut i: usize = 0;
    while i < jobs.len()
        invariant
            i <= jobs@.len(),
            r@.len() == i,
            forall|j: int|
                0 <= j < i ==> (#[trigger] r@[j])@ == listed(lossy_text(jobs@[j].path@), jobs@[j].comment@),
            forall|j: int|
                0 <= j < i && valid_utf8(jobs@[j].path@) ==> (#[trigger] r@[j])@ == listed(
                    decode_utf8(jobs@[j].path@),
                    jobs@[j].comment@,
                ),
        decreases jobs.len() - i,
    {
        let path = read_lossy(jobs[i].path.as_slice());
        r.push(listing_line(path.as_str(), &jobs[i].comment));
        i += 1;
    }
    r
}

/// The lines that report a finding, with its probability and its threshold as
/// they are written.
pub open spec fn reported(
    path: Seq<char>,
    finding: FindingView,
    probability: Seq<char>,
    threshold: Seq<char>,
) -> Seq<char> {
    place(path, finding.line, finding.column) + ": error: comment fails rule `"@ + finding.rule + "` (p="@ + probability
        + ", threshold "@ + threshold + ")\n    "@ + finding.excerpt
}

/// The lines that report a finding, with its probability and its threshold as
/// they are written.
pub fn finding_lines(path: &str, finding: &Finding, probability: &str, threshold: &str) -> (r: String)
    ensures
        r@ == reported(path@, finding@, probability@, threshold@),
{
    let mut r = place_text(path, finding.line, finding.column);
    r.append(": error: comment fails rule `");
    r.append(finding.rule.as_str());
    r.append("` (p=");
    r.append(probability);
    r.append(", threshold ");
    r.append(threshold);
    r.append(")\n    ");
    r.append(finding.excerpt.as_str());
    r
}

/// The lines that report a finding, its path shown as text.
pub fn report_finding(finding: &Finding, probability: &str, threshold: &str) -> (r: String)
    ensures
        r@ == reported(lossy_text(finding.path@), finding@, probability@, threshold@),
        valid_utf8(finding.path@) ==> r@ == reported(
            decode_utf8(finding.path@),
            finding@,
            probability@,
            threshold@,
        ),
{
    let path = read_lossy(finding.path.as_slice());
    finding_lines(path.as_str(), finding, probability, threshold)
}

/// The last line of the report: how many issues were found, where there are any.
pub fn summary_line(findings: usize) -> (r: Option<String>)
    ensures
        match r {
            Some(line) => findings > 0 && line@ == "commentlint: "@ + decimal(findings as nat) + " issue(s) found"@,
            None => findings == 0,
        },
{
    if findings == 0 {
        return None;
    }
    let mut r = copy_of("commentlint: ");
    push_decimal(&mut r, findings);
    r.append(" issue(s) found");
    Some(r)
}

proof fn lemma_shown_single_spaced(text: Seq<char>)
    ensures
        single_spaced(shown(text)),
        shown(text).len() <= MAX_SHOWN,
{
    lemma_words_are_words(text);
    lemma_joined_single_spaced(words(text));
    let whole = spaced(text);
    if whole.len() > MAX_SHOWN {
        let s = shown(text);
        let n = MAX_SHOWN - 1;
        assert(s[0] == whole[0]);
        assert(s.last() == '\u{2026}');
        assert forall|i: int| 0 <= i < s.len() && is_space(#[trigger] s[i]) implies s[i] == ' ' by {
            if i < n {
                assert(s[i] == whole[i]);
            }
        }
        assert forall|i: int, j: int| #![trigger s[i], s[j]]
            0 <= i && j == i + 1 && j < s.len() implies !(is_space(s[i]) && is_space(s[j])) by {
            if j < n {
                assert(s[i] == whole[i] && s[j] == whole[j]);
            }
        }
    }
}

/// A comment is shown on one line: no longer than the limit, with no white
/// space but single spaces between its words. To show it again changes nothing.
pub proof fn shown_comment_is_one_line(text: Seq<char>)
    ensures
        shown(text).len() <= MAX_SHOWN,
        forall|i: int| 0 <= i < shown(text).len() && is_space(#[trigger] shown(text)[i]) ==> shown(text)[i] == ' ',
        shown(shown(text)) == shown(text),
{
    lemma_shown_single_spaced(text);
    lemma_single_spaced(shown(text));
}

/// A comment that fits is shown with all its words.
pub proof fn short_comment_keeps_its_words(text: Seq<char>)
    requires
        spaced(text).len() <= MAX_SHOWN,
    ensures
        words(shown(text)) == words(text),
{
    lemma_words_are_words(text);
    lemma_words_of_joined(words(text));
}

/// A comment passes where it fails none of its rules; what is found is found
/// where the probability lies below the threshold, and nowhere else.
pub proof fn comment_passes_where_no_rule_fails(
    job: JobView,
    ids: Seq<Seq<char>>,
    answers: Map<Seq<char>, Score>,
)
    ensures
        findings_for(job, ids, answers).len() == 0 <==> forall|i: int|
            0 <= i < ids.len() ==> !fails(job, #[trigger] ids[i], answers[ids[i]]),
        forall|i: int|
            0 <= i < findings_for(job, ids, answers).len() ==> {
                let found = #[trigger] findings_for(job, ids, answers)[i];
                &&& found.probability.less(found.threshold)
                &&& ids.contains(found.rule)
                &&& found == finding_of(job, found.rule, answers[found.rule])
            },
    decreases ids.len(),
{
    if ids.len() > 0 {
        let outer = ids.drop_last();
        let n = ids.len() - 1;
        let before = findings_for(job, outer, answers);
        let all = findings_for(job, ids, answers);
        comment_passes_where_no_rule_fails(job, outer, answers);
        if all.len() == 0 {
            assert forall|i: int| 0 <= i < ids.len() implies !fails(job, #[trigger] ids[i], answers[ids[i]]) by {
                if i < n {
                    assert(outer[i] == ids[i]);
                }
            }
        } else if before.len() > 0 {
            let i = choose|i: int| 0 <= i < outer.len() && fails(job, #[trigger] outer[i], answers[outer[i]]);
            assert(ids[i] == outer[i]);
        } else {
            assert(fails(job, ids[n], answers[ids[n]]));
        }
        assert forall|i: int| 0 <= i < all.len() implies ({
            let found = #[trigger] all[i];
            &&& found.probability.less(found.threshold)
            &&& ids.contains(found.rule)
            &&& found == finding_of(job, found.rule, answers[found.rule])
        }) by {
            if i < before.len() {
                assert(all[i] == before[i]);
                let k = outer.index_of(all[i].rule);
                assert(ids[k] == all[i].rule);
            } else {
                assert(ids[n] == all[i].rule);
            }
        }
    }
}

/// Each rule is decided by its answer and its threshold alone: the comment
/// fails it exactly when the answer is less than the threshold of the rule, or
/// than that of the file where the rule has none. A failed rule adds one
/// finding behind those of the rules before it, and a passed one adds none.
pub proof fn answer_below_the_threshold_is_a_finding(
    job: JobView,
    ids: Seq<Seq<char>>,
    id: Seq<char>,
    answers: Map<Seq<char>, Score>,
)
    ensures
        findings_for(job, Seq::empty(), answers) == Seq::<FindingView>::empty(),
        ({
            let limit = if job.config.rules[id].threshold is Some {
                job.config.rules[id].threshold->0
            } else {
                job.config.threshold
            };
            let before = findings_for(job, ids, answers);
            let after = findings_for(job, ids.push(id), answers);
            if answers[id].less(limit) {
                &&& after.len() == before.len() + 1
                &&& after.drop_last() == before
                &&& after.last().path == job.path
                &&& after.last().line == job.comment.line
                &&& after.last().column == job.comment.column
                &&& after.last().rule == id
                &&& after.last().probability == answers[id]
                &&& after.last().threshold == limit
                &&& after.last().excerpt == shown(job.comment.text)
            } else {
                after == before
            }
        }),
{
    assert(ids.push(id).drop_last() =~= ids);
    let before = findings_for(job, ids, answers);
    assert(before.push(finding_of(job, id, answers[id])).drop_last() =~= before);
}

/// Of the rules asked about, exactly those whose answer is less than their
/// threshold are found failed, whatever the comment and wherever it stands.
pub proof fn failed_rules_are_those_below_their_threshold(
    job: JobView,
    ids: Seq<Seq<char>>,
    answers: Map<Seq<char>, Score>,
    id: Seq<char>,
)
    ensures
        (exists|k: int|
            0 <= k < findings_for(job, ids, answers).len() && (#[trigger] findings_for(job, ids, answers)[k]).rule == id)
            <==> ids.contains(id) && answers[id].less(
            if job.config.rules[id].threshold is Some {
                job.config.rules[id].threshold->0
            } else {
                job.config.threshold
            },
        ),
    decreases ids.len(),
{
    let found = findings_for(job, ids, answers);
    let limit = if job.config.rules[id].threshold is Some {
        job.config.rules[id].threshold->0
    } else {
        job.config.threshold
    };
    if ids.len() > 0 {
        let outer = ids.drop_last();
        let last = ids.last();
        let before = findings_for(job, outer, answers);
        assert(ids =~= outer.push(last));
        failed_rules_are_those_below_their_threshold(job, outer, answers, id);
        answer_below_the_threshold_is_a_finding(job, outer, last, answers);
        assert(ids.contains(id) <==> outer.contains(id) || last == id) by {
            if outer.contains(id) {
                let k = outer.index_of(id);
                assert(ids[k] == id);
            }
            if last == id {
                assert(ids[ids.len() - 1] == id);
            }
            if ids.contains(id) {
                let k = ids.index_of(id);
                if k < outer.len() {
                    assert(outer[k] == id);
                }
            }
        }
        if exists|k: int| 0 <= k < found.len() && (#[trigger] found[k]).rule == id {
            let k = choose|k: int| 0 <= k < found.len() && (#[trigger] found[k]).rule == id;
            if k < before.len() {
                assert(before[k] == found[k]);
            } else {
                assert(found[k] == found.last());
            }
        }
        if exists|k: int| 0 <= k < before.len() && (#[trigger] before[k]).rule == id {
            let k = choose|k: int| 0 <= k < before.len() && (#[trigger] before[k]).rule == id;
            assert(found[k] == before[k]);
        }
        if last == id && answers[id].less(limit) {
            assert(found[found.len() - 1].rule == id);
        }
    } else {
        assert(found.len() == 0);
    }
}

/// A comment is shown by its words with single spaces between them, all of them
/// where they fit, and otherwise as many characters as leave room for the
/// ellipsis.
pub proof fn comment_is_shown_from_its_first_word_on(text: Seq<char>)
    ensures
        joined(words(text), ' ').len() <= 120 ==> shown(text) == joined(words(text), ' '),
        joined(words(text), ' ').len() > 120 ==> {
            &&& shown(text).len() == 120
            &&& shown(text).drop_last().is_prefix_of(joined(words(text), ' '))
            &&& shown(text).last() == '\u{2026}'
        },
{
    let whole = joined(words(text), ' ');
    if whole.len() > 120 {
        assert(shown(text).drop_last() =~= whole.take(119));
    }
}

/// The report goes by path first, then by line, then by column, then by rule.
pub proof fn report_goes_by_path_line_column_and_rule(a: FindingView, b: FindingView)
    ensures
        !same_parts(a.path, b.path) ==> (Finding::ranks_before(a, b) <==> path_before(a.path, b.path)),
        same_parts(a.path, b.path) && a.line < b.line ==> Finding::ranks_before(a, b) && !Finding::ranks_before(b, a),
        same_parts(a.path, b.path) && a.line == b.line && a.column < b.column ==> Finding::ranks_before(a, b)
            && !Finding::ranks_before(b, a),
        same_parts(a.path, b.path) && a.line == b.line && a.column == b.column ==> (Finding::ranks_before(a, b)
            <==> text_before(a.rule, b.rule)),
{
}

/// A comment is listed by its path, line and column, with a colon behind each,
/// a space, and its words; a finding is reported at the same kind of place, and
/// names its rule, both numbers and the comment.
pub proof fn lines_name_place_and_words(
    path: Seq<char>,
    comment: CommentView,
    finding: FindingView,
    probability: Seq<char>,
    threshold: Seq<char>,
)
    ensures
        listed(path, comment) == path + ":"@ + decimal(comment.line as nat) + ":"@ + decimal(comment.column as nat)
            + ": "@ + shown(comment.text),
        reported(path, finding, probability, threshold) == path + ":"@ + decimal(finding.line as nat) + ":"@ + decimal(
            finding.column as nat,
        ) + ": error: comment fails rule `"@ + finding.rule + "` (p="@ + probability + ", threshold "@ + threshold
            + ")\n    "@ + finding.excerpt,
{
    reveal_strlit(":");
    assert(":"@ =~= seq![':']);
    let line = decimal(comment.line as nat);
    let column = decimal(comment.column as nat);
    assert(place(path, comment.line, comment.column) =~= path + ":"@ + line + ":"@ + column);
    let line = decimal(finding.line as nat);
    let column = decimal(finding.column as nat);
    assert(place(path, finding.line, finding.column) =~= path + ":"@ + line + ":"@ + column);
}

/// A finding says what its fields hold.
pub proof fn finding_says_its_fields(finding: Finding)
    ensures
        finding@.path == finding.path@,
        finding@.line == finding.line,
        finding@.column == finding.column,
        finding@.rule == finding.rule@,
        finding@.probability == finding.probability,
        finding@.threshold == finding.threshold,
        finding@.excerpt == finding.excerpt@,
{
}

} // verus!
