//! The evaluation queue: which comments of which files are evaluated, with
//! which rules, and what a run comes to.

use vstd::prelude::*;

use crate::config::Resolved;
use crate::extract::Comment;
use crate::paths::bytes_in;
use crate::text::{chars_of, string_of, text_range};

#[allow(unused_imports)]
use crate::config::{ResolvedView, RuleView};
#[allow(unused_imports)]
use crate::extract::{comment_views, CommentView};
#[allow(unused_imports)]
use crate::paths::name_views;
#[allow(unused_imports)]
use crate::text::{all_space, trim, trimmed_space_is_empty};

verus! {

/// The name that stands in the place of a path for text from standard input.
pub const STDIN_NAME: &'static str = "<stdin>";

/// One comment queued for evaluation together with its resolved rules.
#[derive(Debug)]
pub struct Job {
    pub path: Vec<u8>,
    pub comment: Comment,
    pub config: Resolved,
}

/// What a [`Job`] says.
pub struct JobView {
    pub path: Seq<u8>,
    pub comment: CommentView,
    pub config: ResolvedView,
}

impl View for Job {
    type V = JobView;

    open spec fn view(&self) -> JobView {
        JobView { path: self.path@, comment: self.comment@, config: self.config@ }
    }
}

/// Each job by what it says.
pub open spec fn job_views(jobs: Seq<Job>) -> Seq<JobView> {
    Seq::new(jobs.len(), |i: int| jobs[i]@)
}

/// Why a file is skipped.
#[derive(Clone, Copy, Debug, PartialEq, Eq, Structural)]
pub enum Skip {
    /// Its type is not supported.
    Unsupported,
    /// It is not there; pre-commit can pass files that were deleted in the same
    /// commit.
    Missing,
    /// All rules are disabled for it.
    RulesOff,
}

/// The words for why a file is skipped.
pub open spec fn skip_words(skip: Skip) -> Seq<char> {
    match skip {
        Skip::Unsupported => "unsupported file type"@,
        Skip::Missing => "missing"@,
        Skip::RulesOff => "all rules disabled"@,
    }
}

/// The words for why a file is skipped.
pub fn skip_reason(skip: Skip) -> (r: &'static str)
    ensures
        r@ == skip_words(skip),
{
    match skip {
        Skip::Unsupported => "unsupported file type",
        Skip::Missing => "missing",
        Skip::RulesOff => "all rules disabled",
    }
}

/// The jobs that the comments of a file make, in order: those comments that are
/// worth evaluating.
pub open spec fn jobs_for(path: Seq<u8>, comments: Seq<CommentView>, config: ResolvedView) -> Seq<JobView>
    decreases comments.len(),
{
    if comments.len() == 0 {
        Seq::empty()
    } else {
        let before = jobs_for(path, comments.drop_last(), config);
        if config.evaluates(comments.last().text) {
            before.push(JobView { path, comment: comments.last(), config })
        } else {
            before
        }
    }
}

/// Queues the comments of a file behind those in `jobs`, and returns how many
/// were kept. A file for which no rule is enabled is skipped.
fn queue_comments(path: &[u8], comments: &Vec<Comment>, config: &Resolved, jobs: &mut Vec<Job>) -> (r: Result<
    usize,
    Skip,
>)
    ensures
        match r {
            Ok(kept) => {
                &&& config@.rules != Map::<Seq<char>, RuleView>::empty()
                &&& job_views(final(jobs)@) == job_views(old(jobs)@) + jobs_for(path@, comment_views(comments@), config@)
                &&& kept == jobs_for(path@, comment_views(comments@), config@).len()
            },
            Err(skip) => {
                &&& config@.rules == Map::<Seq<char>, RuleView>::empty()
                &&& skip == Skip::RulesOff
                &&& final(jobs)@ == old(jobs)@
            },
        },
{
    if config.rules.is_empty() {
        return Err(Skip::RulesOff);
    }
    let ghost all = comment_views(comments@);
    let mut kept: usize = 0;
    let mut i: usize = 0;
    assert(job_views(jobs@) =~= job_views(old(jobs)@) + jobs_for(path@, all.take(0), config@));
    while i < comments.len()
        invariant
            all == comment_views(comments@),
            i <= comments@.len(),
            kept <= i,
            kept == jobs_for(path@, all.take(i as int), config@).len(),
            job_views(jobs@) == job_views(old(jobs)@) + jobs_for(path@, all.take(i as int), config@),
        decreases comments.len() - i,
    {
        let comment = &comments[i];
        let ghost before = job_views(jobs@);
        proof {
            assert(all.take(i + 1).drop_last() =~= all.take(i as int));
            assert(all.take(i + 1).last() == comment@);
        }
        if config.should_evaluate(comment.text.as_str()) {
            let name = bytes_in(path, 0, path.len());
            assert(name@ =~= path@);
            let job = Job { path: name, comment: comment.clone(), config: config.clone() };
            jobs.push(job);
            proof {
                assert(job_views(jobs@) =~= before.push(job@));
                assert(before.push(job@) =~= job_views(old(jobs)@) + jobs_for(path@, all.take(i + 1), config@));
            }
            kept += 1;
        }
        i += 1;
    }
    assert(all.take(comments@.len() as int) =~= all);
    Ok(kept)
}

/// What becomes of a file in a collection of jobs.
pub enum Fate {
    /// Its type is not supported.
    Unsupported,
    /// It is not there.
    Missing,
    /// It is there, but its comments cannot be had.
    Failed,
    /// It has these comments and this configuration.
    Read(Seq<CommentView>, ResolvedView),
}

/// The jobs that a file makes; none where the collection fails on it.
pub open spec fn file_jobs(path: Seq<u8>, fate: Fate) -> Option<Seq<JobView>> {
    match fate {
        Fate::Unsupported => Some(Seq::empty()),
        Fate::Missing => Some(Seq::empty()),
        Fate::Failed => None,
        Fate::Read(comments, config) => Some(
            if config.rules == Map::<Seq<char>, RuleView>::empty() {
                Seq::empty()
            } else {
                jobs_for(path, comments, config)
            },
        ),
    }
}

/// The queue that the files make, file by file; none where the collection fails
/// on one of them.
pub open spec fn collected(files: Seq<Seq<u8>>, fates: Seq<Fate>) -> Option<Seq<JobView>>
    decreases files.len(),
{
    if files.len() == 0 {
        Some(Seq::empty())
    } else {
        match (collected(files.drop_last(), fates.drop_last()), file_jobs(files.last(), fates.last())) {
            (Some(before), Some(more)) => Some(before + more),
            _ => None,
        }
    }
}

/// What the collection of jobs needs next.
#[derive(Debug)]
pub enum Need {
    /// The comments of this file.
    Comments(Vec<u8>),
    /// The configuration for this file.
    Config(Vec<u8>),
    /// Nothing: every file has been dealt with.
    Nothing,
}

/// What came of a file.
#[derive(Clone, Copy, Debug, PartialEq, Eq, Structural)]
pub enum Progress {
    /// It is left out.
    Skipped(Skip),
    /// Its comments are in hand; its configuration is needed.
    Extracted,
    /// So many of its comments are queued.
    Queued(usize),
    /// It is there, but its comments cannot be had: the run is over.
    Failed,
}

/// Builds the evaluation queue, file by file. Its comments are asked for first,
/// then, where it has any to offer, its configuration.
#[derive(Debug)]
pub struct Collector {
    files: Vec<Vec<u8>>,
    at: usize,
    comments: Option<Vec<Comment>>,
    jobs: Vec<Job>,
}

/// How far the collection of jobs has come.
pub struct CollectorView {
    /// The files to deal with.
    pub files: Seq<Seq<u8>>,
    /// How many of them have been dealt with.
    pub at: int,
    /// The comments of the next one, once they are in hand.
    pub comments: Option<Seq<CommentView>>,
    /// The queue.
    pub jobs: Seq<JobView>,
}

impl CollectorView {
    /// Whether the comments of the next file are asked for.
    pub open spec fn needs_comments(self) -> bool {
        0 <= self.at < self.files.len() && self.comments is None
    }

    /// Whether the configuration for the next file is asked for.
    pub open spec fn needs_config(self) -> bool {
        0 <= self.at < self.files.len() && self.comments is Some
    }

    /// Whether this is where the collection stands when the files dealt with had
    /// these fates.
    pub open spec fn reached(self, fates: Seq<Fate>) -> bool {
        &&& 0 <= self.at <= self.files.len()
        &&& fates.len() == self.at
        &&& collected(self.files.take(self.at), fates) == Some(self.jobs)
    }

    /// The next file is dealt with, and has put `more` into the queue.
    pub open spec fn past_file(self, more: Seq<JobView>) -> CollectorView {
        CollectorView { at: self.at + 1, comments: None, jobs: self.jobs + more, ..self }
    }
}

/// One more file takes the collection from where it stands to the next file.
proof fn lemma_reached(before: CollectorView, fates: Seq<Fate>, fate: Fate, more: Seq<JobView>)
    requires
        before.reached(fates),
        before.at < before.files.len(),
        file_jobs(before.files[before.at], fate) == Some(more),
    ensures
        before.past_file(more).reached(fates.push(fate)),
{
    let next = before.files.take(before.at + 1);
    assert(next.drop_last() =~= before.files.take(before.at));
    assert(next.last() == before.files[before.at]);
    assert(fates.push(fate).drop_last() =~= fates);
}

impl View for Collector {
    type V = CollectorView;

    closed spec fn view(&self) -> CollectorView {
        CollectorView {
            files: name_views(self.files@),
            at: self.at as int,
            comments: match self.comments {
                Some(comments) => Some(comment_views(comments@)),
                None => None,
            },
            jobs: job_views(self.jobs@),
        }
    }
}

impl Collector {
    /// Comments are in hand for a file alone.
    pub closed spec fn wf(&self) -> bool {
        &&& self.at <= self.files@.len()
        &&& self.comments is Some ==> self.at < self.files@.len()
    }

    /// Begins to collect the jobs of `files`.
    pub fn new(files: Vec<Vec<u8>>) -> (r: Self)
        ensures
            r.wf(),
            r@ == (CollectorView { files: name_views(files@), at: 0, comments: None, jobs: Seq::empty() }),
            r@.reached(Seq::empty()),
    {
        let r = Collector { files, at: 0, comments: None, jobs: Vec::new() };
        assert(r@.jobs =~= Seq::<JobView>::empty());
        assert(r@.files.take(0) =~= Seq::<Seq<u8>>::empty());
        r
    }

    /// What is needed next.
    pub fn need(&self) -> (r: Need)
        requires
            self.wf(),
        ensures
            match r {
                Need::Comments(path) => self@.needs_comments() && path@ == self@.files[self@.at],
                Need::Config(path) => self@.needs_config() && path@ == self@.files[self@.at],
                Need::Nothing => self@.at == self@.files.len() && self@.comments is None,
            },
    {
        if self.at == self.files.len() {
            return Need::Nothing;
        }
        let path = bytes_in(self.files[self.at].as_slice(), 0, self.files[self.at].len());
        assert(path@ =~= self@.files[self@.at]);
        match &self.comments {
            Some(_) => Need::Config(path),
            None => Need::Comments(path),
        }
    }

    /// Takes what came of extracting the comments of the next file: the
    /// comments, nothing where the file type is not supported, or a failure, with
    /// whether the file exists. A file that does not exist is left out.
    pub fn extracted(&mut self, outcome: Result<Option<Vec<Comment>>, bool>) -> (r: Progress)
        requires
            old(self).wf(),
            old(self)@.needs_comments(),
        ensures
            final(self).wf(),
            match outcome {
                Ok(Some(comments)) => {
                    &&& r == Progress::Extracted
                    &&& final(self)@ == (CollectorView {
                        comments: Some(comment_views(comments@)),
                        ..old(self)@
                    })
                },
                Ok(None) => {
                    &&& r == Progress::Skipped(Skip::Unsupported)
                    &&& final(self)@ == old(self)@.past_file(Seq::empty())
                    &&& forall|fates: Seq<Fate>| #[trigger]
                        old(self)@.reached(fates) ==> final(self)@.reached(fates.push(Fate::Unsupported))
                },
                Err(exists) => if exists {
                    &&& r == Progress::Failed
                    &&& final(self)@ == old(self)@
                } else {
                    &&& r == Progress::Skipped(Skip::Missing)
                    &&& final(self)@ == old(self)@.past_file(Seq::empty())
                    &&& forall|fates: Seq<Fate>| #[trigger]
                        old(self)@.reached(fates) ==> final(self)@.reached(fates.push(Fate::Missing))
                },
            },
    {
        let skip = match outcome {
            Ok(Some(comments)) => {
                self.comments = Some(comments);
                return Progress::Extracted;
            },
            Ok(None) => Skip::Unsupported,
            Err(exists) => {
                if exists {
                    return Progress::Failed;
                }
                Skip::Missing
            },
        };
        assert(self.at < self.files.len());
        self.at = self.at + 1;
        assert(self@.jobs =~= old(self)@.jobs + Seq::<JobView>::empty());
        proof {
            let fate = if skip == Skip::Missing {
                Fate::Missing
            } else {
                Fate::Unsupported
            };
            assert forall|fates: Seq<Fate>| #[trigger] old(self)@.reached(fates) implies self@.reached(
                fates.push(fate),
            ) by {
                lemma_reached(old(self)@, fates, fate, Seq::empty());
            }
        }
        Progress::Skipped(skip)
    }

    /// Takes the configuration for the next file, and queues those of its
    /// comments that are worth evaluating. A file for which no rule is enabled is
    /// left out.
    pub fn configured(&mut self, config: &Resolved) -> (r: Progress)
        requires
            old(self).wf(),
            old(self)@.needs_config(),
        ensures
            final(self).wf(),
            ({
                let before = old(self)@;
                let more = jobs_for(before.files[before.at], before.comments->0, config@);
                if config@.rules == Map::<Seq<char>, RuleView>::empty() {
                    &&& r == Progress::Skipped(Skip::RulesOff)
                    &&& final(self)@ == before.past_file(Seq::empty())
                } else {
                    &&& r matches Progress::Queued(kept) && kept == more.len()
                    &&& final(self)@ == before.past_file(more)
                }
            }),
            forall|fates: Seq<Fate>| #[trigger]
                old(self)@.reached(fates) ==> final(self)@.reached(
                    fates.push(Fate::Read(old(self)@.comments->0, config@)),
                ),
    {
        let comments = match self.comments.take() {
            Some(comments) => comments,
            None => Vec::new(),
        };
        let queued = queue_comments(self.files[self.at].as_slice(), &comments, config, &mut self.jobs);
        assert(self.at < self.files.len());
        self.at = self.at + 1;
        proof {
            let before = old(self)@;
            let fate = Fate::Read(before.comments->0, config@);
            let more = file_jobs(before.files[before.at], fate)->0;
            assert(self@.jobs =~= before.jobs + more);
            assert forall|fates: Seq<Fate>| #[trigger] before.reached(fates) implies self@.reached(
                fates.push(fate),
            ) by {
                lemma_reached(before, fates, fate, more);
            }
        }
        match queued {
            Ok(kept) => Progress::Queued(kept),
            Err(skip) => Progress::Skipped(skip),
        }
    }

    /// The queue, once every file has been dealt with. While files are left, as
    /// after a failure, there is none.
    pub fn into_jobs(self) -> (r: Option<Vec<Job>>)
        requires
            self.wf(),
        ensures
            match r {
                Some(jobs) => self@.at == self@.files.len() && job_views(jobs@) == self@.jobs,
                None => self@.at < self@.files.len(),
            },
            r matches Some(jobs) ==> forall|fates: Seq<Fate>| #[trigger]
                self@.reached(fates) ==> collected(self@.files, fates) == Some(job_views(jobs@)),
    {
        if self.at < self.files.len() {
            return None;
        }
        assert(self@.files.take(self@.at) =~= self@.files);
        Some(self.jobs)
    }
}

/// The text to evaluate in what was read from standard input, without white
/// space at its ends; there is none in white space.
pub fn stdin_text(input: &str) -> (r: Option<String>)
    ensures
        match r {
            Some(text) => trim(input@).len() > 0 && text@ == trim(input@),
            None => trim(input@).len() == 0,
        },
        r is None <==> all_space(input@),
{
    proof {
        trimmed_space_is_empty(input@);
    }
    let v = chars_of(input);
    let (a, b): (usize, usize) = text_range(&v, 0, v.len());
    assert(v@.subrange(0, v@.len() as int) =~= input@);
    assert(trim(input@).len() == b - a);
    if a == b {
        None
    } else {
        Some(string_of(&v, a, b))
    }
}

/// The job that text from standard input makes.
pub fn stdin_job(text: String, config: Resolved) -> (r: Job)
    ensures
        r@ == (JobView {
            path: vstd::utf8::encode_utf8(STDIN_NAME@),
            comment: CommentView { line: 1, column: 1, text: text@ },
            config: config@,
        }),
{
    let bytes = STDIN_NAME.as_bytes();
    let path = bytes_in(bytes, 0, bytes.len());
    assert(path@ =~= bytes@);
    Job { path, comment: Comment { line: 1, column: 1, text }, config }
}

/// What to do with the queue.
#[derive(Clone, Copy, Debug, PartialEq, Eq, Structural)]
pub enum RunStep {
    /// Print the comments, and call nothing.
    List,
    /// There is nothing to evaluate.
    Nothing,
    /// Evaluate the comments.
    Evaluate,
}

/// Decides what to do with a queue of `jobs` comments.
pub fn run_step(list_comments: bool, jobs: usize) -> (r: RunStep)
    ensures
        r == if list_comments {
            RunStep::List
        } else if jobs == 0 {
            RunStep::Nothing
        } else {
            RunStep::Evaluate
        },
        r == RunStep::List <==> list_comments,
        r == RunStep::Evaluate <==> !list_comments && jobs > 0,
{
    if list_comments {
        RunStep::List
    } else if jobs == 0 {
        RunStep::Nothing
    } else {
        RunStep::Evaluate
    }
}

/// How a run ended.
#[derive(Clone, Copy, Debug, PartialEq, Eq, Structural)]
pub enum Outcome {
    /// It went through, with this many findings.
    Finished(usize),
    /// Standard output was closed, as in `commentlint | head`, which is not an
    /// error worth reporting.
    PipeClosed,
    /// A configuration, API, or usage error.
    Error,
}

/// The exit code: `0` when every comment passes, `1` when at least one comment
/// fails a rule, `2` for errors.
pub fn exit_code(outcome: Outcome) -> (r: u8)
    ensures
        r == match outcome {
            Outcome::Finished(findings) => if findings == 0 {
                0u8
            } else {
                1u8
            },
            Outcome::PipeClosed => 0u8,
            Outcome::Error => 2u8,
        },
        r == 0 <==> outcome == Outcome::Finished(0) || outcome == Outcome::PipeClosed,
        r == 2 <==> outcome == Outcome::Error,
        r <= 2,
{
    match outcome {
        Outcome::Finished(findings) => if findings == 0 {
            0
        } else {
            1
        },
        Outcome::PipeClosed => 0,
        Outcome::Error => 2,
    }
}

/// The queue holds those comments of a file that are worth evaluating, and no
/// others, each with the path of the file and its configuration.
pub proof fn queue_holds_what_is_worth_evaluating(path: Seq<u8>, comments: Seq<CommentView>, config: ResolvedView)
    ensures
        forall|i: int|
            0 <= i < jobs_for(path, comments, config).len() ==> {
                let job = #[trigger] jobs_for(path, comments, config)[i];
                &&& job.path == path
                &&& job.config == config
                &&& config.evaluates(job.comment.text)
                &&& comments.contains(job.comment)
            },
        forall|k: int|
            0 <= k < comments.len() && config.evaluates((#[trigger] comments[k]).text) ==> jobs_for(
                path,
                comments,
                config,
            ).contains(JobView { path, comment: comments[k], config }),
    decreases comments.len(),
{
    if comments.len() > 0 {
        let outer = comments.drop_last();
        let n = comments.len() - 1;
        let before = jobs_for(path, outer, config);
        let all = jobs_for(path, comments, config);
        queue_holds_what_is_worth_evaluating(path, outer, config);
        assert forall|i: int| 0 <= i < all.len() implies ({
            let job = #[trigger] all[i];
            &&& job.path == path
            &&& job.config == config
            &&& config.evaluates(job.comment.text)
            &&& comments.contains(job.comment)
        }) by {
            if i < before.len() {
                assert(all[i] == before[i]);
                let k = outer.index_of(all[i].comment);
                assert(comments[k] == all[i].comment);
            } else {
                assert(comments[n] == all[i].comment);
            }
        }
        assert forall|k: int| 0 <= k < comments.len() && config.evaluates((#[trigger] comments[k]).text) implies all.contains(
            JobView { path, comment: comments[k], config },
        ) by {
            let job = JobView { path, comment: comments[k], config };
            if k < n {
                assert(outer[k] == comments[k]);
                assert(before.contains(job));
                let i = before.index_of(job);
                assert(all[i] == job);
            } else {
                assert(all[all.len() - 1] == job);
            }
        }
    }
}

/// A missing file changes nothing: the outcome is that of the other files.
pub proof fn missing_file_changes_nothing(files: Seq<Seq<u8>>, fates: Seq<Fate>, i: int)
    requires
        files.len() == fates.len(),
        0 <= i < files.len(),
        fates[i] is Missing,
    ensures
        collected(files.remove(i), fates.remove(i)) == collected(files, fates),
    decreases files.len(),
{
    let n = files.len() - 1;
    if i == n {
        assert(files.remove(i) =~= files.drop_last());
        assert(fates.remove(i) =~= fates.drop_last());
        if let Some(before) = collected(files.drop_last(), fates.drop_last()) {
            assert(before + Seq::<JobView>::empty() =~= before);
        }
    } else {
        assert(files.remove(i).drop_last() =~= files.drop_last().remove(i));
        assert(fates.remove(i).drop_last() =~= fates.drop_last().remove(i));
        assert(files.remove(i).last() == files.last());
        assert(fates.remove(i).last() == fates.last());
        missing_file_changes_nothing(files.drop_last(), fates.drop_last(), i);
    }
}

/// A file that is there and fails leaves no queue, not even a part of one; where
/// none fails there is one.
pub proof fn failed_file_leaves_no_queue(files: Seq<Seq<u8>>, fates: Seq<Fate>)
    requires
        files.len() == fates.len(),
    ensures
        collected(files, fates) is None <==> exists|i: int| 0 <= i < fates.len() && #[trigger] fates[i] is Failed,
    decreases files.len(),
{
    if files.len() > 0 {
        let n = files.len() - 1;
        let outer = fates.drop_last();
        failed_file_leaves_no_queue(files.drop_last(), outer);
        if collected(files.drop_last(), outer) is None {
            let i = choose|i: int| 0 <= i < outer.len() && #[trigger] outer[i] is Failed;
            assert(fates[i] is Failed);
        } else if fates.last() is Failed {
            assert(fates[n] is Failed);
        } else {
            assert forall|i: int| 0 <= i < fates.len() implies !(#[trigger] fates[i] is Failed) by {
                if i < n {
                    assert(outer[i] == fates[i]);
                }
            }
        }
    }
}

/// A comment that is worth evaluating is queued behind those before it, as it
/// is, with the path of its file and its configuration; another one is not.
pub proof fn comments_are_queued_in_order(
    path: Seq<u8>,
    comments: Seq<CommentView>,
    comment: CommentView,
    config: ResolvedView,
)
    ensures
        jobs_for(path, Seq::empty(), config) == Seq::<JobView>::empty(),
        config.evaluates(comment.text) ==> jobs_for(path, comments.push(comment), config) == jobs_for(
            path,
            comments,
            config,
        ).push(JobView { path, comment, config }),
        !config.evaluates(comment.text) ==> jobs_for(path, comments.push(comment), config) == jobs_for(
            path,
            comments,
            config,
        ),
{
    assert(comments.push(comment).drop_last() =~= comments);
}

/// A file adds the jobs of its comments behind those of the files before it,
/// and none where no rule is on for it, its type is not supported or it is not
/// there.
pub proof fn files_are_queued_in_order(
    files: Seq<Seq<u8>>,
    fates: Seq<Fate>,
    path: Seq<u8>,
    comments: Seq<CommentView>,
    config: ResolvedView,
)
    requires
        files.len() == fates.len(),
        collected(files, fates) is Some,
    ensures
        collected(Seq::empty(), Seq::empty()) == Some(Seq::<JobView>::empty()),
        collected(files.push(path), fates.push(Fate::Unsupported)) == collected(files, fates),
        collected(files.push(path), fates.push(Fate::Missing)) == collected(files, fates),
        config.rules.dom() =~= Set::<Seq<char>>::empty() ==> collected(
            files.push(path),
            fates.push(Fate::Read(comments, config)),
        ) == collected(files, fates),
        (exists|id: Seq<char>| #[trigger] config.rules.dom().contains(id)) ==> collected(
            files.push(path),
            fates.push(Fate::Read(comments, config)),
        ) == Some(collected(files, fates)->0 + jobs_for(path, comments, config)),
{
    let before = collected(files, fates)->0;
    assert(files.push(path).drop_last() =~= files);
    assert(fates.push(Fate::Unsupported).drop_last() =~= fates);
    assert(fates.push(Fate::Missing).drop_last() =~= fates);
    assert(fates.push(Fate::Read(comments, config)).drop_last() =~= fates);
    assert(before + Seq::<JobView>::empty() =~= before);
    if config.rules.dom() =~= Set::<Seq<char>>::empty() {
        assert(config.rules =~= Map::<Seq<char>, RuleView>::empty());
    }
}

/// Jobs are seen by what they hold.
pub proof fn jobs_say_their_fields(jobs: Seq<Job>)
    ensures
        job_views(jobs).len() == jobs.len(),
        forall|i: int|
            #![trigger job_views(jobs)[i]]
            0 <= i < jobs.len() ==> {
                &&& job_views(jobs)[i].path == jobs[i].path@
                &&& job_views(jobs)[i].comment == jobs[i].comment@
                &&& job_views(jobs)[i].config == jobs[i].config@
            },
{
}

/// A file that is dealt with is counted once, and its jobs come last.
pub proof fn one_file_is_dealt_with(collector: CollectorView, more: Seq<JobView>)
    ensures
        collector.past_file(more).files == collector.files,
        collector.past_file(more).at == collector.at + 1,
        collector.past_file(more).comments is None,
        collector.past_file(more).jobs == collector.jobs + more,
{
}

/// Each reason to skip a file has its own words.
pub proof fn reasons_have_their_own_words(a: Skip, b: Skip)
    ensures
        skip_words(a) == skip_words(b) <==> a == b,
        skip_words(Skip::Unsupported) == "unsupported file type"@,
        skip_words(Skip::Missing) == "missing"@,
        skip_words(Skip::RulesOff) == "all rules disabled"@,
{
    reveal_strlit("unsupported file type");
    reveal_strlit("missing");
    reveal_strlit("all rules disabled");
    assert("unsupported file type"@.len() != "missing"@.len());
    assert("unsupported file type"@.len() != "all rules disabled"@.len());
    assert("missing"@.len() != "all rules disabled"@.len());
}

} // verus!
