//! The TypeSafe.ai System One endpoint: the key, what is asked, when a request
//! is sent again, and what the answers say.
//!
//! See <https://docs.typesafe.ai/api> for the request and response contract.

use vstd::prelude::*;

use crate::config::{Criteria, Rule};
use crate::number::parse_number;
use crate::paths::{bytes_in, join_path};
use crate::score::Score;
use crate::table::Table;
use crate::text::{chars_of, copy_of, text_range, trim_text};

#[allow(unused_imports)]
use crate::config::{CriteriaView, RuleView};
#[allow(unused_imports)]
use crate::paths::path_joined;
#[allow(unused_imports)]
use crate::number::parsed_number;
#[allow(unused_imports)]
use crate::table::{ascending, lemma_take_contains};
#[allow(unused_imports)]
use crate::text::{all_space, trim, trimmed_space_is_empty};
#[allow(unused_imports)]
use vstd::utf8::encode_utf8;

verus! {

/// Where requests are sent. Override with `COMMENTLINT_API_URL` for testing.
pub const DEFAULT_ENDPOINT: &'static str = "https://api.typesafe.ai/v1/systemone";

/// How often a request is sent before it is given up.
pub const MAX_ATTEMPTS: u32 = 5;

/// The wait before a request is sent for the second time, in milliseconds.
pub const FIRST_DELAY: u64 = 500;

/// The directory that the key file's directory lies in, per the XDG base
/// directory convention.
pub open spec fn config_base(xdg: Option<Seq<u8>>, home: Option<Seq<u8>>) -> Option<Seq<u8>> {
    match (xdg, home) {
        (Some(dir), _) if dir.len() > 0 => Some(dir),
        (_, Some(dir)) => Some(path_joined(dir, encode_utf8(".config"@))),
        _ => None,
    }
}

/// The path of the key file.
pub open spec fn key_file(xdg: Option<Seq<u8>>, home: Option<Seq<u8>>) -> Option<Seq<u8>> {
    match config_base(xdg, home) {
        Some(base) => Some(
            path_joined(path_joined(base, encode_utf8("commentlint"@)), encode_utf8("key.txt"@)),
        ),
        None => None,
    }
}

/// The bytes of the value of an environment variable.
pub open spec fn var_view(value: Option<&[u8]>) -> Option<Seq<u8>> {
    match value {
        Some(bytes) => Some(bytes@),
        None => None,
    }
}

/// Locates the API key file per the XDG base directory convention, from the
/// values of `XDG_CONFIG_HOME` and `HOME`; there is none where neither is set.
pub fn key_path(xdg: Option<&[u8]>, home: Option<&[u8]>) -> (r: Option<Vec<u8>>)
    ensures
        match r {
            Some(path) => key_file(var_view(xdg), var_view(home)) == Some(path@),
            None => key_file(var_view(xdg), var_view(home)) is None,
        },
{
    let mut base: Option<Vec<u8>> = None;
    if let Some(dir) = xdg {
        if dir.len() > 0 {
            let copy = bytes_in(dir, 0, dir.len());
            assert(copy@ =~= dir@);
            base = Some(copy);
        }
    }
    if base.is_none() {
        if let Some(dir) = home {
            base = Some(join_path(dir, ".config"));
        }
    }
    match base {
        Some(base) => {
            let dir = join_path(base.as_slice(), "commentlint");
            Some(join_path(dir.as_slice(), "key.txt"))
        },
        None => None,
    }
}

/// Where the API key is.
#[derive(Debug)]
pub enum KeySource {
    /// Here.
    Key(String),
    /// In this file.
    File(Vec<u8>),
    /// Nowhere: neither `XDG_CONFIG_HOME` nor `HOME` is set.
    Nowhere,
}

/// Finds the API key: the `COMMENTLINT_API_KEY` environment variable, when set
/// to more than white space, takes precedence over the key file, so CI jobs need
/// not write a file.
pub fn load_key(variable: Option<&str>, xdg: Option<&[u8]>, home: Option<&[u8]>) -> (r: KeySource)
    ensures
        match r {
            KeySource::Key(key) => variable matches Some(k) && trim(k@).len() > 0 && key@ == trim(k@),
            KeySource::File(path) => (variable matches Some(k) ==> trim(k@).len() == 0) && key_file(
                var_view(xdg),
                var_view(home),
            ) == Some(path@),
            KeySource::Nowhere => (variable matches Some(k) ==> trim(k@).len() == 0) && key_file(
                var_view(xdg),
                var_view(home),
            ) is None,
        },
        r is Key <==> variable is Some && !all_space(variable->0@),
{
    if let Some(k) = variable {
        if let Some(key) = key_in(k) {
            return KeySource::Key(key);
        }
    }
    match key_path(xdg, home) {
        Some(path) => KeySource::File(path),
        None => KeySource::Nowhere,
    }
}

/// The key in the contents of the key file; there is none in white space.
pub fn key_in(contents: &str) -> (r: Option<String>)
    ensures
        match r {
            Some(key) => trim(contents@).len() > 0 && key@ == trim(contents@),
            None => trim(contents@).len() == 0,
        },
        r is None <==> all_space(contents@),
{
    proof {
        trimmed_space_is_empty(contents@);
    }
    let v = chars_of(contents);
    let (a, b): (usize, usize) = text_range(&v, 0, v.len());
    assert(v@.subrange(0, v@.len() as int) =~= contents@);
    assert(trim(contents@).len() == b - a);
    if a == b {
        None
    } else {
        Some(trim_text(contents))
    }
}

/// One question of a request.
#[derive(Debug)]
pub struct Question {
    /// The type of the question.
    pub kind: String,
    pub instructions: String,
    pub criteria: Criteria,
}

/// What a [`Question`] says.
pub struct QuestionView {
    pub kind: Seq<char>,
    pub instructions: Seq<char>,
    pub criteria: CriteriaView,
}

impl View for Question {
    type V = QuestionView;

    open spec fn view(&self) -> QuestionView {
        QuestionView { kind: self.kind@, instructions: self.instructions@, criteria: self.criteria@ }
    }
}

/// The body of a request.
#[derive(Debug)]
pub struct Request {
    /// The text that the questions are about.
    pub state: String,
    pub model: String,
    pub questions: Table<Question>,
}

/// What a [`Request`] says.
pub struct RequestView {
    pub state: Seq<char>,
    pub model: Seq<char>,
    pub questions: Map<Seq<char>, QuestionView>,
}

impl View for Request {
    type V = RequestView;

    open spec fn view(&self) -> RequestView {
        RequestView { state: self.state@, model: self.model@, questions: self.questions@ }
    }
}

/// The question that a rule asks.
pub open spec fn question_of(rule: RuleView) -> QuestionView {
    QuestionView { kind: "noul"@, instructions: rule.instructions, criteria: rule.criteria }
}

/// The questions that rules ask, by the ids of the rules.
pub open spec fn questions_of(rules: Map<Seq<char>, RuleView>) -> Map<Seq<char>, QuestionView> {
    Map::new(|id: Seq<char>| rules.dom().contains(id), |id: Seq<char>| question_of(rules[id]))
}

/// The questions that rules ask, by the ids of the rules.
fn ask(rules: &Table<Rule>) -> (r: Table<Question>)
    ensures
        r@ == questions_of(rules@),
{
    let mut r: Table<Question> = Table::new();
    let ghost ids = rules.ids();
    let n: usize = rules.len();
    let mut i: usize = 0;
    while i < n
        invariant
            i <= n == ids.len(),
            ids == rules.ids(),
            forall|id: Seq<char>|
                #![trigger r@.dom().contains(id)]
                r@.dom().contains(id) <==> ids.take(i as int).contains(id),
            forall|id: Seq<char>| #![trigger r@[id]] r@.dom().contains(id) ==> r@[id] == question_of(rules@[id]),
        decreases n - i,
    {
        let rule = rules.value_at(i);
        r.insert(
            copy_of(rules.id_at(i)),
            Question {
                kind: copy_of("noul"),
                instructions: rule.instructions.clone(),
                criteria: rule.criteria.clone(),
            },
        );
        proof {
            lemma_take_contains(ids, i as int);
        }
        i += 1;
    }
    assert(ids.take(n as int) =~= ids);
    assert(r@ =~= questions_of(rules@));
    r
}

/// A client bound to one API key.
#[derive(Debug)]
pub struct Client {
    endpoint: String,
    key: String,
}

/// What a [`Client`] holds.
pub struct ClientView {
    pub endpoint: Seq<char>,
    pub key: Seq<char>,
}

impl View for Client {
    type V = ClientView;

    closed spec fn view(&self) -> ClientView {
        ClientView { endpoint: self.endpoint@, key: self.key@ }
    }
}

impl Client {
    /// A client for the API key `key`, which sends its requests to `url`, the
    /// value of `COMMENTLINT_API_URL`, where that is set.
    pub fn new(key: String, url: Option<String>) -> (r: Self)
        ensures
            r@.key == key@,
            r@.endpoint == match url {
                Some(endpoint) => endpoint@,
                None => DEFAULT_ENDPOINT@,
            },
    {
        let endpoint = match url {
            Some(endpoint) => endpoint,
            None => copy_of(DEFAULT_ENDPOINT),
        };
        Client { endpoint, key }
    }

    /// Where requests are sent.
    pub fn endpoint(&self) -> (r: &str)
        ensures
            r@ == self@.endpoint,
    {
        self.endpoint.as_str()
    }

    /// The value of the `Authorization` header.
    pub fn authorization(&self) -> (r: String)
        ensures
            r@ == "Bearer "@ + self@.key,
    {
        let mut r = copy_of("Bearer ");
        r.append(self.key.as_str());
        r
    }

    /// Begins to evaluate every rule against one piece of text.
    pub fn evaluate(&self, model: &str, text: &str, rules: &Table<Rule>) -> (r: Call)
        ensures
            r.wf(),
            r.attempt == 1,
            r.request@ == (RequestView { state: text@, model: model@, questions: questions_of(rules@) }),
    {
        Call {
            request: Request { state: copy_of(text), model: copy_of(model), questions: ask(rules) },
            attempt: 1,
            delay: FIRST_DELAY,
        }
    }
}

/// A request on its way.
#[derive(Debug)]
pub struct Call {
    pub request: Request,
    /// How often the request has been sent, with the time in progress.
    pub attempt: u32,
    /// How long to wait before it is sent again, in milliseconds.
    pub delay: u64,
}

/// `2` to the power of `n`.
pub open spec fn doubled(n: nat) -> nat
    decreases n,
{
    if n == 0 {
        1
    } else {
        2 * doubled((n - 1) as nat)
    }
}

/// What came of sending a request.
#[derive(Debug)]
pub enum Event {
    /// It could not be sent, or brought no reply.
    Unanswered,
    /// A reply with this HTTP status, and the value of its `retry-after` header.
    Replied(u16, Option<String>),
}

/// How long to wait.
#[derive(Clone, Copy, Debug, PartialEq, Eq, Structural)]
pub enum Pause {
    Seconds(u64),
    Milliseconds(u64),
}

/// What to do next about a request.
#[derive(Clone, Copy, Debug, PartialEq, Eq, Structural)]
pub enum Action {
    /// Wait, and send the request again.
    Resend(Pause),
    /// Read the answers in the reply.
    Read,
    /// Give up: there was no reply.
    NoReply,
    /// Give up: the key was rejected.
    KeyRejected,
    /// Give up: the reply has this HTTP status.
    Refused(u16),
}

/// Whether a reply with this status may be followed by a better one.
pub open spec fn transient(status: u16) -> bool {
    status == 429 || status == 529 || 500 <= status <= 504
}

/// The wait that a `retry-after` header asks for, in seconds.
pub open spec fn asked_wait(retry_after: Option<String>) -> Option<u64> {
    match retry_after {
        Some(value) => parsed_number(trim(value@)),
        None => None,
    }
}

impl Call {
    /// A request is sent so many times at most, and each wait of its own choice
    /// is twice the one before.
    pub open spec fn wf(&self) -> bool {
        &&& 1 <= self.attempt <= MAX_ATTEMPTS
        &&& self.delay == FIRST_DELAY * doubled((self.attempt - 1) as nat)
    }

    /// What to do about an event.
    pub open spec fn action(&self, event: Event) -> Action {
        match event {
            Event::Unanswered => if self.attempt < MAX_ATTEMPTS {
                Action::Resend(Pause::Milliseconds(self.delay))
            } else {
                Action::NoReply
            },
            Event::Replied(status, retry_after) => if status == 200 {
                Action::Read
            } else if transient(status) && self.attempt < MAX_ATTEMPTS {
                match asked_wait(retry_after) {
                    Some(seconds) => Action::Resend(Pause::Seconds(seconds)),
                    None => Action::Resend(Pause::Milliseconds(self.delay)),
                }
            } else if status == 401 {
                Action::KeyRejected
            } else {
                Action::Refused(status)
            },
        }
    }

    /// Decides what to do after the request was sent.
    pub fn next(&mut self, event: Event) -> (r: Action)
        requires
            old(self).wf(),
        ensures
            r == old(self).action(event),
            final(self).wf(),
            final(self).request == old(self).request,
            final(self).attempt == if r is Resend {
                old(self).attempt + 1
            } else {
                old(self).attempt as int
            },
    {
        proof {
            reveal_with_fuel(doubled, 6);
        }
        let more = self.attempt < MAX_ATTEMPTS;
        let delay: u64 = self.delay;
        let action = match event {
            Event::Unanswered => if more {
                Action::Resend(Pause::Milliseconds(delay))
            } else {
                Action::NoReply
            },
            Event::Replied(status, retry_after) => {
                if status == 200 {
                    Action::Read
                } else if (status == 429 || status == 529 || (500 <= status && status <= 504)) && more {
                    let asked = match retry_after {
                        Some(value) => parse_number(value.as_str()),
                        None => None,
                    };
                    match asked {
                        Some(seconds) => Action::Resend(Pause::Seconds(seconds)),
                        None => Action::Resend(Pause::Milliseconds(delay)),
                    }
                } else if status == 401 {
                    Action::KeyRejected
                } else {
                    Action::Refused(status)
                }
            },
        };
        if let Action::Resend(_) = action {
            self.attempt = self.attempt + 1;
            self.delay = delay * 2;
        }
        action
    }
}

/// Whether there is an answer for the rule `id`.
pub open spec fn is_answered(answers: Map<Seq<char>, Option<Score>>, id: Seq<char>) -> bool {
    answers.dom().contains(id) && answers[id] is Some
}

/// The first of the ids for which there is no answer.
pub open spec fn first_unanswered(
    ids: Seq<Seq<char>>,
    answers: Map<Seq<char>, Option<Score>>,
) -> Option<Seq<char>>
    decreases ids.len(),
{
    if ids.len() == 0 {
        None
    } else if !is_answered(answers, ids[0]) {
        Some(ids[0])
    } else {
        first_unanswered(ids.skip(1), answers)
    }
}

/// The answers for the rules.
pub open spec fn answers_for(
    rules: Map<Seq<char>, RuleView>,
    answers: Map<Seq<char>, Option<Score>>,
) -> Map<Seq<char>, Score> {
    Map::new(|id: Seq<char>| rules.dom().contains(id), |id: Seq<char>| answers[id]->0)
}

proof fn lemma_all_answered(ids: Seq<Seq<char>>, answers: Map<Seq<char>, Option<Score>>)
    ensures
        first_unanswered(ids, answers) is None <==> forall|i: int|
            0 <= i < ids.len() ==> is_answered(answers, #[trigger] ids[i]),
    decreases ids.len(),
{
    if ids.len() > 0 {
        let rest = ids.skip(1);
        lemma_all_answered(rest, answers);
        if first_unanswered(ids, answers) is None {
            assert forall|i: int| 0 <= i < ids.len() implies is_answered(answers, #[trigger] ids[i]) by {
                if i > 0 {
                    assert(rest[i - 1] == ids[i]);
                }
            }
        } else if is_answered(answers, ids[0]) {
            let i = choose|i: int| 0 <= i < rest.len() && !is_answered(answers, #[trigger] rest[i]);
            assert(ids[i + 1] == rest[i]);
        }
    }
}

/// Reads the probability of "yes" for each rule out of the answers. Where a
/// rule has no answer, the id of the first such rule comes back.
pub fn read_answers(rules: &Table<Rule>, answers: &Table<Option<Score>>) -> (r: Result<Table<Score>, String>)
    ensures
        match r {
            Ok(scores) => first_unanswered(rules.ids(), answers@) is None && scores@ == answers_for(
                rules@,
                answers@,
            ),
            Err(id) => first_unanswered(rules.ids(), answers@) == Some(id@),
        },
        r is Ok <==> forall|id: Seq<char>| #[trigger] rules@.dom().contains(id) ==> is_answered(answers@, id),
        ascending(rules.ids()),
{
    let mut r: Table<Score> = Table::new();
    let ghost ids = rules.ids();
    let n: usize = rules.len();
    proof {
        lemma_all_answered(ids, answers@);
        assert(ids.skip(0) =~= ids);
        assert((first_unanswered(ids, answers@) is None) == (forall|id: Seq<char>| #[trigger]
            rules@.dom().contains(id) ==> is_answered(answers@, id))) by {
            if first_unanswered(ids, answers@) is None {
                assert forall|id: Seq<char>| #[trigger] rules@.dom().contains(id) implies is_answered(answers@, id) by {
                    let k = ids.index_of(id);
                    assert(ids[k] == id);
                }
            } else {
                let i = choose|i: int| 0 <= i < ids.len() && !is_answered(answers@, #[trigger] ids[i]);
                assert(ids.contains(ids[i]));
                assert(rules@.dom().contains(ids[i]));
            }
        }
    }
    let mut i: usize = 0;
    while i < n
        invariant
            i <= n == ids.len(),
            ids == rules.ids(),
            ascending(ids),
            (first_unanswered(ids, answers@) is None) == (forall|id: Seq<char>| #[trigger]
                rules@.dom().contains(id) ==> is_answered(answers@, id)),
            first_unanswered(ids, answers@) == first_unanswered(ids.skip(i as int), answers@),
            forall|id: Seq<char>|
                #![trigger r@.dom().contains(id)]
                r@.dom().contains(id) <==> ids.take(i as int).contains(id),
            forall|id: Seq<char>| #![trigger r@[id]] r@.dom().contains(id) ==> r@[id] == answers@[id]->0,
        decreases n - i,
    {
        let id = rules.id_at(i);
        proof {
            assert(ids.skip(i as int)[0] == id@);
            assert(ids.skip(i as int).skip(1) =~= ids.skip(i + 1));
            lemma_take_contains(ids, i as int);
        }
        let noul = match answers.get(id) {
            Some(answer) => *answer,
            None => None,
        };
        match noul {
            Some(score) => {
                r.insert(copy_of(id), score);
            },
            None => {
                return Err(copy_of(id));
            },
        }
        i += 1;
    }
    assert(ids.take(n as int) =~= ids);
    assert(r@ =~= answers_for(rules@, answers@));
    Ok(r)
}

/// A request is sent again only while it has been sent fewer times than the
/// limit, a reply that answers it or rejects the key never has it sent again,
/// and the waits of its own choice double from one time to the next.
pub proof fn resends_are_limited(call: Call, event: Event)
    requires
        call.wf(),
    ensures
        call.action(event) is Resend ==> call.attempt < MAX_ATTEMPTS,
        event matches Event::Replied(status, _) && (status == 200 || status == 401) ==> !(call.action(event) is Resend),
        forall|later: Call|
            #![trigger later.wf()]
            later.wf() && later.attempt == call.attempt + 1 ==> later.delay == 2 * call.delay,
{
    reveal_with_fuel(doubled, 6);
}

/// The key file lies below the directory for configurations where one is set
/// and not empty, and below that of the home directory otherwise.
pub proof fn key_file_lies_below_the_configuration(xdg: Seq<u8>, home: Seq<u8>, other: Option<Seq<u8>>)
    ensures
        xdg.len() > 0 ==> key_file(Some(xdg), other) == Some(
            path_joined(path_joined(xdg, encode_utf8("commentlint"@)), encode_utf8("key.txt"@)),
        ),
        ({
            let file = path_joined(
                path_joined(path_joined(home, encode_utf8(".config"@)), encode_utf8("commentlint"@)),
                encode_utf8("key.txt"@),
            );
            &&& key_file(None, Some(home)) == Some(file)
            &&& xdg.len() == 0 ==> key_file(Some(xdg), Some(home)) == Some(file)
        }),
        key_file(None, None) is None,
        xdg.len() == 0 ==> key_file(Some(xdg), None) is None,
{
}

/// The value of a variable is seen by its bytes.
pub proof fn variable_says_its_bytes(value: &[u8])
    ensures
        var_view(Some(value)) == Some(value@),
        var_view(None) is None,
{
}

/// Every rule asks one question, in its own words, and nothing else is asked.
pub proof fn every_rule_asks_its_question(rules: Map<Seq<char>, RuleView>, id: Seq<char>)
    ensures
        questions_of(rules).dom().contains(id) <==> rules.dom().contains(id),
        rules.dom().contains(id) ==> {
            &&& questions_of(rules)[id].kind == "noul"@
            &&& questions_of(rules)[id].instructions == rules[id].instructions
            &&& questions_of(rules)[id].criteria == rules[id].criteria
        },
{
}

/// A request says what its fields hold.
pub proof fn request_says_its_fields(request: Request, question: Question)
    ensures
        request@.state == request.state@,
        request@.model == request.model@,
        request@.questions == request.questions@,
        question@.kind == question.kind@,
        question@.instructions == question.instructions@,
        question@.criteria == question.criteria@,
{
}

/// What a reply, or its absence, leads to: answers are read; a rejected key and
/// any status that is not known to pass end the matter; a busy or failing
/// service is asked again, after the wait it names or else after the wait in
/// turn, until the last time.
pub proof fn reply_decides_what_follows(call: Call, status: u16, retry_after: Option<String>)
    requires
        call.wf(),
    ensures
        call.action(Event::Replied(200, retry_after)) == Action::Read,
        call.action(Event::Replied(401, retry_after)) == Action::KeyRejected,
        status != 200 && status != 401 && status != 429 && status != 529 && !(500 <= status <= 504) ==> call.action(
            Event::Replied(status, retry_after),
        ) == Action::Refused(status),
        (status == 429 || status == 529 || 500 <= status <= 504) && call.attempt < 5 ==> call.action(
            Event::Replied(status, retry_after),
        ) == Action::Resend(
            if retry_after is Some && parsed_number(trim(retry_after->0@)) is Some {
                Pause::Seconds(parsed_number(trim(retry_after->0@))->0)
            } else {
                Pause::Milliseconds(call.delay)
            },
        ),
        (status == 429 || status == 529 || 500 <= status <= 504) && call.attempt == 5 ==> call.action(
            Event::Replied(status, retry_after),
        ) == Action::Refused(status),
        call.attempt < 5 ==> call.action(Event::Unanswered) == Action::Resend(Pause::Milliseconds(call.delay)),
        call.attempt == 5 ==> call.action(Event::Unanswered) == Action::NoReply,
        call.attempt == 1 ==> call.delay == 500,
        call.attempt == 2 ==> call.delay == 1000,
        call.attempt == 3 ==> call.delay == 2000,
        call.attempt == 4 ==> call.delay == 4000,
{
    reveal_with_fuel(doubled, 6);
}

/// Each rule keeps the answer that was given for it, and no other is taken in.
pub proof fn answers_stay_with_their_rules(
    rules: Map<Seq<char>, RuleView>,
    answers: Map<Seq<char>, Option<Score>>,
    id: Seq<char>,
)
    ensures
        answers_for(rules, answers).dom().contains(id) <==> rules.dom().contains(id),
        rules.dom().contains(id) && answers[id] is Some ==> answers[id] == Some(answers_for(rules, answers)[id]),
        is_answered(answers, id) <==> answers.dom().contains(id) && answers[id] is Some,
{
}

/// Behind rules with an answer, the first without one is named.
pub proof fn first_rule_without_an_answer_is_named(
    ids: Seq<Seq<char>>,
    answers: Map<Seq<char>, Option<Score>>,
    i: int,
)
    requires
        0 <= i < ids.len(),
        forall|k: int| 0 <= k < i ==> answers.dom().contains(#[trigger] ids[k]) && answers[ids[k]] is Some,
        !answers.dom().contains(ids[i]) || answers[ids[i]] is None,
    ensures
        first_unanswered(ids, answers) == Some(ids[i]),
    decreases i,
{
    if i > 0 {
        assert(answers.dom().contains(ids[0]));
        let rest = ids.skip(1);
        assert forall|k: int| 0 <= k < i - 1 implies answers.dom().contains(#[trigger] rest[k])
            && answers[rest[k]] is Some by {
            assert(rest[k] == ids[k + 1]);
        }
        assert(rest[i - 1] == ids[i]);
        first_rule_without_an_answer_is_named(rest, answers, i - 1);
    }
}

} // verus!
