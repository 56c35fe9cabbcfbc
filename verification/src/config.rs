//! Rule definitions and the directory-level `.commentlint.toml` configuration.
//!
//! Configuration is layered. The built-in defaults are the base layer. Every
//! `.commentlint.toml` found between the working directory and the directory
//! containing a file is then applied in order, outermost first, so the
//! configuration closest to the file being evaluated has the final say.

use vstd::prelude::*;

use crate::score::Score;
use crate::table::Table;
use crate::text::{chars_of, same_text, start_of_text, starts_with, text_range, words_of};

#[allow(unused_imports)]
use crate::table::{ascending, lemma_take_contains};
#[allow(unused_imports)]
use crate::text::{
    all_space, is_space, is_word, joined, lemma_start_of_led, lemma_words_joined, lemma_words_of_joined, trim, trim_start,
    trimmed_space_is_empty, views, words,
};

verus! {

/// The name of the configuration file looked up in each directory.
pub const CONFIG_FILE_NAME: &'static str = ".commentlint.toml";

/// The default threshold below which a Noul answer counts as "false": 0.5,
/// by its bits (see [`Score`]).
pub const DEFAULT_THRESHOLD: u64 = 0x3fe0_0000_0000_0000;

/// The default model sent to TypeSafe.ai.
pub const DEFAULT_MODEL: &'static str = "jev-latest";

/// The default minimum number of words a comment needs before it is evaluated.
pub const DEFAULT_MIN_WORDS: usize = 3;

/// Yes/no criteria for a Noul rule.
#[derive(Debug, PartialEq)]
pub struct Criteria {
    /// What a "yes" answer means.
    pub yes: String,
    /// What a "no" answer means.
    pub no: String,
}

/// A single Noul rule, as written in configuration or built in.
#[derive(Debug, PartialEq)]
pub struct Rule {
    /// The yes/no question asked about each comment.
    pub instructions: String,
    /// Descriptions of the yes and no outcomes.
    pub criteria: Criteria,
    /// The comment fails this rule when the returned probability is below
    /// this value. Falls back to the file-level `threshold`, then 0.5.
    pub threshold: Option<Score>,
}

/// The shape of both the built-in defaults and `.commentlint.toml`.
#[derive(Debug)]
pub struct ConfigFile {
    /// Rule ids to disable for this directory and its descendants.
    pub disable: Vec<String>,
    /// Rule ids to re-enable after an outer directory disabled them.
    pub enable: Vec<String>,
    /// Additional rules, or overrides of default rules by id.
    pub rules: Table<Rule>,
    /// Default threshold for rules that do not set their own.
    pub threshold: Option<Score>,
    /// The TypeSafe.ai model name.
    pub model: Option<String>,
    /// Comments with fewer words than this are not evaluated.
    pub min_words: Option<usize>,
    /// Comment prefixes that mark tool directives; replaces the default list.
    pub ignore_prefixes: Option<Vec<String>>,
}

/// The fully resolved configuration that applies to one file.
#[derive(Debug, PartialEq)]
pub struct Resolved {
    /// Enabled rules, keyed by id, in a stable order.
    pub rules: Table<Rule>,
    pub threshold: Score,
    pub model: String,
    pub min_words: usize,
    pub ignore_prefixes: Vec<String>,
}

/// What a [`Criteria`] says.
pub struct CriteriaView {
    pub yes: Seq<char>,
    pub no: Seq<char>,
}

/// What a [`Rule`] says.
pub struct RuleView {
    pub instructions: Seq<char>,
    pub criteria: CriteriaView,
    pub threshold: Option<Score>,
}

/// What a [`ConfigFile`] says.
pub struct ConfigView {
    pub disable: Seq<Seq<char>>,
    pub enable: Seq<Seq<char>>,
    pub rules: Map<Seq<char>, RuleView>,
    pub threshold: Option<Score>,
    pub model: Option<Seq<char>>,
    pub min_words: Option<usize>,
    pub ignore_prefixes: Option<Seq<Seq<char>>>,
}

/// What a [`Resolved`] says.
pub struct ResolvedView {
    pub rules: Map<Seq<char>, RuleView>,
    pub threshold: Score,
    pub model: Seq<char>,
    pub min_words: usize,
    pub ignore_prefixes: Seq<Seq<char>>,
}

impl View for Criteria {
    type V = CriteriaView;

    open spec fn view(&self) -> CriteriaView {
        CriteriaView { yes: self.yes@, no: self.no@ }
    }
}

impl View for Rule {
    type V = RuleView;

    open spec fn view(&self) -> RuleView {
        RuleView {
            instructions: self.instructions@,
            criteria: self.criteria@,
            threshold: self.threshold,
        }
    }
}

/// What an optional text says.
pub open spec fn option_view(text: Option<String>) -> Option<Seq<char>> {
    match text {
        Some(s) => Some(s@),
        None => None,
    }
}

/// What an optional list of texts says.
pub open spec fn option_views(texts: Option<Vec<String>>) -> Option<Seq<Seq<char>>> {
    match texts {
        Some(v) => Some(views(v@)),
        None => None,
    }
}

impl View for ConfigFile {
    type V = ConfigView;

    open spec fn view(&self) -> ConfigView {
        ConfigView {
            disable: views(self.disable@),
            enable: views(self.enable@),
            rules: self.rules@,
            threshold: self.threshold,
            model: option_view(self.model),
            min_words: self.min_words,
            ignore_prefixes: option_views(self.ignore_prefixes),
        }
    }
}

impl View for Resolved {
    type V = ResolvedView;

    open spec fn view(&self) -> ResolvedView {
        ResolvedView {
            rules: self.rules@,
            threshold: self.threshold,
            model: self.model@,
            min_words: self.min_words,
            ignore_prefixes: views(self.ignore_prefixes@),
        }
    }
}

/// Each layer by what it says.
pub open spec fn layer_views(layers: Seq<ConfigFile>) -> Seq<ConfigView> {
    Seq::new(layers.len(), |i: int| layers[i]@)
}

impl Clone for Criteria {
    fn clone(&self) -> (r: Self)
        ensures
            r@ == self@,
    {
        Criteria { yes: self.yes.clone(), no: self.no.clone() }
    }
}

impl Clone for Rule {
    fn clone(&self) -> (r: Self)
        ensures
            r@ == self@,
    {
        Rule {
            instructions: self.instructions.clone(),
            criteria: self.criteria.clone(),
            threshold: self.threshold,
        }
    }
}

/// A copy of a list of texts.
pub(crate) fn copy_texts(texts: &Vec<String>) -> (r: Vec<String>)
    ensures
        views(r@) == views(texts@),
{
    let mut r: Vec<String> = Vec::new();
    let mut i: usize = 0;
    while i < texts.len()
        invariant
            i <= texts@.len(),
            r@.len() == i,
            forall|j: int| 0 <= j < i ==> (#[trigger] r@[j])@ == texts@[j]@,
        decreases texts.len() - i,
    {
        r.push(texts[i].clone());
        i += 1;
    }
    assert(views(r@) =~= views(texts@));
    r
}

/// A copy of a table of rules.
fn copy_rules(rules: &Table<Rule>) -> (r: Table<Rule>)
    ensures
        r@ == rules@,
{
    let mut r: Table<Rule> = Table::new();
    let n: usize = rules.len();
    let ghost ids = rules.ids();
    let mut i: usize = 0;
    while i < n
        invariant
            i <= n == ids.len(),
            ids == rules.ids(),
            forall|id: Seq<char>|
                #![trigger r@.dom().contains(id)]
                r@.dom().contains(id) <==> ids.take(i as int).contains(id),
            forall|id: Seq<char>| #[trigger] r@.dom().contains(id) ==> r@[id] == rules@[id],
        decreases n - i,
    {
        let id = rules.id_at(i);
        r.insert(crate::text::copy_of(id), rules.value_at(i).clone());
        proof {
            lemma_take_contains(ids, i as int);
        }
        i += 1;
    }
    assert(ids.take(n as int) =~= ids);
    assert(r@ =~= rules@);
    r
}

impl Clone for ConfigFile {
    fn clone(&self) -> (r: Self)
        ensures
            r@ == self@,
    {
        let model = match &self.model {
            Some(m) => Some(m.clone()),
            None => None,
        };
        let ignore_prefixes = match &self.ignore_prefixes {
            Some(p) => Some(copy_texts(p)),
            None => None,
        };
        ConfigFile {
            disable: copy_texts(&self.disable),
            enable: copy_texts(&self.enable),
            rules: copy_rules(&self.rules),
            threshold: self.threshold,
            model,
            min_words: self.min_words,
            ignore_prefixes,
        }
    }
}

impl Clone for Resolved {
    fn clone(&self) -> (r: Self)
        ensures
            r@ == self@,
    {
        Resolved {
            rules: copy_rules(&self.rules),
            threshold: self.threshold,
            model: self.model.clone(),
            min_words: self.min_words,
            ignore_prefixes: copy_texts(&self.ignore_prefixes),
        }
    }
}

impl ResolvedView {
    /// The effective threshold for a rule.
    pub open spec fn threshold_for(self, rule: RuleView) -> Score {
        match rule.threshold {
            Some(t) => t,
            None => self.threshold,
        }
    }

    /// Whether a cleaned comment is worth sending: it has enough words, and is
    /// no tool directive.
    pub open spec fn evaluates(self, text: Seq<char>) -> bool {
        &&& words(text).len() >= self.min_words
        &&& forall|i: int|
            0 <= i < self.ignore_prefixes.len() ==> !(#[trigger] self.ignore_prefixes[i]).is_prefix_of(
                trim_start(text),
            )
    }
}

impl Resolved {
    /// The effective threshold for a rule.
    pub fn threshold_for(&self, rule: &Rule) -> (r: Score)
        ensures
            r == self@.threshold_for(rule@),
    {
        match rule.threshold {
            Some(t) => t,
            None => self.threshold,
        }
    }

    /// Whether a cleaned comment should be sent for evaluation at all.
    pub fn should_evaluate(&self, text: &str) -> (r: bool)
        ensures
            r == self@.evaluates(text@),
    {
        let found = words_of(text);
        if found.len() < self.min_words {
            return false;
        }
        let v = chars_of(text);
        let head: usize = start_of_text(&v, 0, v.len());
        assert(v@.subrange(0, v@.len() as int) =~= text@);
        let ghost prefixes = self@.ignore_prefixes;
        let mut i: usize = 0;
        while i < self.ignore_prefixes.len()
            invariant
                i <= self.ignore_prefixes@.len(),
                prefixes == self@.ignore_prefixes,
                head <= v@.len(),
                v@.subrange(head as int, v@.len() as int) == trim_start(text@),
                forall|j: int| 0 <= j < i ==> !(#[trigger] prefixes[j]).is_prefix_of(trim_start(text@)),
            decreases self.ignore_prefixes.len() - i,
        {
            let prefix = chars_of(self.ignore_prefixes[i].as_str());
            assert(prefixes[i as int] == prefix@);
            if starts_with(&v, head, v.len(), &prefix) {
                return false;
            }
            i += 1;
        }
        true
    }
}

/// What is wrong with a configuration.
#[derive(Debug)]
pub enum ConfigError {
    /// The rule with this id has empty instructions.
    EmptyInstructions(String),
    /// The rule with this id has a threshold outside 0..=1.
    RuleThreshold(String, Score),
    /// The file-level threshold is outside 0..=1.
    Threshold(Score),
}

/// What a [`ConfigError`] says.
pub enum Fault {
    EmptyInstructions(Seq<char>),
    RuleThreshold(Seq<char>, Score),
    Threshold(Score),
}

impl View for ConfigError {
    type V = Fault;

    open spec fn view(&self) -> Fault {
        match self {
            ConfigError::EmptyInstructions(id) => Fault::EmptyInstructions(id@),
            ConfigError::RuleThreshold(id, t) => Fault::RuleThreshold(id@, *t),
            ConfigError::Threshold(t) => Fault::Threshold(*t),
        }
    }
}

/// Whether an optional threshold lies outside 0..=1.
pub open spec fn out_of_range(threshold: Option<Score>) -> bool {
    threshold matches Some(t) && !t.in_unit()
}

/// What is wrong with one rule.
pub open spec fn rule_fault(id: Seq<char>, rule: RuleView) -> Option<Fault> {
    if trim(rule.instructions).len() == 0 {
        Some(Fault::EmptyInstructions(id))
    } else if out_of_range(rule.threshold) {
        Some(Fault::RuleThreshold(id, rule.threshold->0))
    } else {
        None
    }
}

/// What is wrong with the first rule that has a fault, in the order of `ids`.
pub open spec fn first_rule_fault(ids: Seq<Seq<char>>, rules: Map<Seq<char>, RuleView>) -> Option<Fault>
    decreases ids.len(),
{
    if ids.len() == 0 {
        None
    } else if rule_fault(ids[0], rules[ids[0]]) is Some {
        rule_fault(ids[0], rules[ids[0]])
    } else {
        first_rule_fault(ids.skip(1), rules)
    }
}

impl ConfigFile {
    /// The first fault of the configuration: those of its rules in the order
    /// of their ids, then that of its own threshold.
    pub open spec fn first_fault(&self) -> Option<Fault> {
        if first_rule_fault(self.rules.ids(), self.rules@) is Some {
            first_rule_fault(self.rules.ids(), self.rules@)
        } else if out_of_range(self.threshold) {
            Some(Fault::Threshold(self.threshold->0))
        } else {
            None
        }
    }
}

impl ConfigView {
    /// Every rule asks something, and every threshold lies in 0..=1.
    pub open spec fn valid(self) -> bool {
        &&& forall|id: Seq<char>|
            #[trigger] self.rules.dom().contains(id) ==> rule_fault(id, self.rules[id]) is None
        &&& !out_of_range(self.threshold)
    }
}

proof fn lemma_first_rule_fault(ids: Seq<Seq<char>>, rules: Map<Seq<char>, RuleView>)
    ensures
        first_rule_fault(ids, rules) is None <==> forall|i: int|
            0 <= i < ids.len() ==> rule_fault(#[trigger] ids[i], rules[ids[i]]) is None,
    decreases ids.len(),
{
    if ids.len() > 0 {
        lemma_first_rule_fault(ids.skip(1), rules);
        if first_rule_fault(ids, rules) is None {
            assert forall|i: int| 0 <= i < ids.len() implies rule_fault(#[trigger] ids[i], rules[ids[i]]) is None by {
                if i > 0 {
                    assert(ids.skip(1)[i - 1] == ids[i]);
                }
            }
        } else if rule_fault(ids[0], rules[ids[0]]) is None {
            let i = choose|i: int|
                0 <= i < ids.skip(1).len() && rule_fault(
                    #[trigger] ids.skip(1)[i],
                    rules[ids.skip(1)[i]],
                ) is Some;
            assert(ids[i + 1] == ids.skip(1)[i]);
        }
    }
}

/// Checks that every rule asks something and every threshold lies in 0..=1.
pub fn validate(cfg: &ConfigFile) -> (r: Result<(), ConfigError>)
    ensures
        match r {
            Ok(()) => cfg.first_fault() is None,
            Err(e) => cfg.first_fault() == Some(e@),
        },
        r is Ok <==> cfg@.valid(),
        ascending(cfg.rules.ids()),
{
    let ghost ids = cfg.rules.ids();
    let ghost rules = cfg.rules@;
    let n: usize = cfg.rules.len();
    let mut i: usize = 0;
    assert(ids.skip(0) =~= ids);
    proof {
        lemma_first_rule_fault(ids, rules);
        assert forall|id: Seq<char>| #[trigger] rules.dom().contains(id) implies ids.contains(id) by {}
        assert(cfg@.rules == rules);
        assert(cfg@.valid() <==> cfg.first_fault() is None) by {
            if cfg.first_fault() is None {
                assert forall|id: Seq<char>| #[trigger] rules.dom().contains(id) implies rule_fault(
                    id,
                    rules[id],
                ) is None by {
                    let k = ids.index_of(id);
                    assert(ids[k] == id);
                }
            }
            if cfg@.valid() {
                assert forall|k: int| 0 <= k < ids.len() implies rule_fault(
                    #[trigger] ids[k],
                    rules[ids[k]],
                ) is None by {
                    assert(ids.contains(ids[k]));
                    assert(rules.dom().contains(ids[k]));
                }
            }
        }
    }
    while i < n
        invariant
            i <= n == ids.len(),
            ids == cfg.rules.ids(),
            ascending(ids),
            rules == cfg.rules@,
            cfg@.valid() <==> cfg.first_fault() is None,
            first_rule_fault(ids, rules) == first_rule_fault(ids.skip(i as int), rules),
        decreases n - i,
    {
        let id = cfg.rules.id_at(i);
        let rule = cfg.rules.value_at(i);
        assert(ids.skip(i as int)[0] == id@);
        assert(ids.skip(i as int).skip(1) =~= ids.skip(i + 1));
        let v = chars_of(rule.instructions.as_str());
        assert(v@.subrange(0, v@.len() as int) =~= rule.instructions@);
        let (a, b): (usize, usize) = text_range(&v, 0, v.len());
        assert(trim(rule.instructions@).len() == b - a);
        if a == b {
            return Err(ConfigError::EmptyInstructions(crate::text::copy_of(id)));
        }
        if let Some(t) = rule.threshold {
            if !t.is_in_unit() {
                return Err(ConfigError::RuleThreshold(crate::text::copy_of(id), t));
            }
        }
        i += 1;
    }
    if let Some(t) = cfg.threshold {
        if !t.is_in_unit() {
            return Err(ConfigError::Threshold(t));
        }
    }
    Ok(())
}

/// The keys that a configuration file may have.
pub open spec fn config_keys() -> Seq<Seq<char>> {
    seq![
        "disable"@,
        "enable"@,
        "rules"@,
        "threshold"@,
        "model"@,
        "min_words"@,
        "ignore_prefixes"@,
    ]
}

/// Whether a configuration file may have this key.
pub fn is_config_key(key: &str) -> (r: bool)
    ensures
        r == config_keys().contains(key@),
{
    let list: [&str; 7] = ["disable", "enable", "rules", "threshold", "model", "min_words", "ignore_prefixes"];
    let ghost all = config_keys();
    assert forall|k: int| 0 <= k < 7 implies (#[trigger] list@[k])@ == all[k] by {}
    let mut i: usize = 0;
    while i < 7
        invariant
            i <= 7 == all.len(),
            all == config_keys(),
            forall|k: int| 0 <= k < 7 ==> (#[trigger] list@[k])@ == all[k],
            forall|k: int| 0 <= k < i ==> all[k] != key@,
        decreases 7 - i,
    {
        let known = list[i];
        assert(known@ == all[i as int]);
        if same_text(known, key) {
            return true;
        }
        i += 1;
    }
    false
}

/// The place of the first key that a configuration file may not have.
pub fn first_unknown_key(keys: &Vec<String>) -> (r: Option<usize>)
    ensures
        match r {
            Some(i) => {
                &&& i < keys@.len()
                &&& !config_keys().contains(keys@[i as int]@)
                &&& forall|j: int| 0 <= j < i ==> config_keys().contains((#[trigger] keys@[j])@)
            },
            None => forall|j: int| 0 <= j < keys@.len() ==> config_keys().contains((#[trigger] keys@[j])@),
        },
{
    let mut i: usize = 0;
    while i < keys.len()
        invariant
            i <= keys@.len(),
            forall|j: int| 0 <= j < i ==> config_keys().contains((#[trigger] keys@[j])@),
        decreases keys.len() - i,
    {
        if !is_config_key(keys[i].as_str()) {
            return Some(i);
        }
        i += 1;
    }
    None
}

/// What the layers applied so far come to.
#[verifier::ext_equal]
pub struct Applied {
    /// The rules that a layer has defined, each as its last definition has it.
    pub known: Map<Seq<char>, RuleView>,
    /// The ids of the rules that are on.
    pub enabled: Set<Seq<char>>,
    pub threshold: Score,
    pub model: Seq<char>,
    pub min_words: usize,
    pub ignore_prefixes: Seq<Seq<char>>,
}

/// The value set by a layer, or the one from before where it sets none.
pub open spec fn set_or<T>(setting: Option<T>, before: T) -> T {
    match setting {
        Some(value) => value,
        None => before,
    }
}

/// What holds before any layer: no rules, and the default settings.
pub open spec fn no_layer() -> Applied {
    Applied {
        known: Map::empty(),
        enabled: Set::empty(),
        threshold: Score { bits: DEFAULT_THRESHOLD },
        model: DEFAULT_MODEL@,
        min_words: DEFAULT_MIN_WORDS,
        ignore_prefixes: Seq::empty(),
    }
}

/// Which rules are on after a layer: those it enables, as far as they are
/// known, and those that were on before or that it defines, as far as it does
/// not disable them.
pub open spec fn enabled_after(
    enabled: Set<Seq<char>>,
    known: Map<Seq<char>, RuleView>,
    layer: ConfigView,
) -> Set<Seq<char>> {
    Set::new(
        |id: Seq<char>|
            {
                ||| layer.enable.contains(id) && known.dom().contains(id)
                ||| (enabled.contains(id) || layer.rules.dom().contains(id)) && !layer.disable.contains(id)
            },
    )
}

/// What holds after one more layer.
pub open spec fn with_layer(before: Applied, layer: ConfigView) -> Applied {
    let known = before.known.union_prefer_right(layer.rules);
    Applied {
        known,
        enabled: enabled_after(before.enabled, known, layer),
        threshold: set_or(layer.threshold, before.threshold),
        model: set_or(layer.model, before.model),
        min_words: set_or(layer.min_words, before.min_words),
        ignore_prefixes: set_or(layer.ignore_prefixes, before.ignore_prefixes),
    }
}

/// What holds after the layers, applied in order.
pub open spec fn applied(layers: Seq<ConfigView>) -> Applied
    decreases layers.len(),
{
    if layers.len() == 0 {
        no_layer()
    } else {
        with_layer(applied(layers.drop_last()), layers.last())
    }
}

/// The configuration that the layers resolve to: of the known rules those that
/// are on, and the settings.
pub open spec fn resolved(layers: Seq<ConfigView>) -> ResolvedView {
    let end = applied(layers);
    ResolvedView {
        rules: end.known.restrict(end.enabled),
        threshold: end.threshold,
        model: end.model,
        min_words: end.min_words,
        ignore_prefixes: end.ignore_prefixes,
    }
}

/// Defines the rules of a layer and turns them on.
fn define_rules(known: &mut Table<Rule>, enabled: &mut Table<()>, rules: &Table<Rule>)
    ensures
        final(known)@ == old(known)@.union_prefer_right(rules@),
        final(enabled)@.dom() == old(enabled)@.dom().union(rules@.dom()),
{
    let ghost ids = rules.ids();
    let n: usize = rules.len();
    let mut i: usize = 0;
    while i < n
        invariant
            i <= n == ids.len(),
            ids == rules.ids(),
            forall|id: Seq<char>|
                #![trigger known@.dom().contains(id)]
                known@.dom().contains(id) <==> old(known)@.dom().contains(id) || ids.take(i as int).contains(id),
            forall|id: Seq<char>|
                #![trigger known@[id]]
                known@.dom().contains(id) ==> known@[id] == if ids.take(i as int).contains(id) {
                    rules@[id]
                } else {
                    old(known)@[id]
                },
            forall|id: Seq<char>|
                #![trigger enabled@.dom().contains(id)]
                enabled@.dom().contains(id) <==> old(enabled)@.dom().contains(id) || ids.take(i as int).contains(id),
        decreases n - i,
    {
        let id = rules.id_at(i);
        known.insert(crate::text::copy_of(id), rules.value_at(i).clone());
        enabled.insert(crate::text::copy_of(id), ());
        proof {
            lemma_take_contains(ids, i as int);
        }
        i += 1;
    }
    assert(ids.take(n as int) =~= ids);
    assert(known@ =~= old(known)@.union_prefer_right(rules@));
    assert(enabled@.dom() =~= old(enabled)@.dom().union(rules@.dom()));
}

/// Turns rules off.
fn disable_rules(enabled: &mut Table<()>, ids: &Vec<String>)
    ensures
        forall|id: Seq<char>|
            #![trigger final(enabled)@.dom().contains(id)]
            final(enabled)@.dom().contains(id) <==> old(enabled)@.dom().contains(id) && !views(ids@).contains(id),
{
    let ghost all = views(ids@);
    let mut i: usize = 0;
    while i < ids.len()
        invariant
            i <= ids@.len(),
            all == views(ids@),
            forall|id: Seq<char>|
                #![trigger enabled@.dom().contains(id)]
                enabled@.dom().contains(id) <==> old(enabled)@.dom().contains(id) && !all.take(i as int).contains(id),
        decreases ids.len() - i,
    {
        enabled.remove(ids[i].as_str());
        proof {
            lemma_take_contains(all, i as int);
        }
        i += 1;
    }
    assert(all.take(ids@.len() as int) =~= all);
}

/// Turns rules on, as far as they are known.
fn enable_rules(enabled: &mut Table<()>, known: &Table<Rule>, ids: &Vec<String>)
    ensures
        forall|id: Seq<char>|
            #![trigger final(enabled)@.dom().contains(id)]
            final(enabled)@.dom().contains(id) <==> old(enabled)@.dom().contains(id) || (views(ids@).contains(id)
                && known@.dom().contains(id)),
{
    let ghost all = views(ids@);
    let mut i: usize = 0;
    while i < ids.len()
        invariant
            i <= ids@.len(),
            all == views(ids@),
            forall|id: Seq<char>|
                #![trigger enabled@.dom().contains(id)]
                enabled@.dom().contains(id) <==> old(enabled)@.dom().contains(id) || (all.take(i as int).contains(id)
                    && known@.dom().contains(id)),
        decreases ids.len() - i,
    {
        if known.contains(ids[i].as_str()) {
            enabled.insert(ids[i].clone(), ());
        }
        proof {
            lemma_take_contains(all, i as int);
        }
        i += 1;
    }
    assert(all.take(ids@.len() as int) =~= all);
}

/// The rules of `known` that are on.
fn enabled_rules(known: &Table<Rule>, enabled: &Table<()>) -> (r: Table<Rule>)
    ensures
        r@ == known@.restrict(enabled@.dom()),
{
    let mut r: Table<Rule> = Table::new();
    let ghost ids = known.ids();
    let n: usize = known.len();
    let mut i: usize = 0;
    while i < n
        invariant
            i <= n == ids.len(),
            ids == known.ids(),
            forall|id: Seq<char>|
                #![trigger r@.dom().contains(id)]
                r@.dom().contains(id) <==> ids.take(i as int).contains(id) && enabled@.dom().contains(id),
            forall|id: Seq<char>| #![trigger r@[id]] r@.dom().contains(id) ==> r@[id] == known@[id],
        decreases n - i,
    {
        let id = known.id_at(i);
        if enabled.contains(id) {
            r.insert(crate::text::copy_of(id), known.value_at(i).clone());
        }
        proof {
            lemma_take_contains(ids, i as int);
        }
        i += 1;
    }
    assert(ids.take(n as int) =~= ids);
    assert(r@ =~= known@.restrict(enabled@.dom()));
    r
}

/// Applies an ordered list of configuration layers. The first layer is
/// normally the built-in defaults; later layers override earlier ones.
pub fn resolve(layers: &[ConfigFile]) -> (r: Resolved)
    ensures
        r@ == resolved(layer_views(layers@)),
{
    let mut known: Table<Rule> = Table::new();
    let mut enabled: Table<()> = Table::new();
    let mut threshold = Score { bits: DEFAULT_THRESHOLD };
    let mut model = crate::text::copy_of(DEFAULT_MODEL);
    let mut min_words: usize = DEFAULT_MIN_WORDS;
    let mut ignore_prefixes: Vec<String> = Vec::new();
    let ghost all = layer_views(layers@);
    let mut i: usize = 0;
    proof {
        assert(all.take(0) =~= Seq::<ConfigView>::empty());
        assert(enabled@.dom() =~= Set::<Seq<char>>::empty());
        assert(views(ignore_prefixes@) =~= Seq::<Seq<char>>::empty());
    }
    while i < layers.len()
        invariant
            i <= layers@.len(),
            all == layer_views(layers@),
            applied(all.take(i as int)) == (Applied {
                known: known@,
                enabled: enabled@.dom(),
                threshold,
                model: model@,
                min_words,
                ignore_prefixes: views(ignore_prefixes@),
            }),
        decreases layers.len() - i,
    {
        let layer = &layers[i];
        let ghost before = applied(all.take(i as int));
        define_rules(&mut known, &mut enabled, &layer.rules);
        disable_rules(&mut enabled, &layer.disable);
        enable_rules(&mut enabled, &known, &layer.enable);
        if let Some(t) = layer.threshold {
            threshold = t;
        }
        if let Some(m) = &layer.model {
            model = m.clone();
        }
        if let Some(w) = layer.min_words {
            min_words = w;
        }
        if let Some(p) = &layer.ignore_prefixes {
            ignore_prefixes = copy_texts(p);
        }
        proof {
            let next = all.take(i + 1);
            assert(next.drop_last() =~= all.take(i as int));
            assert(next.last() == layer@);
            assert(enabled@.dom() =~= enabled_after(before.enabled, known@, layer@));
        }
        i += 1;
    }
    assert(all.take(layers@.len() as int) =~= all);
    let rules = enabled_rules(&known, &enabled);
    Resolved { rules, threshold, model, min_words, ignore_prefixes }
}

/// The nearest layer has the final say: each of its settings holds, a rule that
/// it defines holds as it defines it unless it disables that rule, a rule that
/// it disables and does not enable is off, and a rule that it enables is on
/// where any layer defines it. What it says nothing of stays as it was.
pub proof fn nearest_layer_has_final_say(layers: Seq<ConfigView>, nearest: ConfigView)
    ensures
        ({
            let outer = resolved(layers);
            let r = resolved(layers.push(nearest));
            &&& r.threshold == set_or(nearest.threshold, outer.threshold)
            &&& r.model == set_or(nearest.model, outer.model)
            &&& r.min_words == set_or(nearest.min_words, outer.min_words)
            &&& r.ignore_prefixes == set_or(nearest.ignore_prefixes, outer.ignore_prefixes)
        }),
        forall|id: Seq<char>|
            #![trigger nearest.rules.dom().contains(id)]
            nearest.rules.dom().contains(id) && (nearest.enable.contains(id) || !nearest.disable.contains(id))
                ==> resolved(layers.push(nearest)).rules.contains_pair(id, nearest.rules[id]),
        forall|id: Seq<char>|
            #![trigger nearest.disable.contains(id)]
            nearest.disable.contains(id) && !nearest.enable.contains(id) ==> !resolved(
                layers.push(nearest),
            ).rules.dom().contains(id),
        forall|id: Seq<char>|
            #![trigger nearest.enable.contains(id)]
            nearest.enable.contains(id) ==> (resolved(layers.push(nearest)).rules.dom().contains(id) <==> exists|i: int|
                0 <= i < layers.push(nearest).len() && (#[trigger] layers.push(nearest)[i]).rules.dom().contains(id)),
        forall|id: Seq<char>|
            #![trigger resolved(layers).rules.dom().contains(id)]
            !nearest.rules.dom().contains(id) && !nearest.disable.contains(id) && !nearest.enable.contains(id) ==> (
            resolved(layers.push(nearest)).rules.dom().contains(id) == resolved(layers).rules.dom().contains(id)
                && (resolved(layers).rules.dom().contains(id) ==> resolved(layers.push(nearest)).rules[id] == resolved(
                layers,
            ).rules[id])),
{
    let all = layers.push(nearest);
    assert(all.drop_last() =~= layers);
    assert(all.last() == nearest);
    assert forall|id: Seq<char>|
        #![trigger nearest.enable.contains(id)]
        nearest.enable.contains(id) implies (resolved(all).rules.dom().contains(id) <==> exists|i: int|
        0 <= i < all.len() && (#[trigger] all[i]).rules.dom().contains(id)) by {
        lemma_known(all, id);
    }
    let before = applied(layers);
    let after = applied(all);
    assert forall|id: Seq<char>|
        #![trigger resolved(layers).rules.dom().contains(id)]
        !nearest.rules.dom().contains(id) && !nearest.disable.contains(id) && !nearest.enable.contains(
            id,
        ) implies resolved(all).rules.dom().contains(id) == resolved(layers).rules.dom().contains(id)
        && (resolved(layers).rules.dom().contains(id) ==> resolved(all).rules[id] == resolved(layers).rules[id]) by {
        assert(after.known.dom().contains(id) == before.known.dom().contains(id));
        assert(after.enabled.contains(id) == before.enabled.contains(id));
    }
}

/// A rule is known where one of the layers defines it, and is as the last of
/// those has it.
proof fn lemma_known(layers: Seq<ConfigView>, id: Seq<char>)
    ensures
        applied(layers).known.dom().contains(id) <==> exists|i: int|
            0 <= i < layers.len() && (#[trigger] layers[i]).rules.dom().contains(id),
        applied(layers).known.dom().contains(id) ==> exists|i: int|
            {
                &&& 0 <= i < layers.len()
                &&& (#[trigger] layers[i]).rules.contains_pair(id, applied(layers).known[id])
                &&& forall|j: int| i < j < layers.len() ==> !(#[trigger] layers[j]).rules.dom().contains(id)
            },
    decreases layers.len(),
{
    if layers.len() > 0 {
        let outer = layers.drop_last();
        let n = layers.len() - 1;
        lemma_known(outer, id);
        if layers[n].rules.dom().contains(id) {
            assert(layers[n].rules.contains_pair(id, applied(layers).known[id]));
        } else if applied(outer).known.dom().contains(id) {
            let i = choose|i: int|
                {
                    &&& 0 <= i < outer.len()
                    &&& (#[trigger] outer[i]).rules.contains_pair(id, applied(outer).known[id])
                    &&& forall|j: int| i < j < outer.len() ==> !(#[trigger] outer[j]).rules.dom().contains(id)
                };
            assert(layers[i] == outer[i]);
            assert forall|j: int| i < j < layers.len() implies !(#[trigger] layers[j]).rules.dom().contains(id) by {
                if j < n {
                    assert(outer[j] == layers[j]);
                }
            }
            assert(layers[i].rules.contains_pair(id, applied(layers).known[id]));
        } else {
            assert forall|i: int| 0 <= i < layers.len() implies !(#[trigger] layers[i]).rules.dom().contains(id) by {
                if i < n {
                    assert(outer[i] == layers[i]);
                }
            }
        }
    }
}

/// Every rule that is in force is defined by a layer, and is as the nearest
/// layer that defines it has it. So to enable an id that no layer defines has
/// no effect.
pub proof fn rules_are_the_nearest_definitions(layers: Seq<ConfigView>, id: Seq<char>)
    requires
        resolved(layers).rules.dom().contains(id),
    ensures
        exists|i: int|
            {
                &&& 0 <= i < layers.len()
                &&& (#[trigger] layers[i]).rules.contains_pair(id, resolved(layers).rules[id])
                &&& forall|j: int| i < j < layers.len() ==> !(#[trigger] layers[j]).rules.dom().contains(id)
            },
{
    lemma_known(layers, id);
}

/// A rule that an outer directory disabled is back as it was where an inner one
/// enables it again.
pub proof fn disable_then_enable_restores(
    layers: Seq<ConfigView>,
    outer: ConfigView,
    inner: ConfigView,
    id: Seq<char>,
)
    requires
        resolved(layers).rules.dom().contains(id),
        outer.disable.contains(id) && !outer.enable.contains(id),
        !outer.rules.dom().contains(id),
        inner.enable.contains(id),
        !inner.rules.dom().contains(id),
    ensures
        !resolved(layers.push(outer)).rules.dom().contains(id),
        resolved(layers.push(outer).push(inner)).rules.contains_pair(id, resolved(layers).rules[id]),
{
    let one = layers.push(outer);
    let two = one.push(inner);
    assert(one.drop_last() =~= layers);
    assert(two.drop_last() =~= one);
    assert(applied(one).known[id] == applied(layers).known[id]);
    assert(applied(two).known[id] == applied(one).known[id]);
    assert(applied(two).enabled.contains(id));
}

/// A layer that says nothing.
pub open spec fn silent() -> ConfigView {
    ConfigView {
        disable: Seq::empty(),
        enable: Seq::empty(),
        rules: Map::empty(),
        threshold: None,
        model: None,
        min_words: None,
        ignore_prefixes: None,
    }
}

impl Default for ConfigFile {
    /// A layer that says nothing.
    fn default() -> (r: Self)
        ensures
            r@ == silent(),
    {
        let r = ConfigFile {
            disable: Vec::new(),
            enable: Vec::new(),
            rules: Table::new(),
            threshold: None,
            model: None,
            min_words: None,
            ignore_prefixes: None,
        };
        assert(r@.disable =~= Seq::<Seq<char>>::empty());
        assert(r@.enable =~= Seq::<Seq<char>>::empty());
        r
    }
}

/// A layer that says nothing changes nothing.
pub proof fn silent_layer_changes_nothing(layers: Seq<ConfigView>)
    ensures
        resolved(layers.push(silent())) == resolved(layers),
{
    let all = layers.push(silent());
    assert(all.drop_last() =~= layers);
    let before = applied(layers);
    let after = applied(all);
    assert(after.known =~= before.known);
    assert(after.enabled =~= before.enabled);
}

/// To apply a layer again right after itself changes nothing.
pub proof fn repeated_layer_changes_nothing(layers: Seq<ConfigView>, layer: ConfigView)
    ensures
        resolved(layers.push(layer).push(layer)) == resolved(layers.push(layer)),
{
    let one = layers.push(layer);
    let two = one.push(layer);
    assert(one.drop_last() =~= layers);
    assert(two.drop_last() =~= one);
    assert(applied(two).known =~= applied(one).known);
    assert(applied(two).enabled =~= applied(one).enabled);
}

/// Where every layer is valid, every rule in force asks something and has an
/// effective threshold from zero to one.
pub proof fn valid_layers_resolve_to_valid(layers: Seq<ConfigView>)
    requires
        forall|i: int| 0 <= i < layers.len() ==> (#[trigger] layers[i]).valid(),
    ensures
        resolved(layers).threshold.in_unit(),
        forall|id: Seq<char>|
            #![trigger resolved(layers).rules.dom().contains(id)]
            resolved(layers).rules.dom().contains(id) ==> {
                &&& trim(resolved(layers).rules[id].instructions).len() > 0
                &&& resolved(layers).threshold_for(resolved(layers).rules[id]).in_unit()
            },
    decreases layers.len(),
{
    lemma_valid_threshold(layers);
    assert forall|id: Seq<char>|
        #![trigger resolved(layers).rules.dom().contains(id)]
        resolved(layers).rules.dom().contains(id) implies trim(resolved(layers).rules[id].instructions).len() > 0
        && resolved(layers).threshold_for(resolved(layers).rules[id]).in_unit() by {
        lemma_known(layers, id);
        let i = choose|i: int|
            0 <= i < layers.len() && (#[trigger] layers[i]).rules.contains_pair(id, resolved(layers).rules[id]);
        assert(layers[i].valid());
        assert(layers[i].rules.dom().contains(id));
        assert(rule_fault(id, layers[i].rules[id]) is None);
    }
}

proof fn lemma_valid_threshold(layers: Seq<ConfigView>)
    requires
        forall|i: int| 0 <= i < layers.len() ==> (#[trigger] layers[i]).valid(),
    ensures
        applied(layers).threshold.in_unit(),
    decreases layers.len(),
{
    if layers.len() > 0 {
        let outer = layers.drop_last();
        assert forall|i: int| 0 <= i < outer.len() implies (#[trigger] outer[i]).valid() by {
            assert(outer[i] == layers[i]);
        }
        lemma_valid_threshold(outer);
        assert(layers[layers.len() - 1].valid());
    }
}

proof fn lemma_words_of_trimmed(s: Seq<char>)
    ensures
        words(trim_start(s)) == words(s),
        trim_start(trim_start(s)) == trim_start(s),
    decreases s.len(),
{
    if s.len() > 0 && is_space(s[0]) {
        lemma_words_of_trimmed(s.skip(1));
    }
}

/// White space before a comment does not matter to whether it is evaluated.
pub proof fn leading_space_does_not_matter(config: ResolvedView, text: Seq<char>)
    ensures
        config.evaluates(trim_start(text)) == config.evaluates(text),
{
    lemma_words_of_trimmed(text);
}

/// Two things hold a comment back and no third: too few words, and a prefix
/// that marks a tool directive, at the first character that is no white space.
pub proof fn only_two_things_hold_a_comment_back(config: ResolvedView, lead: Seq<char>, body: Seq<char>)
    requires
        all_space(lead),
        body.len() > 0 ==> !is_space(body[0]),
    ensures
        !config.evaluates(lead + body) <==> words(body).len() < config.min_words || exists|i: int|
            0 <= i < config.ignore_prefixes.len() && (#[trigger] config.ignore_prefixes[i]).is_prefix_of(body),
{
    lemma_start_of_led(lead, body);
    lemma_leading_space(lead, body);
}

proof fn lemma_leading_space(lead: Seq<char>, body: Seq<char>)
    requires
        all_space(lead),
    ensures
        words(lead + body) == words(body),
    decreases lead.len(),
{
    if lead.len() == 0 {
        assert(lead + body =~= body);
    } else {
        assert(is_space(lead[0]));
        assert((lead + body).skip(1) =~= lead.skip(1) + body);
        assert forall|i: int| 0 <= i < lead.skip(1).len() implies is_space(#[trigger] lead.skip(1)[i]) by {
            assert(lead.skip(1)[i] == lead[i + 1]);
        }
        lemma_leading_space(lead.skip(1), body);
    }
}

/// Where no prefixes are ignored, the number of words alone decides, however
/// many there are.
pub proof fn words_alone_decide_without_prefixes(config: ResolvedView, ws: Seq<Seq<char>>)
    requires
        config.ignore_prefixes.len() == 0,
        forall|i: int| 0 <= i < ws.len() ==> (#[trigger] ws[i]).len() > 0,
        forall|i: int, k: int| 0 <= i < ws.len() && 0 <= k < ws[i].len() ==> !is_space(#[trigger] ws[i][k]),
    ensures
        config.evaluates(joined(ws, ' ')) <==> ws.len() >= config.min_words,
{
    assert forall|i: int| 0 <= i < ws.len() implies is_word(#[trigger] ws[i]) by {
        assert forall|k: int| 0 <= k < ws[i].len() implies !is_space(#[trigger] ws[i][k]) by {}
    }
    lemma_words_of_joined(ws);
}

/// Words added behind a comment never hold it back, unless they make up a
/// prefix that it had only the beginning of.
pub proof fn more_words_do_not_hold_a_comment_back(config: ResolvedView, a: Seq<char>, b: Seq<char>)
    requires
        config.evaluates(a),
        forall|i: int|
            0 <= i < config.ignore_prefixes.len() ==> !(#[trigger] config.ignore_prefixes[i]).is_prefix_of(
                trim_start(a.push(' ') + b),
            ),
    ensures
        config.evaluates(a.push(' ') + b),
{
    lemma_words_joined(a, b);
}

/// A rule goes by its own threshold where it has one, and by that of the file
/// otherwise.
pub proof fn own_threshold_comes_first(config: ResolvedView, rule: RuleView)
    ensures
        rule.threshold is Some ==> config.threshold_for(rule) == rule.threshold->0,
        rule.threshold is None ==> config.threshold_for(rule) == config.threshold,
{
}

/// A layer says what its fields hold.
pub proof fn layer_says_its_fields(layer: ConfigFile)
    ensures
        layer@.disable == views(layer.disable@),
        layer@.enable == views(layer.enable@),
        layer@.rules == layer.rules@,
        layer@.threshold == layer.threshold,
        layer@.min_words == layer.min_words,
        layer@.model is Some == layer.model is Some,
        layer.model is Some ==> layer@.model->0 == layer.model->0@,
        layer@.ignore_prefixes is Some == layer.ignore_prefixes is Some,
        layer.ignore_prefixes is Some ==> layer@.ignore_prefixes->0 == views(layer.ignore_prefixes->0@),
{
}

/// A rule says what its fields hold.
pub proof fn rule_says_its_fields(rule: Rule)
    ensures
        rule@.instructions == rule.instructions@,
        rule@.criteria.yes == rule.criteria.yes@,
        rule@.criteria.no == rule.criteria.no@,
        rule@.threshold == rule.threshold,
{
}

/// A resolved configuration says what its fields hold.
pub proof fn resolved_says_its_fields(config: Resolved)
    ensures
        config@.rules == config.rules@,
        config@.threshold == config.threshold,
        config@.model == config.model@,
        config@.min_words == config.min_words,
        config@.ignore_prefixes == views(config.ignore_prefixes@),
{
}

/// A configuration is valid exactly when the instructions of each of its rules
/// hold a character that is no white space, and every threshold that is set is
/// at least zero and at most one.
pub proof fn valid_means_prose_and_thresholds_in_range(config: ConfigView)
    ensures
        config.valid() <==> {
            &&& forall|id: Seq<char>|
                #[trigger] config.rules.dom().contains(id) ==> !all_space(config.rules[id].instructions)
            &&& forall|id: Seq<char>|
                #[trigger] config.rules.dom().contains(id) && config.rules[id].threshold is Some ==> (
                config.rules[id].threshold->0).in_unit()
            &&& config.threshold is Some ==> (config.threshold->0).in_unit()
        },
{
    assert forall|id: Seq<char>| #[trigger] config.rules.dom().contains(id) implies (rule_fault(
        id,
        config.rules[id],
    ) is None <==> !all_space(config.rules[id].instructions) && (config.rules[id].threshold is Some ==> (
    config.rules[id].threshold->0).in_unit())) by {
        trimmed_space_is_empty(config.rules[id].instructions);
    }
}

/// Behind rules without a fault, the first that has one is named: for blank
/// instructions first, then for its threshold.
pub proof fn first_fault_is_named(ids: Seq<Seq<char>>, rules: Map<Seq<char>, RuleView>, i: int)
    requires
        0 <= i < ids.len(),
        forall|k: int|
            #![trigger ids[k]]
            0 <= k < i ==> !all_space(rules[ids[k]].instructions) && (rules[ids[k]].threshold is Some ==> (
            rules[ids[k]].threshold->0).in_unit()),
    ensures
        all_space(rules[ids[i]].instructions) ==> first_rule_fault(ids, rules) == Some(
            Fault::EmptyInstructions(ids[i]),
        ),
        !all_space(rules[ids[i]].instructions) && rules[ids[i]].threshold is Some && !(
        rules[ids[i]].threshold->0).in_unit() ==> first_rule_fault(ids, rules) == Some(
            Fault::RuleThreshold(ids[i], rules[ids[i]].threshold->0),
        ),
    decreases i,
{
    trimmed_space_is_empty(rules[ids[0]].instructions);
    if i > 0 {
        assert forall|k: int| #![trigger ids.skip(1)[k]] 0 <= k < i - 1 implies !all_space(
            rules[ids.skip(1)[k]].instructions,
        ) && (rules[ids.skip(1)[k]].threshold is Some ==> (rules[ids.skip(1)[k]].threshold->0).in_unit()) by {
            assert(ids.skip(1)[k] == ids[k + 1]);
        }
        assert(ids.skip(1)[i - 1] == ids[i]);
        first_fault_is_named(ids.skip(1), rules, i - 1);
    }
}

/// The threshold of the file is held against the range once no rule has a
/// fault.
pub proof fn threshold_of_the_file_comes_last(config: ConfigFile)
    ensures
        first_rule_fault(config.rules.ids(), config.rules@) is Some ==> config.first_fault() == first_rule_fault(
            config.rules.ids(),
            config.rules@,
        ),
        first_rule_fault(config.rules.ids(), config.rules@) is None && config.threshold is Some && !(
        config.threshold->0).in_unit() ==> config.first_fault() == Some(Fault::Threshold(config.threshold->0)),
{
}

/// A setting of the nearest layer holds; one that it leaves out is what the
/// outer layers come to.
pub proof fn settings_of_the_nearest_layer_hold(outer: Seq<ConfigView>, nearest: ConfigView)
    ensures
        ({
            let before = resolved(outer);
            let after = resolved(outer.push(nearest));
            &&& nearest.threshold is Some ==> after.threshold == nearest.threshold->0
            &&& nearest.threshold is None ==> after.threshold == before.threshold
            &&& nearest.model is Some ==> after.model == nearest.model->0
            &&& nearest.model is None ==> after.model == before.model
            &&& nearest.min_words is Some ==> after.min_words == nearest.min_words->0
            &&& nearest.min_words is None ==> after.min_words == before.min_words
            &&& nearest.ignore_prefixes is Some ==> after.ignore_prefixes == nearest.ignore_prefixes->0
            &&& nearest.ignore_prefixes is None ==> after.ignore_prefixes == before.ignore_prefixes
        }),
{
    assert(outer.push(nearest).drop_last() =~= outer);
}

/// A rule that the nearest layer defines is on as it is defined there, unless
/// the layer disables it and does not enable it. One that it neither defines,
/// disables nor enables is as the outer layers have it. One that it disables
/// and does not enable is off.
pub proof fn nearest_layer_decides_on_each_rule(outer: Seq<ConfigView>, nearest: ConfigView, id: Seq<char>)
    ensures
        ({
            let before = resolved(outer).rules;
            let after = resolved(outer.push(nearest)).rules;
            &&& nearest.rules.dom().contains(id) && (nearest.enable.contains(id) || !nearest.disable.contains(id))
                ==> after.dom().contains(id) && after[id] == nearest.rules[id]
            &&& !nearest.rules.dom().contains(id) && !nearest.enable.contains(id) && !nearest.disable.contains(id) ==> (
            after.dom().contains(id) <==> before.dom().contains(id))
            &&& !nearest.rules.dom().contains(id) && before.dom().contains(id) && (nearest.enable.contains(id)
                || !nearest.disable.contains(id)) ==> after.dom().contains(id) && after[id] == before[id]
            &&& nearest.disable.contains(id) && !nearest.enable.contains(id) ==> !after.dom().contains(id)
        }),
{
    assert(outer.push(nearest).drop_last() =~= outer);
}

/// Without any layer there are no rules, and the settings are the defaults.
pub proof fn defaults_hold_without_a_layer()
    ensures
        resolved(Seq::empty()).rules == Map::<Seq<char>, RuleView>::empty(),
        resolved(Seq::empty()).threshold.bits == 0x3fe0_0000_0000_0000,
        resolved(Seq::empty()).model == "jev-latest"@,
        resolved(Seq::empty()).min_words == 3,
        resolved(Seq::empty()).ignore_prefixes == Seq::<Seq<char>>::empty(),
{
    assert(resolved(Seq::empty()).rules =~= Map::<Seq<char>, RuleView>::empty());
}

/// A configuration file may have these keys and no others.
pub proof fn known_keys_are_the_settings(key: Seq<char>)
    ensures
        config_keys().contains(key) <==> key == "disable"@ || key == "enable"@ || key == "rules"@ || key == "threshold"@
            || key == "model"@ || key == "min_words"@ || key == "ignore_prefixes"@,
{
    let all = config_keys();
    assert(all[0] == "disable"@ && all[1] == "enable"@ && all[2] == "rules"@ && all[3] == "threshold"@);
    assert(all[4] == "model"@ && all[5] == "min_words"@ && all[6] == "ignore_prefixes"@);
}

/// A rule that was defined in an outer layer, on or off there, is on again where
/// the nearest layer enables it.
pub proof fn enabled_rule_is_on_again(outer: Seq<ConfigView>, nearest: ConfigView, id: Seq<char>, i: int)
    requires
        0 <= i < outer.len(),
        outer[i].rules.dom().contains(id),
        nearest.enable.contains(id),
    ensures
        resolved(outer.push(nearest)).rules.dom().contains(id),
{
    assert(outer.push(nearest).drop_last() =~= outer);
    lemma_defined_is_known(outer, id, i);
}

proof fn lemma_defined_is_known(layers: Seq<ConfigView>, id: Seq<char>, i: int)
    requires
        0 <= i < layers.len(),
        layers[i].rules.dom().contains(id),
    ensures
        applied(layers).known.dom().contains(id),
    decreases layers.len(),
{
    if i < layers.len() - 1 {
        assert(layers.drop_last()[i] == layers[i]);
        lemma_defined_is_known(layers.drop_last(), id, i);
    }
}

/// Layers are seen by what they say.
pub proof fn views_are_the_layers(layers: Seq<ConfigFile>)
    ensures
        layer_views(layers).len() == layers.len(),
        forall|i: int| 0 <= i < layers.len() ==> #[trigger] layer_views(layers)[i] == layers[i]@,
{
}

/// A fault names the rule and the threshold that it is about.
pub proof fn fault_says_its_fields(id: String, threshold: Score)
    ensures
        ConfigError::EmptyInstructions(id)@ == Fault::EmptyInstructions(id@),
        ConfigError::RuleThreshold(id, threshold)@ == Fault::RuleThreshold(id@, threshold),
        ConfigError::Threshold(threshold)@ == Fault::Threshold(threshold),
{
}

} // verus!
