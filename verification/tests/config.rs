//! Configuration files, layers and the directories they apply to.

use commentlint::config::{
    first_unknown_key, is_config_key, resolve, validate, ConfigError, ConfigFile, Criteria, Resolved, Rule, CONFIG_FILE_NAME, DEFAULT_THRESHOLD,
};
use commentlint::loader::{config_path, Loader, Lookup};
use commentlint::score::Score;

fn score(x: f64) -> Score {
    Score { bits: x.to_bits() }
}

fn rule(instructions: &str, yes: &str, no: &str, threshold: Option<f64>) -> Rule {
    Rule {
        instructions: instructions.to_string(),
        criteria: Criteria { yes: yes.to_string(), no: no.to_string() },
        threshold: threshold.map(score),
    }
}

fn texts(list: &[&str]) -> Vec<String> {
    list.iter().map(|s| s.to_string()).collect()
}

fn defaults() -> ConfigFile {
    let mut cfg = ConfigFile::default();
    cfg.threshold = Some(score(0.5));
    cfg.model = Some("jev-latest".to_string());
    cfg.min_words = Some(3);
    cfg.ignore_prefixes = Some(texts(&["noqa", "eslint-", "type:", "SPDX-"]));
    cfg.rules.insert(
        "active_voice".to_string(),
        rule(
            "Is the text written in the active voice?",
            "the grammatical subject of the sentence is the person or thing performing the action",
            "the grammatical subject of the sentence is the person or thing being acted upon",
            None,
        ),
    );
    cfg
}

fn string_list(value: &toml::Value) -> Result<Vec<String>, String> {
    let items = value.as_array().ok_or("not a list")?;
    items.iter().map(|v| v.as_str().map(|s| s.to_string()).ok_or("not a string".to_string())).collect()
}

fn number(value: &toml::Value) -> Result<Score, String> {
    value.as_float().or(value.as_integer().map(|i| i as f64)).map(score).ok_or("not a number".to_string())
}

fn read_rule(value: &toml::Value) -> Result<Rule, String> {
    let text = |v: Option<&toml::Value>| v.and_then(|v| v.as_str()).map(|s| s.to_string()).ok_or("missing".to_string());
    let criteria = value.get("criteria").ok_or("missing")?;
    Ok(Rule {
        instructions: text(value.get("instructions"))?,
        criteria: Criteria { yes: text(criteria.get("true"))?, no: text(criteria.get("false"))? },
        threshold: match value.get("threshold") {
            Some(t) => Some(number(t)?),
            None => None,
        },
    })
}

fn known_keys(keys: Vec<String>) -> Result<(), String> {
    match first_unknown_key(&keys) {
        Some(i) => Err(format!("unknown key {}", keys[i])),
        None => Ok(()),
    }
}

/// Reads a `.commentlint.toml` and checks it.
fn parse(contents: &str) -> Result<ConfigFile, String> {
    let table: toml::Table = contents.parse().map_err(|e| format!("{:?}", e))?;
    known_keys(table.keys().cloned().collect())?;
    let mut cfg = ConfigFile::default();
    for (key, value) in &table {
        match key.as_str() {
            "disable" => cfg.disable = string_list(value)?,
            "enable" => cfg.enable = string_list(value)?,
            "threshold" => cfg.threshold = Some(number(value)?),
            "min_words" => cfg.min_words = value.as_integer().map(|i| i as usize),
            "rules" => {
                for (id, r) in value.as_table().ok_or("not a table")? {
                    cfg.rules.insert(id.clone(), read_rule(r)?);
                }
            }
            other => panic!("{}", other),
        }
    }
    validate(&cfg).map_err(|e| format!("{:?}", e))?;
    Ok(cfg)
}

/// Reads YAML with the same schema and checks it.
fn parse_yaml(contents: &str) -> Result<ConfigFile, String> {
    let value: serde_yaml_ng::Value = serde_yaml_ng::from_str(contents).map_err(|e| format!("{:?}", e))?;
    let mut cfg = ConfigFile::default();
    let mapping = value.as_mapping().ok_or("not a mapping")?;
    known_keys(mapping.keys().map(|k| k.as_str().unwrap_or_default().to_string()).collect())?;
    cfg.threshold = mapping.get("threshold").and_then(|t| t.as_f64()).map(score);
    validate(&cfg).map_err(|e| format!("{:?}", e))?;
    Ok(cfg)
}

#[test]
fn embedded_defaults_define_active_voice() {
    let r = resolve(&[defaults()]);
    let rule = r.rules.get("active_voice").unwrap();
    assert_eq!(rule.instructions, "Is the text written in the active voice?");
    assert_eq!(r.threshold, score(0.5));
    assert_eq!(r.model, "jev-latest");
    assert_eq!(r.min_words, 3);
    assert!(r.ignore_prefixes.contains(&"noqa".to_string()));
}

#[test]
fn no_layers_means_no_rules() {
    let r = resolve(&[]);
    assert!(r.rules.is_empty());
    assert_eq!(r.threshold.bits, DEFAULT_THRESHOLD);
    assert_eq!(r.threshold, score(0.5));
    assert_eq!(r.model, "jev-latest");
    assert_eq!(r.min_words, 3);
    assert!(r.ignore_prefixes.is_empty());
}

#[test]
fn disable_then_reenable() {
    let outer = parse("disable = [\"active_voice\"]").unwrap();
    let inner = parse("enable = [\"active_voice\"]").unwrap();
    assert!(resolve(&[defaults(), outer.clone()]).rules.is_empty());
    let r = resolve(&[defaults(), outer, inner]);
    assert_eq!(r.rules.len(), 1);
    assert_eq!(r.rules.get("active_voice"), defaults().rules.get("active_voice"));
}

#[test]
fn nearest_layer_has_final_say() {
    let outer = parse("threshold = 0.9\nmin_words = 1").unwrap();
    let inner = parse("threshold = 0.2").unwrap();
    let r = resolve(&[defaults(), outer, inner]);
    assert_eq!(r.threshold, score(0.2));
    assert_eq!(r.min_words, 1);
    // A nearer layer can redefine a default rule wholesale.
    let override_rule =
        parse("[rules.active_voice]\ninstructions = \"Custom?\"\ncriteria = { true = \"y\", false = \"n\" }").unwrap();
    let r = resolve(&[defaults(), override_rule]);
    assert_eq!(r.rules.get("active_voice").unwrap().instructions, "Custom?");
}

#[test]
fn custom_rule_and_threshold() {
    let cfg = parse(
        r#"
threshold = 0.7
[rules.no_jargon]
instructions = "Is the text free of jargon?"
criteria = { true = "plain words", false = "jargon" }
threshold = 0.2
"#,
    )
    .unwrap();
    let r = resolve(&[defaults(), cfg]);
    assert_eq!(r.rules.len(), 2);
    let rule = r.rules.get("no_jargon").unwrap();
    assert_eq!(r.threshold_for(rule), score(0.2));
    assert_eq!(r.threshold_for(r.rules.get("active_voice").unwrap()), score(0.7));
}

#[test]
fn rejects_unknown_keys_and_bad_thresholds() {
    assert!(parse("bogus = 1").is_err());
    assert!(parse("threshold = 1.5").is_err());
    assert!(parse_yaml("threshold: 1.5").is_err());
    assert!(parse_yaml("bogus: 1").is_err());
}

#[test]
fn keys_are_those_of_the_schema() {
    let keys = ["disable", "enable", "rules", "threshold", "model", "min_words", "ignore_prefixes"];
    for key in keys {
        assert!(is_config_key(key));
    }
    assert!(!is_config_key("Threshold"));
    assert!(!is_config_key(""));
    assert_eq!(first_unknown_key(&texts(&keys)), None);
    assert_eq!(first_unknown_key(&texts(&["model", "bogus", "other"])), Some(1));
}

#[test]
fn resolved_configurations_compare() {
    assert_eq!(resolve(&[defaults()]), resolve(&[defaults(), ConfigFile::default()]));
    let nearer = parse("threshold = 0.2").unwrap();
    assert_ne!(resolve(&[defaults()]), resolve(&[defaults(), nearer]));
}

#[test]
fn skips_short_and_directive_comments() {
    let r = resolve(&[defaults()]);
    assert!(!r.should_evaluate("noqa: E501"));
    assert!(!r.should_evaluate("fixme"));
    assert!(r.should_evaluate("The cache holds parsed trees."));
}

#[test]
fn leading_space_does_not_hide_a_directive() {
    let r = resolve(&[defaults()]);
    assert!(!r.should_evaluate("   noqa this whole line"));
    assert!(r.should_evaluate("   see noqa for details"));
    assert!(!r.should_evaluate("two words"));
    assert!(r.should_evaluate("three\n\u{a0}words\there"));
}

#[test]
fn faults_are_reported_in_the_order_of_ids() {
    let mut cfg = ConfigFile::default();
    assert!(validate(&cfg).is_ok());
    cfg.threshold = Some(score(f64::NAN));
    assert!(matches!(validate(&cfg), Err(ConfigError::Threshold(_))));
    cfg.rules.insert("b".to_string(), rule("Q?", "y", "n", Some(-0.1)));
    match validate(&cfg) {
        Err(ConfigError::RuleThreshold(id, t)) => assert_eq!((id.as_str(), t), ("b", score(-0.1))),
        other => panic!("{:?}", other),
    }
    cfg.rules.insert("c".to_string(), rule("", "y", "n", None));
    assert!(matches!(validate(&cfg), Err(ConfigError::RuleThreshold(_, _))));
    cfg.rules.insert("a".to_string(), rule(" \n", "y", "n", None));
    match validate(&cfg) {
        Err(ConfigError::EmptyInstructions(id)) => assert_eq!(id, "a"),
        other => panic!("{:?}", other),
    }
}

#[test]
fn thresholds_may_be_zero_or_one() {
    let mut cfg = ConfigFile::default();
    for t in [0.0, -0.0, 1.0] {
        cfg.threshold = Some(score(t));
        assert!(validate(&cfg).is_ok());
    }
    for t in [-1e-9, 1.0000001, f64::INFINITY] {
        cfg.threshold = Some(score(t));
        assert!(validate(&cfg).is_err());
    }
}

#[test]
fn unknown_ids_are_not_enabled() {
    let mut cfg = ConfigFile::default();
    cfg.enable = texts(&["nobody", "active_voice"]);
    cfg.disable = texts(&["active_voice", "nothing"]);
    let r = resolve(&[defaults(), cfg.clone()]);
    assert_eq!(r.rules.len(), 1);
    assert!(r.rules.contains("active_voice"));
    let twice = resolve(&[defaults(), cfg.clone(), cfg]);
    assert_eq!(twice.rules.len(), 1);
}

#[test]
fn valid_layers_give_valid_thresholds() {
    let outer = parse("threshold = 1.0\nenable = [\"nobody\"]").unwrap();
    let inner =
        parse("[rules.r]\ninstructions = \"Q?\"\ncriteria = { true = \"y\", false = \"n\" }\nthreshold = 0.0").unwrap();
    let r = resolve(&[defaults(), outer, inner]);
    for i in 0..r.rules.len() {
        assert!(r.threshold_for(r.rules.value_at(i)).is_in_unit());
        assert!(!r.rules.value_at(i).instructions.trim().is_empty());
    }
    assert_eq!(r.threshold_for(r.rules.get("r").unwrap()), score(0.0));
    assert_eq!(r.threshold_for(r.rules.get("active_voice").unwrap()), score(1.0));
}

#[test]
fn silent_layers_change_nothing() {
    let r = resolve(&[defaults(), ConfigFile::default()]);
    assert_eq!(r.rules.len(), 1);
    assert_eq!(r.threshold, score(0.5));
    assert_eq!(r.ignore_prefixes.len(), 4);
}

/// Looks up a directory, reading configuration files out of `disk`.
fn load(loader: &mut Loader, file: &str, disk: &[(&str, ConfigFile)], reads: &mut Vec<String>) -> Resolved {
    for _ in 0..20 {
        match loader.for_file(file.as_bytes()) {
            Lookup::Ready(r) => return r,
            Lookup::Read(dir) => {
                let path = String::from_utf8(config_path(&dir)).unwrap();
                let found = disk.iter().find(|(p, _)| *p == path).map(|(_, c)| c.clone());
                reads.push(path);
                loader.record(dir, found);
            }
            Lookup::NoPath => panic!("no path"),
        }
    }
    panic!("no answer")
}

#[test]
fn configuration_is_read_from_the_root_down_and_once() {
    let outer = parse("threshold = 0.1\nmin_words = 1").unwrap();
    let inner = parse("disable = [\"active_voice\"]").unwrap();
    let disk = [("/w/.commentlint.toml", outer), ("/w/sub/.commentlint.toml", inner)];
    let mut loader = Loader::new(b"/w", b".", defaults());
    let mut reads = vec![];
    let r = load(&mut loader, "sub/deep/x.rs", &disk, &mut reads);
    assert_eq!(
        reads,
        vec!["/w/.commentlint.toml", "/w/sub/.commentlint.toml", "/w/sub/deep/.commentlint.toml"]
    );
    assert!(r.rules.is_empty());
    assert_eq!(r.threshold, score(0.1));
    reads.clear();
    let r = load(&mut loader, "./sub/../a.rs", &disk, &mut reads);
    assert!(reads.is_empty());
    assert_eq!(r.rules.len(), 1);
    assert_eq!(r.min_words, 1);
    let r = load(&mut loader, "sub/deep/y.rs", &disk, &mut reads);
    assert!(reads.is_empty());
    assert!(r.rules.is_empty());
}

#[test]
fn outside_the_root_one_file_applies() {
    let mut loader = Loader::new(b"/w/in", b".", defaults());
    let mut reads = vec![];
    load(&mut loader, "../out/x.rs", &[], &mut reads);
    load(&mut loader, "/other/x.rs", &[], &mut reads);
    load(&mut loader, "/", &[], &mut reads);
    assert_eq!(
        reads,
        vec!["/w/out/.commentlint.toml", "/other/.commentlint.toml", "/w/in/.commentlint.toml"]
    );
}

#[test]
fn empty_paths_lead_nowhere() {
    let mut loader = Loader::new(b"/w", b".", defaults());
    assert!(matches!(loader.for_dir(b""), Lookup::NoPath));
    assert!(matches!(loader.for_dir(b"."), Lookup::Read(_)));
    let mut rootless = Loader::new(b"/w", b"", defaults());
    assert!(matches!(rootless.for_dir(b"."), Lookup::NoPath));
    assert!(matches!(rootless.for_file(b"a"), Lookup::NoPath));
}

#[test]
fn first_reading_stays() {
    let mut loader = Loader::new(b"/", b"/", defaults());
    let dir = match loader.for_dir(b"/") {
        Lookup::Read(dir) => dir,
        other => panic!("{:?}", other),
    };
    assert_eq!(config_path(&dir), b"/.commentlint.toml".to_vec());
    loader.record(dir.clone(), None);
    loader.record(dir, Some(parse("disable = [\"active_voice\"]").unwrap()));
    match loader.for_dir(b"/") {
        Lookup::Ready(r) => assert_eq!(r.rules.len(), 1),
        other => panic!("{:?}", other),
    }
    assert_eq!(CONFIG_FILE_NAME, ".commentlint.toml");
}
