use markdown_core::builder::GrammarBuilder;
use markdown_core::engine::{BuildError, Contribution, Phase, Plugin};

fn names(builder: &GrammarBuilder) -> Vec<Option<String>> {
    builder.rules().iter().map(|r| r.name().map(|n| n.to_string())).collect()
}

fn plugin(name: &str, rules: &[&Contribution]) -> Plugin {
    let mut plugin = Plugin::new().named(name);
    for rule in rules {
        plugin.add((*rule).clone());
    }
    plugin
}

#[test]
fn a_plugin_is_added_once_and_a_refused_add_changes_nothing() {
    let a = Contribution::new(Phase::Inline, Some("a"));
    let first = plugin("first", &[&a]);
    let mut builder = GrammarBuilder::new();
    assert!(builder.add(&first).is_ok());
    assert_eq!(builder.add(&first.clone()).err(), Some(BuildError::Duplicate { element: "first".into() }));
    let again = plugin("again", &[&a]);
    assert_eq!(builder.add(&again).err(), Some(BuildError::Duplicate { element: "a".into() }));
    assert_eq!(builder.plugins().len(), 1);
    assert_eq!(names(&builder), vec![Some("a".to_string())]);
}

#[test]
fn a_rule_twice_in_one_plugin_is_a_duplicate_but_equal_looking_rules_are_not() {
    let anonymous = Contribution::new(Phase::Block, None);
    let twice = plugin("twice", &[&anonymous, &anonymous]);
    let mut builder = GrammarBuilder::new();
    assert_eq!(builder.add(&twice).err(), Some(BuildError::Duplicate { element: "<anonymous rule>".into() }));
    let distinct = plugin("distinct", &[&Contribution::new(Phase::Block, None), &Contribution::new(Phase::Block, None)]);
    assert!(builder.add(&distinct).is_ok());
    assert_eq!(builder.rules().len(), 2);
}

#[test]
fn removing_takes_out_the_plugin_and_its_rules_only() {
    let a = Contribution::new(Phase::Inline, Some("a"));
    let b = Contribution::new(Phase::Text, Some("b"));
    let c = Contribution::new(Phase::Block, Some("c"));
    let first = plugin("first", &[&a, &b]);
    let second = plugin("second", &[&c]);
    let mut builder = GrammarBuilder::new();
    builder.add(&first).unwrap().add(&second).unwrap();
    assert!(builder.remove(&first).is_ok());
    assert_eq!(names(&builder), vec![Some("c".to_string())]);
    assert_eq!(builder.remove(&first).err(), Some(BuildError::Missing { element: "first".into() }));
    assert_eq!(builder.plugins().len(), 1);
}

#[test]
fn before_moves_a_rule_to_its_anchor() {
    let a = Contribution::new(Phase::Inline, Some("a"));
    let b = Contribution::new(Phase::Inline, Some("b"));
    let c = Contribution::new(Phase::Inline, Some("c"));
    let mut builder = GrammarBuilder::new();
    builder.add(&plugin("p", &[&a, &b, &c])).unwrap();
    assert!(builder.before(&c, &a).is_ok());
    assert_eq!(names(&builder), vec![Some("c".to_string()), Some("a".to_string()), Some("b".to_string())]);
    assert!(builder.before(&c, &b).is_ok());
    assert_eq!(names(&builder), vec![Some("a".to_string()), Some("c".to_string()), Some("b".to_string())]);
    assert!(builder.before(&a, &a).is_ok());
    let missing = Contribution::new(Phase::Inline, Some("missing"));
    assert_eq!(builder.before(&a, &missing).err(), Some(BuildError::Missing { element: "missing".into() }));
    assert_eq!(builder.before(&missing, &a).err(), Some(BuildError::Missing { element: "missing".into() }));
    assert_eq!(names(&builder), vec![Some("a".to_string()), Some("c".to_string()), Some("b".to_string())]);
}

#[test]
fn building_sorts_rules_by_phase_and_dispatches_inline_rules_by_byte() {
    let x = Contribution::inline(b"x", Some("x"));
    let any = Contribution::inline(b"", Some("any"));
    let block = Contribution::new(Phase::Block, Some("block"));
    let text = Contribution::new(Phase::Text, Some("text"));
    let mut builder = GrammarBuilder::new();
    builder.add(&plugin("p", &[&x, &block, &any, &text])).unwrap();
    let grammar = builder.clone().build().unwrap();
    let inline: Vec<Option<&str>> = grammar.inline_rules().iter().map(|r| r.name()).collect();
    assert_eq!(inline, vec![Some("x"), Some("any")]);
    assert_eq!(grammar.block_rules().len(), 1);
    assert_eq!(grammar.text_rules()[0].name(), Some("text"));
    assert_eq!(grammar.candidates(b'x'), &[0, 1]);
    assert_eq!(grammar.candidates(b'y'), &[1]);
    assert_eq!(grammar.plugins().len(), 1);
    assert_eq!(names(&grammar.to_builder()), names(&builder));
}

#[test]
fn building_reports_plugins_that_share_a_name() {
    let mut builder = GrammarBuilder::new();
    builder.add(&plugin("math", &[])).unwrap();
    builder.add(&plugin("math", &[])).unwrap();
    assert_eq!(
        builder.build().err(),
        Some(BuildError::DuplicateName { scope: "<root>".into(), name: "math".into() })
    );
}

#[test]
fn the_description_lists_plugins_then_rules_by_phase() {
    let x = Contribution::inline(b"x", Some("x"));
    let block = Contribution::new(Phase::Block, Some("block"));
    let text = Contribution::new(Phase::Text, None);
    let mut builder = GrammarBuilder::new();
    builder.add(&plugin("p", &[&x, &block])).unwrap();
    builder.add(&plugin("q", &[&text])).unwrap();
    let expected = "plugin: p\nplugin: q\nblock: p/block\ninline: p/x\ntext: q/<anonymous rule>";
    assert_eq!(builder.describe(), expected);
    assert_eq!(builder.build().unwrap().describe(), expected);
    assert_eq!(GrammarBuilder::new().describe(), "");
}

#[test]
fn rejected_changes_leave_the_composition_as_it_was() {
    let rule = Contribution::inline(b"x", Some("x"));
    let base = plugin("base", &[&rule]);
    let mut builder = GrammarBuilder::new();
    builder.add(&base).unwrap();
    let original = builder.clone().build().unwrap();
    let duplicate = plugin("duplicate", &[&rule]);
    assert!(builder.add(&duplicate).is_err());
    let missing = Contribution::inline(b"x", None);
    assert!(builder.before(&rule, &missing).is_err());
    assert_eq!(builder.clone().build().unwrap().describe(), original.describe());
    let other = plugin("other", &[]);
    assert!(builder.remove(&other).is_err());
    assert_eq!(builder.build().unwrap().describe(), original.describe());
}
