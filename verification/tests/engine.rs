use markdown_core::engine::{
    duplicate, same_parent, validate, BuildError, Contribution, Phase, Plugin, PluginGroup,
};

fn dup(scope: &str, name: &str) -> Result<(), BuildError> {
    Err(BuildError::DuplicateName {
        scope: scope.into(),
        name: name.into(),
    })
}

#[test]
fn group_descriptions_follow_parents_and_label_anonymous_groups() {
    let root = Plugin::group().named("generic");
    let nested = root.group().named("github");
    assert_eq!(root.name(), Some("generic"));
    assert_eq!(nested.description(), "generic/github");
    assert_eq!(root.group().description(), "generic/<anonymous group>");
    assert_eq!(PluginGroup::default().description(), "<anonymous group>");
    assert!(nested.parent().unwrap().same(&root));
    assert!(root.parent().is_none());
}

#[test]
fn relabelled_groups_keep_their_identity() {
    let group = Plugin::group();
    let copy = group.clone().named("renamed");
    assert!(group.same(&copy));
    assert!(!group.same(&Plugin::group()));
    assert!(same_parent(None, None));
    assert!(same_parent(Some(&group), Some(&copy)));
    assert!(!same_parent(Some(&group), None));
}

#[test]
fn plugin_descriptions_include_their_group() {
    let group = Plugin::group().named("generic");
    let links = group.new().named("links");
    assert_eq!(links.description(), "generic/links");
    assert_eq!(Plugin::new().description(), "<anonymous plugin>");
    assert_eq!(group.new().description(), "generic/<anonymous plugin>");
    assert!(links.namespace().unwrap().same(&group));
    assert_eq!(links.name(), Some("links"));
}

#[test]
fn adding_rules_keeps_order_and_filters_by_phase() {
    let mut plugin = Plugin::new();
    plugin.add(Contribution::new(Phase::Inline, Some("a")));
    plugin.add(Contribution::new(Phase::Block, None));
    plugin.add(Contribution::new(Phase::Inline, Some("b")));
    let inline: Vec<Option<&str>> = plugin.inline_rules().iter().map(|r| r.name()).collect();
    assert_eq!(inline, vec![Some("a"), Some("b")]);
    assert_eq!(plugin.block_rules().len(), 1);
    assert_eq!(plugin.block_rules()[0].phase(), "block");
    assert!(plugin.text_rules().is_empty());
}

#[test]
fn editing_a_shared_plugin_gives_it_a_rule_list_of_its_own() {
    let mut plugin = Plugin::new().named("p");
    let snapshot = plugin.clone();
    assert!(plugin.same(&snapshot));
    plugin.add(Contribution::new(Phase::Text, None));
    assert!(!plugin.same(&snapshot));
    assert_eq!(snapshot.text_rules().len(), 0);
    assert_eq!(plugin.text_rules().len(), 1);
}

#[test]
fn rule_names_are_checked_per_plugin_and_phase() {
    for (named, expected_error) in [(true, true), (false, false)] {
        let mut plugin = Plugin::new().named("text");
        for _ in 0..2 {
            plugin.add(Contribution::new(Phase::Inline, if named { Some("rule") } else { None }));
        }
        assert_eq!(
            matches!(validate(&[plugin]), Err(BuildError::DuplicateName { .. })),
            expected_error
        );
    }
}

#[test]
fn repeated_rule_names_report_the_plugin_and_phase() {
    let group = Plugin::group().named("generic");
    let mut plugin = group.new().named("links");
    plugin.add(Contribution::new(Phase::Block, Some("rule")));
    plugin.add(Contribution::new(Phase::Inline, Some("rule")));
    assert!(validate(&[plugin.clone()]).is_ok());
    plugin.add(Contribution::new(Phase::Inline, Some("rule")));
    assert_eq!(validate(&[plugin]), dup("generic/links / inline", "rule"));
}

#[test]
fn name_checks_use_the_selected_shared_namespaces() {
    let root = Plugin::group().named("generic");
    let base = root.new().named("base");
    let duplicate_base = root.new().named("base");
    assert!(validate(&[base.clone()]).is_ok());
    assert_eq!(
        validate(&[base.clone(), duplicate_base]),
        dup("generic", "base")
    );

    // Same display name under distinct parent groups is allowed.
    let nested = root.group().named("nested");
    let nested_base = nested.new().named("base");
    assert!(validate(&[base.clone(), nested_base.clone()]).is_ok());

    // A separate, identically named root is a different symbol, and conflicts
    // only once it is actually included in the composition.
    let other = Plugin::group().named("generic");
    let another = other.new().named("another");
    assert!(validate(&[base.clone(), nested_base.clone()]).is_ok());
    assert_eq!(
        validate(&[base, nested_base, another]),
        dup("<root>", "generic")
    );
}

#[test]
fn unnamed_declarations_never_collide() {
    let group = Plugin::group();
    let a = group.new();
    let b = group.new();
    let c = Plugin::new();
    assert!(validate(&[a, b, c]).is_ok());
    assert_eq!(
        duplicate("scope".into(), "name"),
        BuildError::DuplicateName {
            scope: "scope".into(),
            name: "name".into()
        }
    );
}

#[test]
fn root_level_names_collide_whatever_the_groups() {
    let a = Plugin::new().named("x");
    let b = Plugin::new().named("x");
    assert_eq!(validate(&[a.clone(), b]), dup("<root>", "x"));
    let group = Plugin::group().named("x");
    let inside = group.new().named("inner");
    assert_eq!(validate(&[inside, a]), dup("<root>", "x"));
}

#[test]
fn relabelled_groups_describe_their_new_label() {
    let g = Plugin::group();
    let h = g.clone().named("x");
    assert!(g.name().is_none());
    assert_eq!(h.name(), Some("x"));
    assert!(h.same(&g));
    assert!(h.parent().is_none());
    assert_eq!(h.description(), "x");
    assert_eq!(g.description(), "<anonymous group>");
}
