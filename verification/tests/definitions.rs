use markdown_core::definitions::{group_description, validate_names, NameCollision, Plugin};

#[test]
fn selected_declarations_share_groups_but_not_sibling_names() {
    let generic = Plugin::group("generic");
    let first = generic.new("math");
    let other = generic.new("math");
    let marks = generic.new("marks");

    assert!(validate_names(&[&first, &marks]).is_ok());
    assert!(validate_names(&[&other]).is_ok());

    assert_eq!(
        validate_names(&[&first, &other]),
        Err(NameCollision {
            scope: "generic".into(),
            name: "math".into()
        }),
    );

    assert_eq!(
        validate_names(&[&first, &first]),
        validate_names(&[&first, &other])
    );

    assert!(validate_names(&[]).is_ok());
}

#[test]
fn scope_uses_parent_identity_not_a_joined_display_path() {
    let root = Plugin::group("generic");
    let one = root.group("one");
    let two = root.group("two");
    let left = one.new("math");
    let right = two.new("math");

    assert!(validate_names(&[&left, &right]).is_ok());
    assert!(validate_names(&[&left, &Plugin::new("generic/one/math")]).is_ok());

    assert_eq!(
        validate_names(&[&left, &one.new("math")]),
        Err(NameCollision {
            scope: "generic/one".into(),
            name: "math".into()
        }),
    );

    // Distinct group instances with equal names collide when both are selected.
    let unrelated = Plugin::group("generic").new("other");
    assert_eq!(
        validate_names(&[&left, &unrelated]),
        Err(NameCollision {
            scope: "<root>".into(),
            name: "generic".into()
        }),
    );

    // Groups and plugins occupy the same display namespace.
    assert_eq!(
        validate_names(&[&left, &root.new("one")]),
        Err(NameCollision {
            scope: "generic".into(),
            name: "one".into()
        }),
    );
}

#[test]
fn names_are_required_labels_and_identity_is_shared_only_by_cloning() {
    let group = Plugin::group("CommonMark / Markdown");
    let nested = group.group("HTML @ syntax");
    let plugin = nested.new("Core");
    assert_eq!(group.name(), "CommonMark / Markdown");
    assert_eq!(nested.name(), "HTML @ syntax");
    assert_eq!(plugin.name(), "Core");
    assert!(plugin.same(&plugin.clone()));
    assert!(!plugin.same(&nested.new("Core")));
    assert!(!group.same(&Plugin::group(group.name())));
    assert!(plugin.namespace().unwrap().same(&nested));
    assert!(nested.parent().unwrap().same(&group));
    assert!(group.parent().is_none());
    assert!(Plugin::new("Root").namespace().is_none());
    drop(group);
    drop(nested);
    assert_eq!(
        plugin.namespace().unwrap().parent().unwrap().name(),
        "CommonMark / Markdown"
    );
    assert!(format!("{plugin:?}").contains("CommonMark / Markdown"));
}

#[test]
fn group_descriptions_join_names_from_the_outermost_group() {
    let root = Plugin::group("generic");
    let nested = root.group("one").group("two");
    assert_eq!(group_description(&root), "generic");
    assert_eq!(group_description(&nested), "generic/one/two");
    assert_eq!(group_description(&Plugin::group("a/b").group("c")), "a/b/c");
}

#[test]
fn collisions_report_the_later_declaration_and_unselected_groups_do_not_count() {
    let root = Plugin::group("generic");
    let a = root.group("shared");
    let b = root.group("shared");
    // Only `a` is reached through a selected plugin, so the sibling group `b`
    // named alike does not take part.
    assert!(validate_names(&[&a.new("x")]).is_ok());
    assert_eq!(
        validate_names(&[&a.new("x"), &b.new("y")]),
        Err(NameCollision {
            scope: "generic".into(),
            name: "shared".into()
        }),
    );
    let p = Plugin::new("solo");
    let q = Plugin::new("solo");
    assert_eq!(
        validate_names(&[&p, &q]),
        Err(NameCollision {
            scope: "<root>".into(),
            name: "solo".into()
        }),
    );
}

#[test]
fn equal_names_in_equal_namespaces_always_collide() {
    let left = Plugin::group("generic").group("nested");
    let right = Plugin::group("generic").group("nested");
    let a = left.new("math");
    let b = right.new("math");
    assert_eq!(
        validate_names(&[&a, &b]),
        Err(NameCollision { scope: "<root>".into(), name: "generic".into() })
    );
    let c = left.new("math");
    assert_eq!(
        validate_names(&[&a, &c]),
        Err(NameCollision { scope: "generic/nested".into(), name: "math".into() })
    );
}
