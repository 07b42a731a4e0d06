//! Reconciler scenarios: idempotent rebuild, in-place update on identity
//! match, full replace on identity change, keyed child add/remove.

use finview::component::{new_leaf, new_node, Component, ComponentID};
use finview::ewidget::{EWidget, ToKey, WidgetKey};
use finview::render::{create_widgets, Op, Renderer};

fn container(r: &mut Renderer) -> WidgetKey {
    let key = EWidget::MainWindow.to_key();
    r.set(key);
    EWidget::MainWindow.to_key()
}

fn leaf_with_label(tag: EWidget, id: &str, label: &str) -> Component {
    new_leaf((tag, id.to_string())).with_attributes(vec![(
        "label".to_string(),
        label.to_string(),
    )])
}

fn group_of(name: &str, children: Vec<Component>) -> Component {
    new_node(children, ComponentID::NodeID(name.to_string()))
}

#[test]
fn mount_creates_attaches_and_shows() {
    let mut r = create_widgets();
    let ck = container(&mut r);
    let tree = group_of("root", vec![leaf_with_label(EWidget::SignInButton, "signin", "Sign in")]);
    tree.render_diff(None, &ck, &mut r);
    let ops = r.take_ops();
    let mut creates = 0;
    let mut attaches = 0;
    for op in &ops {
        match op {
            Op::Create { key, .. } => {
                creates += 1;
                assert_eq!(key.tag, EWidget::SignInButton);
                assert_eq!(key.discr, "signin");
            },
            Op::Attach { .. } => attaches += 1,
            Op::Show { .. } => {},
            other => panic!("unexpected operation {:?}", other),
        }
    }
    assert_eq!(creates, 1);
    assert_eq!(attaches, 1);
    let signin_key = WidgetKey { tag: EWidget::SignInButton, discr: "signin".to_string() };
    assert!(r.lookup(&signin_key).is_some());
}

#[test]
fn idempotent_rebuild_performs_no_operations() {
    let mut r = create_widgets();
    let ck = container(&mut r);
    let tree1 = group_of("root", vec![leaf_with_label(EWidget::SignInButton, "signin", "Sign in")]);
    tree1.render_diff(None, &ck, &mut r);
    r.take_ops();
    let tree2 = group_of("root", vec![leaf_with_label(EWidget::SignInButton, "signin", "Sign in")]);
    tree2.render_diff(Some(&tree1), &ck, &mut r);
    let ops = r.take_ops();
    assert!(ops.is_empty(), "identical rebuild must perform zero operations, got {:?}", ops);
}

#[test]
fn matched_identity_updates_in_place() {
    let mut r = create_widgets();
    let ck = container(&mut r);
    let tree1 = group_of("root", vec![leaf_with_label(EWidget::SignInButton, "signin", "Sign in")]);
    tree1.render_diff(None, &ck, &mut r);
    r.take_ops();
    let signin_key = WidgetKey { tag: EWidget::SignInButton, discr: "signin".to_string() };
    let handle_before = r.lookup(&signin_key).unwrap();

    let tree2 = group_of(
        "root",
        vec![leaf_with_label(EWidget::SignInButton, "signin", "Signing in…")],
    );
    tree2.render_diff(Some(&tree1), &ck, &mut r);
    let ops = r.take_ops();
    assert_eq!(ops.len(), 1, "only an in-place update may occur, got {:?}", ops);
    match &ops[0] {
        Op::Update { handle, info } => {
            assert_eq!(*handle, handle_before);
            assert_eq!(info.attributes[0].1, "Signing in…");
        },
        other => panic!("expected an update, got {:?}", other),
    }
    let handle_after = r.lookup(&signin_key).unwrap();
    assert_eq!(handle_before, handle_after, "an unchanged key must reuse its handle");
}

#[test]
fn removed_child_is_detached_and_evicted_and_new_child_mounted() {
    let mut r = create_widgets();
    let ck = container(&mut r);
    let tree1 = group_of("root", vec![new_leaf((EWidget::TransRow, "tx1".to_string()))]);
    tree1.render_diff(None, &ck, &mut r);
    r.take_ops();
    let tx1 = WidgetKey { tag: EWidget::TransRow, discr: "tx1".to_string() };
    let tx2 = WidgetKey { tag: EWidget::TransRow, discr: "tx2".to_string() };
    let tx1_handle = r.lookup(&tx1).unwrap();

    let tree2 = group_of("root", vec![new_leaf((EWidget::TransRow, "tx2".to_string()))]);
    tree2.render_diff(Some(&tree1), &ck, &mut r);
    let ops = r.take_ops();

    let detached = ops.iter().any(|op| matches!(op, Op::Detach { child, .. } if *child == tx1_handle));
    let evicted = ops.iter().any(
        |op| matches!(op, Op::Evict { key, .. } if key.tag == EWidget::TransRow && key.discr == "tx1"),
    );
    let created = ops.iter().any(
        |op| matches!(op, Op::Create { key, .. } if key.tag == EWidget::TransRow && key.discr == "tx2"),
    );
    assert!(detached, "tx1 must be detached, got {:?}", ops);
    assert!(evicted, "tx1 must be evicted from the cache, got {:?}", ops);
    assert!(created, "tx2 must be mounted fresh, got {:?}", ops);
    assert!(r.lookup(&tx1).is_none(), "tx1 must no longer be cached");
    assert!(r.lookup(&tx2).is_some(), "tx2 must be cached");
}

#[test]
fn identity_change_replaces_the_whole_subtree() {
    let mut r = create_widgets();
    let ck = container(&mut r);
    let tree1 = group_of(
        "root",
        vec![new_node(
            vec![new_leaf((EWidget::SomeLabel, "inner".to_string()))],
            ComponentID::WidgetID(WidgetKey { tag: EWidget::TransBox, discr: "a".to_string() }),
        )],
    );
    tree1.render_diff(None, &ck, &mut r);
    r.take_ops();
    let old_box = WidgetKey { tag: EWidget::TransBox, discr: "a".to_string() };
    let old_inner = WidgetKey { tag: EWidget::SomeLabel, discr: "inner".to_string() };
    let old_inner_handle = r.lookup(&old_inner).unwrap();

    let tree2 = group_of(
        "root",
        vec![new_node(
            vec![new_leaf((EWidget::SomeLabel, "inner".to_string()))],
            ComponentID::WidgetID(WidgetKey { tag: EWidget::TransBox, discr: "b".to_string() }),
        )],
    );
    tree2.render_diff(Some(&tree1), &ck, &mut r);
    r.take_ops();

    assert!(r.lookup(&old_box).is_none(), "the old subtree root must be evicted");
    let new_box = WidgetKey { tag: EWidget::TransBox, discr: "b".to_string() };
    assert!(r.lookup(&new_box).is_some(), "the new subtree must be mounted");
    let new_inner_handle = r.lookup(&old_inner).unwrap();
    assert_ne!(
        old_inner_handle, new_inner_handle,
        "a replaced subtree is rebuilt fresh, never patched"
    );
}

#[test]
fn checkout_removes_entry_and_checkin_restores_it() {
    let mut r = create_widgets();
    let ck = container(&mut r);
    let tree = group_of("root", vec![new_leaf((EWidget::TransRow, "tx1".to_string()))]);
    tree.render_diff(None, &ck, &mut r);
    r.take_ops();
    let tx1 = WidgetKey { tag: EWidget::TransRow, discr: "tx1".to_string() };
    let h = r.lookup(&tx1).unwrap();

    let (h2, lease) = r.checkout(&tx1).unwrap();
    assert_eq!(h, h2);
    assert!(r.lookup(&tx1).is_none(), "a checked-out entry is absent from the cache");
    assert!(r.checkout(&tx1).is_none(), "no second caller can obtain the same widget");
    r.checkin(lease, h2);
    assert_eq!(r.lookup(&tx1), Some(h), "checkin restores the entry");
}

#[test]
fn registry_covers_the_application_classes() {
    let r = create_widgets();
    assert!(r.is_registered(EWidget::SignInButton));
    assert!(r.is_registered(EWidget::MainWindow));
    assert!(r.is_registered(EWidget::SomeLabel));
    assert!(r.is_registered(EWidget::LabelFrame));
    assert!(!r.is_registered(EWidget::SignInLabel));
}

#[test]
fn empty_group_only_shows_the_container() {
    let mut r = create_widgets();
    let ck = container(&mut r);
    let tree = Component::empty("nothing");
    tree.render_diff(None, &ck, &mut r);
    let ops = r.take_ops();
    assert_eq!(ops.len(), 1, "a bare grouping mounts no widget, got {:?}", ops);
    assert!(matches!(ops[0], Op::Show { .. }), "only the container becomes visible");
}

#[test]
fn modifiers_on_a_grouping_node_change_nothing() {
    let c = Component::empty("g")
        .with_attributes(vec![("label".to_string(), "x".to_string())])
        .with_callback("clicked", finview::ewidget::CallbackId::GetTrans);
    assert!(c.widget.is_none(), "a grouping node has no descriptor to modify");
    assert!(c.children.is_empty());
}
