use pyxel_core::scene::{NodeTree, Scene};

#[test]
fn test_collect_destroyed_post_order_returns_leaves_before_parents() {
    let mut tree = NodeTree::new();
    let scene = tree.add_node();
    let mid = tree.add_node();
    let leaf = tree.add_node();
    tree.add_child(scene, mid);
    tree.add_child(mid, leaf);

    tree.destroy(mid);
    let collected = Scene::collect_destroyed_post_order(&tree, scene);
    assert_eq!(collected.len(), 2);
    // leaf first (post-order = children before parent)
    assert_eq!(collected[0], leaf);
    assert_eq!(collected[1], mid);
}

#[test]
fn test_detach_destroyed_consumes_root_notification() {
    let mut tree = NodeTree::new();
    let scene = tree.add_node();
    tree.destroy(scene);
    Scene::detach_destroyed(&mut tree, scene);
    assert!(tree.nodes[scene].destroyed);
    assert!(Scene::collect_destroyed_post_order(&tree, scene).is_empty());
}

#[test]
fn destroy_notification_is_taken_once() {
    let mut tree = NodeTree::new();
    let node = tree.add_node();
    assert!(!Scene::take_destroy_notification(&mut tree, node));
    tree.destroy(node);
    assert!(Scene::take_destroy_notification(&mut tree, node));
    assert!(!Scene::take_destroy_notification(&mut tree, node));
}

#[test]
fn detached_destroyed_child_leaves_its_parent() {
    let mut tree = NodeTree::new();
    let root = tree.add_node();
    let a = tree.add_node();
    let b = tree.add_node();
    tree.add_child(root, a);
    tree.add_child(root, b);
    tree.destroy(a);
    Scene::detach_destroyed(&mut tree, a);
    assert_eq!(tree.nodes[root].children, vec![b]);
    assert_eq!(tree.nodes[a].parent, None);
    assert!(Scene::collect_destroyed_post_order(&tree, root).is_empty());
}

#[test]
fn add_child_moves_node_between_parents() {
    let mut tree = NodeTree::new();
    let p1 = tree.add_node();
    let p2 = tree.add_node();
    let c = tree.add_node();
    tree.add_child(p1, c);
    tree.add_child(p2, c);
    assert!(tree.nodes[p1].children.is_empty());
    assert_eq!(tree.nodes[p2].children, vec![c]);
    assert_eq!(tree.nodes[c].parent, Some(p2));
}

#[test]
fn tags_match_any_common_tag() {
    let mut tree = NodeTree::new();
    let n = tree.add_node();
    tree.nodes[n].tags = vec!["enemy".to_string(), "flying".to_string()];
    assert!(Scene::tags_match(&tree, n, None));
    let wanted = vec!["ground".to_string(), "flying".to_string()];
    assert!(Scene::tags_match(&tree, n, Some(&wanted)));
    let other = vec!["ground".to_string()];
    assert!(!Scene::tags_match(&tree, n, Some(&other)));
    let none: Vec<String> = Vec::new();
    assert!(!Scene::tags_match(&tree, n, Some(&none)));
}

#[test]
fn contact_group_follows_links_to_root() {
    let groups = vec![0, 0, 1, 3, 3];
    assert_eq!(pyxel_core::scene::contact_group(&groups, 2), 0);
    assert_eq!(pyxel_core::scene::contact_group(&groups, 4), 3);
    assert_eq!(pyxel_core::scene::contact_group(&groups, 0), 0);
}
