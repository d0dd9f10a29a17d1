use rpg::menu::{Menu, Node};

#[test]
fn test_insert_root() {
    let mut menu = Menu::new();
    menu.insert_at("root", "node");

    assert!(menu.nodes.len() == 2 as usize);
}

#[test]
fn test_insert_at() {
    let mut menu = Menu::new();

    for hero_name in vec!["hero_1", "hero_2", "hero_3", "hero_4"] {
        menu.insert_at("root", hero_name);

        for action in vec!["Fight", "Guard", "Item", "Flee"] {
            menu.insert_at(hero_name, action);
        }

        for ability in vec!["a1", "a2", "a3", "a4"] {
            menu.insert_at_path(&["root", hero_name, "Fight"], ability);
        }
    }

    // 1 root + 4 heroes + 4 * 4 actions + 4 * 4 abilities = 5 + 32 = 37
    assert!(menu.nodes.len() == 37 as usize);
}

#[test]
fn new_menu_has_only_the_root() {
    let menu = Menu::new();
    assert_eq!(menu.root, 0);
    assert_eq!(menu.nodes.len(), 1);
    assert_eq!(menu.nodes[0].data, "root");
    assert_eq!(menu.nodes[0].parent, 0);
    assert!(menu.nodes[0].children.is_empty());
}

#[test]
fn nodes_know_their_parents() {
    let n = Node::new("a");
    assert_eq!(n.data, "a");
    assert_eq!(n.parent, 0);
    let m = Node::new_with_parent("b", 3);
    assert_eq!(m.data, "b");
    assert_eq!(m.parent, 3);
    assert!(m.children.is_empty());
}

#[test]
fn insert_at_links_child_and_parent() {
    let mut menu = Menu::new();
    menu.insert_at("root", "hero");
    menu.insert_at("hero", "Fight");
    assert_eq!(menu.nodes[0].children, vec![1]);
    assert_eq!(menu.nodes[1].children, vec![2]);
    assert_eq!(menu.nodes[2].parent, 1);
    assert_eq!(menu.nodes[2].data, "Fight");
}

#[test]
fn insert_at_goes_under_the_first_node_with_the_name() {
    let mut menu = Menu::new();
    menu.insert_at("root", "x");
    menu.insert_at("root", "x");
    menu.insert_at("x", "child");
    assert_eq!(menu.nodes[1].children, vec![3]);
    assert!(menu.nodes[2].children.is_empty());
}

#[test]
fn insert_at_path_follows_first_matching_children() {
    let mut menu = Menu::new();
    menu.insert_at_path(&["root"], "hero");
    menu.insert_at_path(&["root", "hero"], "Fight");
    menu.insert_at_path(&["root", "hero"], "Guard");
    menu.insert_at_path(&["root", "hero", "Guard"], "leaf");
    assert_eq!(menu.nodes.len(), 5);
    assert_eq!(menu.nodes[3].children, vec![4]);
    assert_eq!(menu.nodes[4].parent, 3);
}

#[test]
fn insert_only_replaces_a_root_at_zero() {
    let mut menu = Menu::new();
    menu.insert("first");
    assert_eq!(menu.root, 1);
    assert_eq!(menu.nodes.len(), 2);
    menu.insert("second");
    assert_eq!(menu.root, 1);
    assert_eq!(menu.nodes.len(), 2);
}

#[test]
fn a_path_keeps_its_node_after_more_inserts() {
    let mut menu = Menu::new();
    menu.insert_at_path(&["root"], "a");
    menu.insert_at_path(&["root", "a"], "b");
    let before = menu.nodes[1].children.clone();
    menu.insert_at_path(&["root"], "a");
    menu.insert_at_path(&["root", "a"], "c");
    // the path root/a still leads to node 1, now with both children
    assert_eq!(menu.nodes[1].children[0], before[0]);
    assert_eq!(menu.nodes[1].children.len(), 2);
    assert!(menu.nodes[3].children.is_empty());
}
