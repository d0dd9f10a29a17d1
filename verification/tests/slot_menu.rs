use rpg::state::Keys;
use rpg::ui::MenuEntry;
use rpg::unused::{build_menu, menu_entries, DummyState, MenuState};

fn keys(up: bool, down: bool, select: bool, back: bool) -> Keys {
    Keys { up, down, select, back, confirm: false }
}

fn labels(entries: &[MenuEntry]) -> Vec<String> {
    entries.iter().map(|e| e.label.clone()).collect()
}

fn picked(entries: &[MenuEntry]) -> Vec<bool> {
    entries.iter().map(|e| e.selected).collect()
}

fn strings(v: &[&str]) -> Vec<String> {
    v.iter().map(|s| s.to_string()).collect()
}

#[test]
fn dummy_menu_starts_on_the_heroes() {
    let d = DummyState::new();
    assert_eq!(d.state.current, d.root);
    assert_eq!(d.state.selected_index, 0);
    let e = d.entries();
    assert_eq!(labels(&e), strings(&["hero_1", "hero_2"]));
    assert_eq!(picked(&e), vec![true, false]);
}

#[test]
fn dummy_menu_walks_down_to_the_targets() {
    let mut d = DummyState::new();
    d.update(&keys(false, true, false, false));
    assert_eq!(picked(&d.entries()), vec![false, true]);
    d.update(&keys(false, false, true, false));
    let e = d.entries();
    assert_eq!(labels(&e), strings(&["Fight", "Guard", "Item", "Flee"]));
    assert_eq!(picked(&e), vec![true, false, false, false]);
    d.update(&keys(false, false, true, false));
    assert_eq!(labels(&d.entries()), strings(&["suck", "peenor"]));
    d.update(&keys(false, true, true, false));
    assert_eq!(labels(&d.entries()), strings(&["hulk", "orc", "troll"]));
    // A target has no children: choosing it stays where it is.
    d.update(&keys(false, false, true, false));
    let e = d.entries();
    assert!(e.is_empty());
    let here = d.state.current;
    d.update(&keys(false, false, true, false));
    assert_eq!(d.state.current, here);
}

#[test]
fn dummy_menu_items_lead_to_targets() {
    let mut d = DummyState::new();
    d.update(&keys(false, false, true, false));
    d.update(&keys(false, true, false, false));
    d.update(&keys(false, true, false, false));
    assert_eq!(picked(&d.entries()), vec![false, false, true, false]);
    d.update(&keys(false, false, true, false));
    assert_eq!(labels(&d.entries()), strings(&["potion_1", "potion_2"]));
    d.update(&keys(false, false, true, false));
    assert_eq!(labels(&d.entries()), strings(&["hulk", "orc", "troll"]));
}

#[test]
fn dummy_menu_guard_and_flee_lead_nowhere() {
    let mut d = DummyState::new();
    d.update(&keys(false, false, true, false));
    d.update(&keys(false, true, true, false));
    assert!(d.entries().is_empty());
    d.update(&keys(false, false, false, true));
    assert_eq!(labels(&d.entries()), strings(&["Fight", "Guard", "Item", "Flee"]));
    assert_eq!(d.state.selected_index, 0);
    d.update(&keys(false, true, false, false));
    d.update(&keys(false, true, false, false));
    d.update(&keys(false, true, false, false));
    assert_eq!(d.state.selected_index, 3);
    d.update(&keys(false, false, true, false));
    assert!(d.entries().is_empty());
}

#[test]
fn dummy_menu_cursor_stops_at_the_ends() {
    let mut d = DummyState::new();
    d.update(&keys(true, false, false, false));
    assert_eq!(d.state.selected_index, 0);
    d.update(&keys(false, true, false, false));
    d.update(&keys(false, true, false, false));
    assert_eq!(d.state.selected_index, 1);
    // Up and down in one frame: up first, then down.
    d.update(&keys(true, true, false, false));
    assert_eq!(d.state.selected_index, 1);
}

#[test]
fn dummy_menu_back_from_the_root_stays() {
    let mut d = DummyState::new();
    d.update(&keys(false, true, false, false));
    d.update(&keys(false, false, false, true));
    assert_eq!(d.state.current, d.root);
    assert_eq!(d.state.selected_index, 1);
}

#[test]
fn dummy_menu_back_returns_to_parent() {
    let mut d = DummyState::new();
    d.update(&keys(false, true, true, false));
    d.update(&keys(false, false, true, false));
    d.update(&keys(false, false, false, true));
    assert_eq!(labels(&d.entries()), strings(&["Fight", "Guard", "Item", "Flee"]));
    d.update(&keys(false, false, false, true));
    assert_eq!(d.state.current, d.root);
    assert_eq!(labels(&d.entries()), strings(&["hero_1", "hero_2"]));
}

#[test]
fn build_menu_without_characters_has_only_the_root() {
    let (nodes, root) = build_menu(&[], &strings(&["a"]), &[], &strings(&["e"]));
    let st = MenuState { current: root, selected_index: 0 };
    assert!(menu_entries(&st, &nodes).is_empty());
}

#[test]
fn build_menu_lists_characters_in_order() {
    let chars = strings(&["ann", "bob", "cid"]);
    let (nodes, root) = build_menu(&chars, &[], &[], &[]);
    let mut st = MenuState { current: root, selected_index: 2 };
    let e = menu_entries(&st, &nodes);
    assert_eq!(labels(&e), chars);
    assert_eq!(picked(&e), vec![false, false, true]);
    st.select(&nodes);
    assert_eq!(labels(&menu_entries(&st, &nodes)), strings(&["Fight", "Guard", "Item", "Flee"]));
    // Without abilities, "Fight" leads nowhere.
    st.select(&nodes);
    assert!(menu_entries(&st, &nodes).is_empty());
    st.go_back(&nodes);
    st.go_back(&nodes);
    assert_eq!(st.current, root);
    st.move_down(&nodes);
    st.move_down(&nodes);
    st.move_down(&nodes);
    assert_eq!(st.selected_index, 2);
    st.move_up(&nodes);
    assert_eq!(st.selected_index, 1);
}
