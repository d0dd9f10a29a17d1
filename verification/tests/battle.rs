use rpg::ability::{Ability, AbilityType};
use rpg::action::{Action, ActionType, PendingAction, ResolveError};
use rpg::characters::{Buff, Character, CharacterState, Party, Stats, MAX_ACTION_POINTS};
use rpg::menu::Menu;
use rpg::state::{Battle, EnemyError, GameState, Keys, MainState, Overworld, TickError};
use rpg::text::{fill_placeholder, name_then, same_text};
use rpg::ui::{DialogueBox, MenuState, Ui};

fn character(id: u32, name: &str, abilities: &[&str], stats: Stats) -> Character {
    Character::new(id, name, abilities.iter().map(|a| a.to_string()).collect(), name, stats)
}

fn ability(name: &str, kind: AbilityType, power: u32, buff: Option<Buff>, message: &str) -> Ability {
    let mut a = Ability::new_empty(name);
    a.ability_type = kind;
    a.power = power;
    a.buff = buff;
    a.message = message.to_string();
    a
}

fn abilities() -> Vec<Ability> {
    vec![
        ability("Slash", AbilityType::Damage, 5, None, "{} slashes!"),
        ability("Cure", AbilityType::Heal, 20, None, "{} heals"),
        ability("Cheer", AbilityType::Buff, 0, Some(Buff::Attack(2)), "{} cheers {}"),
        ability("Hex", AbilityType::Status, 0, None, "{} hexes"),
    ]
}

fn heroes() -> Party {
    Party::from_characters(vec![
        character(1, "Ann", &["Slash", "Cure", "Cheer"], Stats::new(100, 10, 3, 500)),
        character(2, "Bo", &["Slash"], Stats::new(80, 8, 2, 100)),
    ])
}

fn enemies() -> Party {
    Party::from_characters(vec![
        character(10, "Orc", &["Slash"], Stats::new(50, 6, 4, 1)),
        character(11, "Imp", &["Hex"], Stats::new(30, 4, 1, 1)),
    ])
}

fn fight(actor: &str, ability_name: &str, target: &str) -> Action {
    let mut p = PendingAction::new();
    p.actor(actor.to_string()).action_type(ActionType::Fight).ability(ability_name.to_string()).target(target.to_string());
    p.build(&abilities())
}

#[test]
fn text_helpers() {
    assert!(same_text(&"abc".to_string(), "abc"));
    assert!(!same_text(&"abc".to_string(), "abd"));
    assert_eq!(fill_placeholder(&"{} hits {}!".to_string(), &"Ann".to_string()), "Ann hits Ann!");
    assert_eq!(fill_placeholder(&"no place".to_string(), &"Ann".to_string()), "no place");
    assert_eq!(fill_placeholder(&"{{}}".to_string(), &"x".to_string()), "{x}");
    assert_eq!(
        fill_placeholder(&"{}".to_string(), &"x".to_string()),
        "{}".replace("{}", "x")
    );
    assert_eq!(name_then(&"Bo".to_string(), " is guarding!"), "Bo is guarding!");
}

#[test]
fn dialogue_box_keeps_two_lines_newest_first() {
    let mut d = DialogueBox::new();
    assert_eq!(d.text_lines, vec![String::new(), String::new()]);
    d.notify("one");
    d.notify("two");
    d.notify("three");
    assert_eq!(d.text_lines, vec!["three".to_string(), "two".to_string()]);
}

#[test]
fn building_takes_every_choice() {
    let mut p = Action::new();
    p.actor("Ann".to_string()).action_type(ActionType::Fight).ability("Cure".to_string());
    let a = p.build(&abilities());
    assert_eq!(a.action_type, ActionType::Fight);
    assert_eq!(a.actor, "Ann");
    assert!(a.target.is_none());
    assert_eq!(a.ability.as_ref().map(|ab| ab.power), Some(20));
    assert!(p.action_type.is_none() && p.actor.is_none() && p.target.is_none() && p.ability.is_none());
}

#[test]
fn a_damaging_fight_hits_the_target() {
    let mut fp = heroes();
    let mut ep = enemies();
    let mut d = DialogueBox::new();
    fp.member_mut(0).state = CharacterState::Guarding;
    fight("Ann", "Slash", "Orc").resolve(&mut fp, &mut ep, &mut d);
    // attack 10 + power 5 = 15, less defense 4
    assert_eq!(ep.member(0).health, 39);
    assert_eq!(fp.member(0).state, CharacterState::Default);
    assert_eq!(d.text_lines, vec!["Orc takes a hit!".to_string(), "Ann slashes!".to_string()]);
}

#[test]
fn heal_and_buff_go_to_a_friend() {
    let mut fp = heroes();
    let mut ep = enemies();
    let mut d = DialogueBox::new();
    fp.member_mut(1).take_damage(52);
    assert_eq!(fp.member(1).health, 30);
    fight("Ann", "Cure", "Bo").resolve(&mut fp, &mut ep, &mut d);
    assert_eq!(fp.member(1).health, 50);
    assert_eq!(d.text_lines[0], "Ann heals");
    fight("Ann", "Cheer", "Ann").resolve(&mut fp, &mut ep, &mut d);
    assert_eq!(fp.member(0).buffs, vec![Buff::Attack(2)]);
    assert_eq!(d.text_lines[0], "Ann cheers Ann");
    fight("Ann", "Cheer", "Bo").resolve(&mut fp, &mut ep, &mut d);
    assert_eq!(fp.member(1).buffs, vec![Buff::Attack(2)]);
}

#[test]
fn status_changes_nothing_yet() {
    let mut fp = heroes();
    let mut ep = enemies();
    let mut d = DialogueBox::new();
    fight("Ann", "Hex", "Imp").resolve(&mut fp, &mut ep, &mut d);
    assert_eq!(ep.member(1).health, 30);
    assert_eq!(d.text_lines, vec![String::new(), String::new()]);
}

#[test]
fn guard_item_and_flee() {
    let mut fp = heroes();
    let mut ep = enemies();
    let mut d = DialogueBox::new();
    for (kind, line) in [
        (ActionType::Guard, "Bo is guarding!"),
        (ActionType::Item, "Bo used an item!"),
        (ActionType::Flee, "Bo is trying to flee!"),
    ] {
        let mut p = PendingAction::new();
        p.actor("Bo".to_string()).action_type(kind);
        p.build(&abilities()).resolve(&mut fp, &mut ep, &mut d);
        assert_eq!(d.text_lines[0], line);
    }
    assert_eq!(fp.member(1).state, CharacterState::Default);
}

#[test]
fn every_resolve_error_has_its_input() {
    let mut fp = heroes();
    let mut ep = enemies();
    let mut d = DialogueBox::new();
    let mut p = PendingAction::new();
    p.actor("Ann".to_string()).action_type(ActionType::Fight);
    assert_eq!(p.build(&abilities()).try_resolve(&mut fp, &mut ep, &mut d), Err(ResolveError::NoAbility));
    let mut p = PendingAction::new();
    p.actor("Ann".to_string()).action_type(ActionType::Fight).ability("Slash".to_string());
    assert_eq!(p.build(&abilities()).try_resolve(&mut fp, &mut ep, &mut d), Err(ResolveError::NoTarget));
    assert_eq!(fight("Zed", "Slash", "Orc").try_resolve(&mut fp, &mut ep, &mut d), Err(ResolveError::UnknownActor));
    assert_eq!(fight("Ann", "Slash", "Zed").try_resolve(&mut fp, &mut ep, &mut d), Err(ResolveError::UnknownTarget));
    let mut nobuff = abilities();
    nobuff[2].buff = None;
    let mut p = PendingAction::new();
    p.actor("Ann".to_string()).action_type(ActionType::Fight).ability("Cheer".to_string()).target("Bo".to_string());
    assert_eq!(p.build(&nobuff).try_resolve(&mut fp, &mut ep, &mut d), Err(ResolveError::NoBuff));
    fp.member_mut(0).buffs.push(Buff::Attack(u32::MAX - 12));
    assert_eq!(fight("Ann", "Slash", "Orc").try_resolve(&mut fp, &mut ep, &mut d), Err(ResolveError::Overflow));
    assert_eq!(ep.member(0).health, 50);
    assert_eq!(fight("Bo", "Slash", "Orc").try_resolve(&mut fp, &mut ep, &mut d), Ok(()));
    assert_eq!(ep.member(0).health, 41);
}

#[test]
fn ui_moves_through_the_menu() {
    let mut menu = Menu::new();
    menu.insert_at("root", "a");
    menu.insert_at("root", "b");
    menu.insert_at("b", "c");
    let mut ui = Ui::new(menu);
    ui.load_menu();
    assert_eq!(ui.text_boxes.len(), 2);
    assert!(ui.text_boxes[0].selected);
    ui.change_selection(1);
    ui.load_menu();
    assert!(ui.text_boxes[1].selected);
    ui.change_selection(1);
    assert_eq!(ui.selected_box, 0);
    ui.change_selection(-1);
    assert_eq!(ui.selected_box, 1);
    assert!(ui.select());
    assert_eq!(ui.get_curr_data(), "b");
    assert_eq!(ui.selected_box, 0);
    assert!(ui.select());
    assert_eq!(ui.get_curr_data(), "c");
    assert!(!ui.select());
    ui.go_back();
    assert_eq!(ui.get_curr_data(), "b");
    ui.reset();
    assert_eq!(ui.curr_node, 0);
    ui.remove_nodes_with_data("b".to_string());
    ui.load_menu();
    assert_eq!(ui.text_boxes.len(), 1);
    assert_eq!(ui.text_boxes[0].label, "a");
    assert_eq!(ui.menu_state, MenuState::ChooseActor);
}

fn game() -> MainState {
    let all = vec![
        vec![
            character(10, "Orc", &["Slash"], Stats::new(50, 6, 4, 1)),
            character(11, "Imp", &["Hex"], Stats::new(30, 4, 1, 1)),
        ],
        vec![character(12, "Troll", &["Slash"], Stats::new(90, 9, 9, 1))],
    ];
    MainState::new(abilities(), all, heroes())
}

fn keys() -> Keys {
    Keys { up: false, down: false, select: false, back: false, confirm: false }
}

#[test]
fn the_action_menu_lists_heroes_actions_and_targets() {
    let fp = heroes();
    let names = vec!["Ann".to_string(), "Bo".to_string(), "Orc".to_string()];
    let players = vec!["Ann".to_string(), "Bo".to_string()];
    let foes = vec!["Orc".to_string()];
    let ui = Battle::load_action_menu(&fp, &names, &players, &foes, &abilities());
    let nodes = &ui.menu.nodes;
    let labels = |i: usize| nodes[i].children.iter().map(|&c| nodes[c].data.clone()).collect::<Vec<_>>();
    assert_eq!(labels(0), vec!["Ann", "Bo"]);
    let ann = nodes[0].children[0];
    assert_eq!(labels(ann), vec!["Fight", "Guard", "Item", "Flee"]);
    let ann_fight = nodes[ann].children[0];
    assert_eq!(labels(ann_fight), vec!["Slash", "Cure", "Cheer"]);
    assert_eq!(labels(nodes[ann_fight].children[0]), vec!["Orc"]);
    assert_eq!(labels(nodes[ann_fight].children[1]), vec!["Ann", "Bo"]);
    let ann_item = nodes[ann].children[2];
    assert_eq!(labels(ann_item), vec!["Ann", "Bo", "Orc"]);
    assert_eq!(ui.text_boxes.len(), 2);
}

#[test]
fn a_new_game_starts_the_first_battle() {
    let g = game();
    assert_eq!(g.game_state, GameState::BattleState);
    assert_eq!(g.all_enemies.len(), 1);
    assert_eq!(g.curr_battle.enemy_party.names(), vec!["Orc".to_string(), "Imp".to_string()]);
    assert_eq!(g.curr_battle.character_names, vec!["Ann", "Bo", "Orc", "Imp"]);
    assert_eq!(g.player_abilities, vec!["Slash", "Cure", "Cheer", "Slash"]);
    assert_eq!(g.curr_battle.player_ui_ids, vec![1, 2]);
    assert_eq!(g.win_message, "You win! Press Enter for next battle.");
    let menu = &g.curr_battle.action_menu;
    let roots: Vec<String> = menu.menu.nodes[0].children.iter().map(|&c| menu.menu.nodes[c].data.clone()).collect();
    assert_eq!(roots, vec!["Ann", "Bo"]);
    assert_eq!(menu.text_boxes.len(), 2);
    assert!(g.curr_battle.current_action.actor.is_none());
    let _ = Overworld::new();
}

#[test]
fn the_player_fights_through_the_menu() {
    let mut g = game();
    // Ann charges fully in one frame (speed 500)
    let r = g.update(keys());
    assert!(r.is_ok());
    assert_eq!(g.friendly_party.member(0).action_points, MAX_ACTION_POINTS);
    // choose Ann
    assert_eq!(g.select_player_action(true, false), Ok(false));
    assert_eq!(g.curr_battle.action_menu.menu_state, MenuState::ChooseActionType);
    // choose Fight
    assert_eq!(g.select_player_action(true, false), Ok(false));
    assert_eq!(g.curr_battle.action_menu.menu_state, MenuState::ChooseAbility);
    // choose Slash
    assert_eq!(g.select_player_action(true, false), Ok(false));
    assert_eq!(g.curr_battle.action_menu.menu_state, MenuState::ChooseTarget);
    // choose Orc
    assert_eq!(g.select_player_action(true, false), Ok(false));
    assert_eq!(g.curr_battle.action_menu.menu_state, MenuState::ChooseActor);
    assert_eq!(g.curr_battle.enemy_party.member(0).health, 39);
    assert_eq!(g.friendly_party.member(0).action_points, 0);
    assert_eq!(g.curr_battle.dialogue_box.text_lines[0], "Orc takes a hit!");
}

#[test]
fn going_back_steps_back_one_choice() {
    let mut g = game();
    let _ = g.update(keys());
    let _ = g.select_player_action(true, false);
    let _ = g.select_player_action(true, false);
    assert_eq!(g.curr_battle.action_menu.menu_state, MenuState::ChooseAbility);
    assert_eq!(g.select_player_action(false, true), Ok(false));
    assert_eq!(g.curr_battle.action_menu.menu_state, MenuState::ChooseActionType);
    g.go_back_choice();
    assert_eq!(g.curr_battle.action_menu.menu_state, MenuState::ChooseActor);
}

#[test]
fn an_uncharged_hero_sends_the_menu_back() {
    let mut g = game();
    // Bo is second: move down, select him before he is charged
    g.navigate_menu(true, false);
    assert_eq!(g.curr_battle.action_menu.selected_box, 1);
    assert_eq!(g.select_player_action(true, false), Ok(false));
    assert_eq!(g.curr_battle.action_menu.menu_state, MenuState::ChooseActor);
    assert_eq!(g.curr_battle.action_menu.curr_node, 0);
}

#[test]
fn guarding_takes_the_turn_at_once() {
    let mut g = game();
    let _ = g.update(keys());
    let _ = g.select_player_action(true, false);
    g.navigate_menu(true, false);
    assert_eq!(g.select_player_action(true, false), Ok(false));
    assert_eq!(g.friendly_party.member(0).state, CharacterState::Guarding);
    assert_eq!(g.curr_battle.dialogue_box.text_lines[0], "Ann is guarding!");
    assert_eq!(g.curr_battle.action_menu.menu_state, MenuState::ChooseActor);
}

#[test]
fn the_dead_are_cleaned_up() {
    let mut g = game();
    g.curr_battle.enemy_party.member_mut(1).health = 0;
    let dead = g.get_dead_characters();
    assert_eq!(dead.len(), 1);
    assert_eq!(dead[0].name, "Imp");
    g.cleanup_dead_characters();
    assert_eq!(g.curr_battle.enemy_party.names(), vec!["Orc".to_string()]);
    let menu = &g.curr_battle.action_menu.menu;
    assert!(menu.nodes.iter().all(|n| n.children.iter().all(|&c| menu.nodes[c].data != "Imp")));
    assert!(!g.enemy_party_died());
    assert!(!g.friendly_party_died());
}

#[test]
fn a_charged_enemy_acts() {
    let mut g = game();
    g.curr_battle.enemy_party.member_mut(0).action_points = MAX_ACTION_POINTS;
    let r = g.enemy_action();
    assert_eq!(r, Ok(()));
    assert_eq!(g.curr_battle.enemy_party.member(0).action_points, 0);
    // the Orc slashes one of the heroes: 6 + 5 = 11 less defense
    let hurt = (0..2).filter(|&i| g.friendly_party.member(i).health < g.friendly_party.member(i).stats.max_health).count();
    assert_eq!(hurt, 1);
}

#[test]
fn an_enemy_with_an_unknown_ability_stops() {
    let mut g = game();
    g.curr_battle.enemy_party.member_mut(0).abilities = vec!["Nope".to_string()];
    g.curr_battle.enemy_party.member_mut(0).action_points = MAX_ACTION_POINTS;
    assert_eq!(g.enemy_action(), Err(EnemyError::AbilityNotFound));
    assert_eq!(g.curr_battle.enemy_party.member(0).action_points, 0);
    g.curr_battle.enemy_party.member_mut(0).abilities = vec![];
    g.curr_battle.enemy_party.member_mut(0).action_points = MAX_ACTION_POINTS;
    assert_eq!(g.enemy_action(), Err(EnemyError::NoAbilities));
}

#[test]
fn winning_and_the_next_battle() {
    let mut g = game();
    g.curr_battle.enemy_party.member_mut(0).health = 0;
    g.curr_battle.enemy_party.member_mut(1).health = 0;
    g.cleanup_dead_characters();
    let _ = g.update(keys());
    assert_eq!(g.game_state, GameState::WinState);
    let _ = g.update(keys());
    assert_eq!(g.game_state, GameState::WinState);
    let mut k = keys();
    k.confirm = true;
    let _ = g.update(k);
    assert_eq!(g.game_state, GameState::BattleState);
    assert_eq!(g.curr_battle.enemy_party.names(), vec!["Troll".to_string()]);
    assert!(g.all_enemies.is_empty());
    g.curr_battle.enemy_party.member_mut(0).health = 0;
    g.cleanup_dead_characters();
    let _ = g.update(keys());
    assert_eq!(g.game_state, GameState::WinState);
    let _ = g.update(k);
    assert_eq!(g.win_message, "Nevermind, it looks like you have no more enemies. You beat the game!");
}

#[test]
fn losing() {
    let mut g = game();
    g.friendly_party.member_mut(0).health = 0;
    g.friendly_party.member_mut(1).health = 0;
    g.cleanup_dead_characters();
    let _ = g.update(keys());
    assert_eq!(g.game_state, GameState::LoseState);
    assert_eq!(g.lose_message, "All your party members got killed. Game over! (Press Esc to exit)");
}

#[test]
fn charging_that_would_overflow_stops_the_frame() {
    let mut g = game();
    g.friendly_party.member_mut(1).buffs.push(Buff::Speed(u32::MAX));
    assert!(matches!(g.update(keys()), Err(TickError::Overflow)));
}

#[test]
fn fresh_ui_has_four_empty_lines() {
    let ui = Ui::new(Menu::new());
    assert_eq!(ui.text_boxes.len(), 4);
    assert!(ui.text_boxes.iter().all(|e| e.label.is_empty() && !e.selected));
    let mut ui = ui;
    ui.change_selection(-1);
    assert_eq!(ui.selected_box, 3);
}

#[test]
fn enemy_targets_follow_the_ability() {
    let g = game();
    assert_eq!(g.enemy_targets(&"Slash".to_string()), Ok(vec!["Ann".to_string(), "Bo".to_string()]));
    assert_eq!(g.enemy_targets(&"Hex".to_string()), Ok(vec!["Ann".to_string(), "Bo".to_string()]));
    assert_eq!(g.enemy_targets(&"Cure".to_string()), Ok(vec!["Orc".to_string(), "Imp".to_string()]));
    assert_eq!(g.enemy_targets(&"Nope".to_string()), Err(EnemyError::AbilityNotFound));
}

#[test]
fn enemy_strikes_the_drawn_target() {
    let mut g = game();
    assert_eq!(g.enemy_strikes(0, "Slash".to_string(), None), Err(EnemyError::NoTarget));
    assert_eq!(g.friendly_party.member(1).health, 80);
    assert_eq!(g.enemy_strikes(0, "Slash".to_string(), Some("Bo".to_string())), Ok(()));
    assert!(g.friendly_party.member(1).health < 80);
    assert_eq!(g.friendly_party.member(0).health, 100);
}

#[test]
fn the_action_menu_with_a_repeated_name_builds_under_the_first() {
    let fp = Party::from_characters(vec![
        character(1, "Ann", &["Slash"], Stats::new(100, 10, 3, 5)),
        character(2, "Ann", &["Cure"], Stats::new(100, 10, 3, 5)),
    ]);
    let names = vec!["Ann".to_string(), "Ann".to_string(), "Orc".to_string()];
    let players = vec!["Ann".to_string(), "Ann".to_string()];
    let foes = vec!["Orc".to_string()];
    let ui = Battle::load_action_menu(&fp, &names, &players, &foes, &abilities());
    let nodes = &ui.menu.nodes;
    let labels = |i: usize| nodes[i].children.iter().map(|&c| nodes[c].data.clone()).collect::<Vec<_>>();
    assert_eq!(labels(0), vec!["Ann", "Ann"]);
    let first = nodes[0].children[0];
    let second = nodes[0].children[1];
    assert_eq!(labels(first), vec!["Fight", "Guard", "Item", "Flee", "Fight", "Guard", "Item", "Flee"]);
    assert!(labels(second).is_empty());
    let fight = nodes[first].children[0];
    assert_eq!(labels(fight), vec!["Slash", "Slash"]);
    assert_eq!(labels(nodes[fight].children[0]), vec!["Orc", "Orc"]);
    assert!(labels(nodes[fight].children[1]).is_empty());
    let item = nodes[first].children[2];
    assert_eq!(labels(item), vec!["Ann", "Ann", "Orc", "Ann", "Ann", "Orc"]);
}
