use rpg::ability::{Ability, AbilityType, StatusEffect};
use rpg::characters::{
    default_state, Buff, Character, CharacterRecord, CharacterState, Party, Stats, MAX_ACTION_POINTS,
};

fn hero(id: u32, name: &str, speed: u32) -> Character {
    Character::new(id, name, vec!["Slash".to_string()], "hero", Stats::new(100, 10, 5, speed))
}

#[test]
fn new_character_starts_full_and_idle() {
    let c = hero(1, "Ann", 20);
    assert_eq!(c.id, 1);
    assert_eq!(c.name, "Ann");
    assert_eq!(c.state, CharacterState::Default);
    assert_eq!(c.sprite, "hero");
    assert!(c.is_friendly);
    assert_eq!(c.action_points, 0);
    assert_eq!(c.health, 100);
    assert!(c.buffs.is_empty());
}

#[test]
fn default_state_is_default() {
    assert_eq!(default_state(), CharacterState::Default);
}

#[test]
fn record_gives_full_health_and_no_buffs() {
    let c = Character::from_record(CharacterRecord {
        id: 7,
        name: "Orc".to_string(),
        state: CharacterState::Guarding,
        abilities: vec![],
        sprite: "orc".to_string(),
        is_friendly: false,
        stats: Stats::new(40, 1, 2, 3),
        action_points: 12,
    });
    assert_eq!(c.health, 40);
    assert_eq!(c.action_points, 12);
    assert_eq!(c.state, CharacterState::Guarding);
    assert!(c.buffs.is_empty());
}

#[test]
fn buffs_add_to_their_own_stat_only() {
    let mut c = hero(1, "Ann", 20);
    c.buffs.push(Buff::Attack(3));
    c.buffs.push(Buff::Defense(4));
    c.buffs.push(Buff::Speed(5));
    c.buffs.push(Buff::Attack(7));
    assert_eq!(c.calculate_attack(), 20);
    assert_eq!(c.calculate_defense(), 9);
    assert_eq!(c.calculate_speed(), 25);
}

#[test]
fn checked_stats_report_overflow() {
    let mut c = hero(1, "Ann", 20);
    c.buffs.push(Buff::Attack(u32::MAX));
    assert_eq!(c.checked_attack(), None);
    assert_eq!(c.checked_defense(), Some(5));
    assert_eq!(c.checked_speed(), Some(20));
}

#[test]
fn action_points_charge_up_to_the_maximum() {
    let mut c = hero(1, "Ann", 200);
    c.update_action_points();
    assert_eq!(c.action_points, 200);
    assert!(!c.action_points_charged());
    c.update();
    assert_eq!(c.action_points, 400);
    c.update_action_points();
    assert_eq!(c.action_points, MAX_ACTION_POINTS);
    assert!(c.action_points_charged());
    c.use_action_points();
    assert_eq!(c.action_points, 0);
}

#[test]
fn damage_is_reduced_by_defense_and_never_below_zero() {
    let mut c = hero(1, "Ann", 1);
    c.take_damage(25);
    assert_eq!(c.health, 80);
    c.take_damage(3);
    assert_eq!(c.health, 80);
    c.take_damage(1000);
    assert_eq!(c.health, 0);
}

#[test]
fn guarding_halves_the_hit() {
    let mut c = hero(1, "Ann", 1);
    c.state = CharacterState::Guarding;
    c.take_damage(25);
    assert_eq!(c.health, 93);
}

#[test]
fn healing_stops_at_max_health() {
    let mut c = hero(1, "Ann", 1);
    c.take_damage(55);
    assert_eq!(c.health, 50);
    c.heal(20);
    assert_eq!(c.health, 70);
    c.heal(1000);
    assert_eq!(c.health, 100);
}

#[test]
fn status_effect_changes_nothing() {
    let mut c = hero(1, "Ann", 1);
    c.status_effect();
    assert_eq!(c.health, 100);
    Character::use_ability();
    Character::guard();
    Character::use_item();
    Character::flee();
}

#[test]
fn clone_keeps_every_field() {
    let mut c = hero(3, "Bo", 9);
    c.buffs.push(Buff::Speed(2));
    let d = c.clone();
    assert_eq!(d.id, 3);
    assert_eq!(d.name, "Bo");
    assert_eq!(d.abilities, c.abilities);
    assert_eq!(d.buffs, c.buffs);
}

#[test]
fn party_members_keep_their_order() {
    let mut p = Party::new_empty();
    p.add_member(hero(2, "B", 1));
    p.add_member(hero(1, "A", 1));
    assert_eq!(p.names(), vec!["B".to_string(), "A".to_string()]);
    assert_eq!(p.ids(), vec![2, 1]);
    assert_eq!(p.len(), 2);
}

#[test]
fn adding_a_member_with_a_known_id_replaces_it_in_place() {
    let mut p = Party::new_empty();
    p.add_member(hero(1, "A", 1));
    p.add_member(hero(2, "B", 1));
    p.add_member(hero(1, "C", 1));
    assert_eq!(p.names(), vec!["C".to_string(), "B".to_string()]);
}

#[test]
fn from_characters_joins_in_order() {
    let p = Party::from_characters(vec![hero(5, "E", 1), hero(6, "F", 1), hero(5, "G", 1)]);
    assert_eq!(p.ids(), vec![5, 6]);
    assert_eq!(p.names(), vec!["G".to_string(), "F".to_string()]);
}

#[test]
fn members_are_found_by_id_and_name() {
    let p = Party::from_characters(vec![hero(5, "E", 1), hero(6, "F", 1)]);
    assert_eq!(p.get_member_by_id(6).map(|c| c.name.clone()), Some("F".to_string()));
    assert!(p.get_member_by_id(9).is_none());
    assert!(p.is_character_name(&"E".to_string()));
    assert!(!p.is_character_name(&"Z".to_string()));
    assert_eq!(p.position_named(&"F".to_string()), Some(1));
}

#[test]
fn the_dead_leave_the_party() {
    let mut p = Party::from_characters(vec![hero(1, "A", 1), hero(2, "B", 1), hero(3, "C", 1)]);
    p.member_mut(1).health = 0;
    assert_eq!(p.dead_members().len(), 1);
    assert_eq!(p.dead_members()[0].name, "B");
    p.remove_dead();
    assert_eq!(p.names(), vec!["A".to_string(), "C".to_string()]);
    assert!(!p.is_empty());
}

#[test]
fn a_party_ticks_every_member() {
    let mut p = Party::from_characters(vec![hero(1, "A", 100), hero(2, "B", 300)]);
    assert!(p.can_tick_all());
    p.update_action_points();
    assert_eq!(p.member(0).action_points, 100);
    assert_eq!(p.member(1).action_points, 300);
    let mut q = Party::from_characters(vec![hero(1, "A", u32::MAX)]);
    q.member_mut(0).action_points = 1;
    assert!(!q.can_tick_all());
}

#[test]
fn abilities_are_built_as_given() {
    let a = Ability::new_empty("Slash");
    assert_eq!(a.name, "Slash");
    assert_eq!(a.ability_type, AbilityType::Damage);
    assert_eq!(a.power, 10);
    assert!(a.status_effect.is_none());
    assert!(a.buff.is_none());
    assert_eq!(a.message, "");
    let effect = StatusEffect { attack: 1, defense: -1, speed: 0 };
    let b = Ability::new("Cheer", AbilityType::Buff, 3, effect, Buff::Attack(4), "{} cheers".to_string());
    assert_eq!(b.status_effect, Some(effect));
    assert_eq!(b.buff, Some(Buff::Attack(4)));
    assert_eq!(b.message, "{} cheers");
}

#[test]
fn performing_abilities() {
    let mut c = hero(1, "Ann", 1);
    let mut hit = Ability::new_empty("Slash");
    hit.power = 30;
    hit.perform(&mut c);
    assert_eq!(c.health, 75);
    let mut cure = Ability::new_empty("Cure");
    cure.ability_type = AbilityType::Heal;
    cure.power = 10;
    cure.perform(&mut c);
    assert_eq!(c.health, 85);
    let mut cheer = Ability::new_empty("Cheer");
    cheer.ability_type = AbilityType::Buff;
    cheer.perform(&mut c);
    assert_eq!(c.health, 85);
}

#[test]
fn two_members_change_at_once() {
    let mut p = Party::from_characters(vec![hero(1, "A", 1), hero(2, "B", 1)]);
    let [a, b] = p.get_two_mut(1, 2);
    a.unwrap().health = 7;
    b.unwrap().health = 9;
    assert_eq!(p.member(0).health, 7);
    assert_eq!(p.member(1).health, 9);
    let [c, d] = p.get_two_mut(1, 3);
    assert!(c.is_some());
    assert!(d.is_none());
}

#[test]
fn members_are_found_by_key_even_where_it_is_not_the_id() {
    let mut map = ordermap::OrderMap::new();
    map.insert(5u32, hero(7, "G", 1));
    let mut p = Party::new(map);
    assert_eq!(p.get_member_by_id(5).map(|c| c.name.clone()), Some("G".to_string()));
    assert!(p.get_member_by_id(7).is_none());
    p.add_member(hero(5, "H", 1));
    assert_eq!(p.len(), 1);
    assert_eq!(p.get_member_by_id(5).map(|c| c.name.clone()), Some("H".to_string()));
}
