//! The game: battles between the player's party and one enemy party after
//! another, driven by the player's choices in the battle menu.
use vstd::prelude::*;
use crate::ability::{Ability, AbilityType};
use crate::action::{first_named, is_first_ability, Action, ActionType, PendingAction, ResolveError};
use crate::characters::{
    fallen, has_named, same_roles, is_first_named, joined, member_ids, member_names, roster_wf, survivors, Character,
    CharacterId, Party,
};
use crate::menu::{
    insert_step, kids_after, kids_at, label_path, leaf, lemma_insert_reaches, lemma_replay_push, ordered, path_view, replay, walk,
    with_child, Menu, NodeHandle, NodeView,
};
use crate::text::same_text;
use crate::chance::pick_name;
use crate::ui::{shows_children, without_label, DialogueBox, MenuState, Ui};

verus! {

/// The texts of some strings.
pub open spec fn texts(v: Seq<String>) -> Seq<Seq<char>> {
    v.map_values(|s: String| s@)
}

/// Whether some ability of `abilities` is named `name`.
pub open spec fn knows_ability(abilities: Seq<Ability>, name: Seq<char>) -> bool {
    exists|i: int| 0 <= i < abilities.len() && abilities[i].name@ == name
}

/// Whether every ability that a member of party `s` has is one of `abilities`.
pub open spec fn abilities_known(s: Seq<(CharacterId, Character)>, abilities: Seq<Ability>) -> bool {
    forall|i: int, k: int| 0 <= i < s.len() && 0 <= k < s[i].1.abilities@.len()
        ==> knows_ability(abilities, #[trigger] s[i].1.abilities@[k]@)
}

/// The position of the first ability named `name`.
pub open spec fn first_ability(abilities: Seq<Ability>, name: Seq<char>) -> int {
    choose|i: int| is_first_ability(abilities, name, i)
}

/// Who an ability named `name` may aim at: enemies for damage and status
/// abilities, the player's party for heals and buffs.
pub open spec fn targets_for(
    abilities: Seq<Ability>,
    name: Seq<char>,
    player_names: Seq<Seq<char>>,
    enemy_names: Seq<Seq<char>>,
) -> Seq<Seq<char>> {
    match abilities[first_ability(abilities, name)].ability_type {
        AbilityType::Damage | AbilityType::Status => enemy_names,
        AbilityType::Heal | AbilityType::Buff => player_names,
    }
}

/// The menu paths, below the root, that choosing for hero `h` goes through:
/// the hero, its four actions, every character for an item, every ability of
/// the hero for a fight, and every target that the ability may aim at.
pub open spec fn hero_paths(
    h: Seq<char>,
    hero_abilities: Seq<Seq<char>>,
    character_names: Seq<Seq<char>>,
    player_names: Seq<Seq<char>>,
    enemy_names: Seq<Seq<char>>,
    abilities: Seq<Ability>,
) -> Set<Seq<Seq<char>>> {
    Set::new(
        |q: Seq<Seq<char>>|
            {
                ||| q == seq![h]
                ||| q == seq![h, "Fight"@]
                ||| q == seq![h, "Guard"@]
                ||| q == seq![h, "Item"@]
                ||| q == seq![h, "Flee"@]
                ||| exists|c: int| 0 <= c < character_names.len() && q == seq![h, "Item"@, character_names[c]]
                ||| exists|k: int| 0 <= k < hero_abilities.len() && q == seq![h, "Fight"@, hero_abilities[k]]
                ||| exists|k: int, t: int|
                    0 <= k < hero_abilities.len() && 0 <= t < targets_for(
                        abilities,
                        hero_abilities[k],
                        player_names,
                        enemy_names,
                    ).len() && q == seq![
                        h,
                        "Fight"@,
                        hero_abilities[k],
                        targets_for(abilities, hero_abilities[k], player_names, enemy_names)[t],
                    ]
            },
    )
}

/// The abilities, as texts, of the first member of `fp` named `h`.
pub open spec fn abilities_of(fp: Seq<(CharacterId, Character)>, h: Seq<char>) -> Seq<Seq<char>> {
    texts(fp[first_named(fp, h)].1.abilities@)
}

/// Whether `q` is a menu path, below the root, for some member of `fp`.
pub open spec fn is_menu_path(
    q: Seq<Seq<char>>,
    fp: Seq<(CharacterId, Character)>,
    character_names: Seq<Seq<char>>,
    player_names: Seq<Seq<char>>,
    enemy_names: Seq<Seq<char>>,
    abilities: Seq<Ability>,
) -> bool {
    exists|j: int| 0 <= j < fp.len() && hero_paths(
        fp[j].1.name@,
        abilities_of(fp, fp[j].1.name@),
        character_names,
        player_names,
        enemy_names,
        abilities,
    ).contains(q)
}

/// Whether every path of `paths` leads to a node of `nodes`.
pub open spec fn all_reach(nodes: Seq<NodeView>, paths: Set<Seq<Seq<char>>>) -> bool {
    forall|q: Seq<Seq<char>>| paths.contains(q) ==> #[trigger] walk(nodes, 0, q) is Some
}

/// Whether the label path of every node but the first is one of `paths`.
pub open spec fn labels_known(nodes: Seq<NodeView>, paths: Set<Seq<Seq<char>>>) -> bool {
    forall|i: int| 0 < i < nodes.len() ==> paths.contains(#[trigger] label_path(nodes, i))
}

/// The menu paths, below the root, for the members of `fp`.
pub open spec fn menu_paths(
    fp: Seq<(CharacterId, Character)>,
    character_names: Seq<Seq<char>>,
    player_names: Seq<Seq<char>>,
    enemy_names: Seq<Seq<char>>,
    abilities: Seq<Ability>,
) -> Set<Seq<Seq<char>>> {
    Set::new(|q: Seq<Seq<char>>| is_menu_path(q, fp, character_names, player_names, enemy_names, abilities))
}

/// The four actions of a member, in the menu's order.
pub open spec fn action_labels() -> Seq<Seq<char>> {
    seq!["Fight"@, "Guard"@, "Item"@, "Flee"@]
}

/// The four actions are told apart by their labels.
pub proof fn lemma_action_labels_differ()
    ensures
        action_labels().no_duplicates(),
        "Fight"@ != "Guard"@,
        "Fight"@ != "Item"@,
        "Fight"@ != "Flee"@,
        "Guard"@ != "Item"@,
        "Guard"@ != "Flee"@,
        "Item"@ != "Flee"@,
{
    reveal_strlit("Fight");
    reveal_strlit("Guard");
    reveal_strlit("Item");
    reveal_strlit("Flee");
    assert("Fight"@[0] != "Guard"@[0]);
    assert("Fight"@.len() != "Item"@.len());
    assert("Fight"@.len() != "Flee"@.len());
    assert("Guard"@.len() != "Item"@.len());
    assert("Guard"@.len() != "Flee"@.len());
    assert("Item"@[1] != "Flee"@[1]);
}

/// Whether no two members of `fp` share a name, and no member has the same
/// ability twice: then every choice in the menu leads to one node.
pub open spec fn menu_distinct(fp: Seq<(CharacterId, Character)>) -> bool {
    &&& member_names(fp).no_duplicates()
    &&& forall|j: int| 0 <= j < fp.len() ==> #[trigger] abilities_of(fp, fp[j].1.name@).no_duplicates()
}

/// Whether, below member `h`, the children come in order: the four actions,
/// `item_kids` under "Item", `fight_kids` under "Fight", nothing under
/// "Guard" and "Flee", and, under each of the first `done` abilities, the
/// targets that it may aim at.
pub open spec fn hero_kids(
    nodes: Seq<NodeView>,
    h: Seq<char>,
    item_kids: Seq<Seq<char>>,
    fight_kids: Seq<Seq<char>>,
    done: int,
    player_names: Seq<Seq<char>>,
    enemy_names: Seq<Seq<char>>,
    abilities: Seq<Ability>,
) -> bool {
    &&& kids_at(nodes, seq![h]) == action_labels()
    &&& kids_at(nodes, seq![h, "Guard"@]) == Seq::<Seq<char>>::empty()
    &&& kids_at(nodes, seq![h, "Flee"@]) == Seq::<Seq<char>>::empty()
    &&& kids_at(nodes, seq![h, "Item"@]) == item_kids
    &&& kids_at(nodes, seq![h, "Fight"@]) == fight_kids
    &&& forall|a: int| #![trigger fight_kids[a]] 0 <= a < done ==> kids_at(nodes, seq![h, "Fight"@, fight_kids[a]])
        == targets_for(abilities, fight_kids[a], player_names, enemy_names)
}

/// Whether the action menu `nodes` for party `fp` lists its children in
/// order: the members under the root, and below each member as `hero_kids`
/// says, with every character under "Item" and the member's abilities under
/// "Fight".
pub open spec fn menu_in_order(
    nodes: Seq<NodeView>,
    fp: Seq<(CharacterId, Character)>,
    character_names: Seq<Seq<char>>,
    player_names: Seq<Seq<char>>,
    enemy_names: Seq<Seq<char>>,
    abilities: Seq<Ability>,
) -> bool {
    &&& kids_at(nodes, Seq::empty()) == member_names(fp)
    &&& forall|j: int| 0 <= j < fp.len() ==> #[trigger] hero_kids(
        nodes,
        fp[j].1.name@,
        character_names,
        abilities_of(fp, fp[j].1.name@),
        abilities_of(fp, fp[j].1.name@).len() as int,
        player_names,
        enemy_names,
        abilities,
    )
}

/// Whether the children below each of the first `i` members of `fp` come in
/// order, as `hero_kids` says.
pub open spec fn heroes_done(
    nodes: Seq<NodeView>,
    fp: Seq<(CharacterId, Character)>,
    i: int,
    cn: Seq<Seq<char>>,
    pn: Seq<Seq<char>>,
    en: Seq<Seq<char>>,
    abilities: Seq<Ability>,
) -> bool {
    forall|j: int| 0 <= j < i ==> #[trigger] hero_kids(
        nodes,
        fp[j].1.name@,
        cn,
        abilities_of(fp, fp[j].1.name@),
        abilities_of(fp, fp[j].1.name@).len() as int,
        pn,
        en,
        abilities,
    )
}

/// An insertion under the root, or below a member other than the first `i`,
/// leaves the children below those members as they were.
proof fn lemma_heroes_frame(
    old: Seq<NodeView>,
    new: Seq<NodeView>,
    pq: Seq<Seq<char>>,
    data: Seq<char>,
    facts: Set<Seq<Seq<char>>>,
    fp: Seq<(CharacterId, Character)>,
    i: int,
    cn: Seq<Seq<char>>,
    pn: Seq<Seq<char>>,
    en: Seq<Seq<char>>,
    abilities: Seq<Ability>,
)
    requires
        heroes_done(old, fp, i, cn, pn, en, abilities),
        kids_after(old, new, pq, data),
        all_reach(old, facts),
        forall|j: int| 0 <= j < i ==> hero_paths(fp[j].1.name@, abilities_of(fp, fp[j].1.name@), cn, pn, en, abilities).subset_of(facts),
        forall|j: int| 0 <= j < i ==> pq.len() == 0 || pq[0] != #[trigger] fp[j].1.name@,
    ensures
        heroes_done(new, fp, i, cn, pn, en, abilities),
{
    assert forall|j: int| 0 <= j < i implies #[trigger] hero_kids(
        new,
        fp[j].1.name@,
        cn,
        abilities_of(fp, fp[j].1.name@),
        abilities_of(fp, fp[j].1.name@).len() as int,
        pn,
        en,
        abilities,
    ) by {
        let h = fp[j].1.name@;
        assert(hero_kids(old, h, cn, abilities_of(fp, h), abilities_of(fp, h).len() as int, pn, en, abilities));
        lemma_hero_kids_frame(old, new, pq, data, facts, h, abilities_of(fp, h), cn, pn, en, abilities);
    }
}

/// An insertion below member `h` other than under the member itself, under
/// "Guard" or "Flee", or under one of the first `done` abilities, keeps the
/// children below `h` in order, the new label joining under "Item" or "Fight"
/// where it went there.
proof fn lemma_hero_step(
    old: Seq<NodeView>,
    new: Seq<NodeView>,
    pq: Seq<Seq<char>>,
    data: Seq<char>,
    facts: Set<Seq<Seq<char>>>,
    h: Seq<char>,
    item: Seq<Seq<char>>,
    fight: Seq<Seq<char>>,
    done: int,
    pn: Seq<Seq<char>>,
    en: Seq<Seq<char>>,
    abilities: Seq<Ability>,
)
    requires
        hero_kids(old, h, item, fight, done, pn, en, abilities),
        kids_after(old, new, pq, data),
        all_reach(old, facts),
        0 <= done <= fight.len(),
        facts.contains(seq![h]),
        facts.contains(seq![h, "Guard"@]),
        facts.contains(seq![h, "Flee"@]),
        facts.contains(seq![h, "Item"@]),
        facts.contains(seq![h, "Fight"@]),
        forall|a: int| 0 <= a < done ==> facts.contains(seq![h, "Fight"@, #[trigger] fight[a]]),
        pq != seq![h],
        pq != seq![h, "Guard"@],
        pq != seq![h, "Flee"@],
        forall|a: int| 0 <= a < done ==> pq != seq![h, "Fight"@, #[trigger] fight[a]],
    ensures
        hero_kids(
            new,
            h,
            if pq == seq![h, "Item"@] { item.push(data) } else { item },
            if pq == seq![h, "Fight"@] { fight.push(data) } else { fight },
            done,
            pn,
            en,
            abilities,
        ),
{
    let fight2 = if pq == seq![h, "Fight"@] { fight.push(data) } else { fight };
    assert(kids_at(new, seq![h]) == kids_at(old, seq![h]));
    assert(kids_at(new, seq![h, "Guard"@]) == kids_at(old, seq![h, "Guard"@]));
    assert(kids_at(new, seq![h, "Flee"@]) == kids_at(old, seq![h, "Flee"@]));
    assert(walk(old, 0, seq![h, "Item"@]) is Some);
    assert(walk(old, 0, seq![h, "Fight"@]) is Some);
    assert forall|a: int| #![trigger fight2[a]] 0 <= a < done implies kids_at(new, seq![h, "Fight"@, fight2[a]])
        == targets_for(abilities, fight2[a], pn, en) by {
        assert(fight2[a] == fight[a]);
        assert(facts.contains(seq![h, "Fight"@, fight[a]]));
        assert(kids_at(new, seq![h, "Fight"@, fight[a]]) == kids_at(old, seq![h, "Fight"@, fight[a]]));
    }
}

/// An insertion under a path that does not start at member `h` leaves the
/// children below `h` as they were.
proof fn lemma_hero_kids_frame(
    old: Seq<NodeView>,
    new: Seq<NodeView>,
    pq: Seq<Seq<char>>,
    data: Seq<char>,
    facts: Set<Seq<Seq<char>>>,
    h: Seq<char>,
    hab: Seq<Seq<char>>,
    cn: Seq<Seq<char>>,
    pn: Seq<Seq<char>>,
    en: Seq<Seq<char>>,
    abilities: Seq<Ability>,
)
    requires
        hero_kids(old, h, cn, hab, hab.len() as int, pn, en, abilities),
        kids_after(old, new, pq, data),
        all_reach(old, facts),
        hero_paths(h, hab, cn, pn, en, abilities).subset_of(facts),
        pq.len() == 0 || pq[0] != h,
    ensures
        hero_kids(new, h, cn, hab, hab.len() as int, pn, en, abilities),
{
    let hp = hero_paths(h, hab, cn, pn, en, abilities);
    assert(hp.contains(seq![h]));
    assert(hp.contains(seq![h, "Guard"@]));
    assert(hp.contains(seq![h, "Flee"@]));
    assert(hp.contains(seq![h, "Item"@]));
    assert(hp.contains(seq![h, "Fight"@]));
    assert(seq![h] != pq);
    assert(seq![h, "Guard"@] != pq);
    assert(seq![h, "Flee"@] != pq);
    assert(seq![h, "Item"@] != pq);
    assert(seq![h, "Fight"@] != pq);
    assert(kids_at(new, seq![h]) == kids_at(old, seq![h]));
    assert(kids_at(new, seq![h, "Guard"@]) == kids_at(old, seq![h, "Guard"@]));
    assert(kids_at(new, seq![h, "Flee"@]) == kids_at(old, seq![h, "Flee"@]));
    assert(kids_at(new, seq![h, "Item"@]) == kids_at(old, seq![h, "Item"@]));
    assert(kids_at(new, seq![h, "Fight"@]) == kids_at(old, seq![h, "Fight"@]));
    assert forall|a: int| #![trigger hab[a]] 0 <= a < hab.len() implies kids_at(new, seq![h, "Fight"@, hab[a]])
        == targets_for(abilities, hab[a], pn, en) by {
        let q = seq![h, "Fight"@, hab[a]];
        assert(hp.contains(q));
        assert(q[0] == h);
        assert(q != pq);
        assert(kids_at(new, q) == kids_at(old, q));
    }
}

/// An insertion: where a path leads, and the label of the new leaf.
pub type MenuOp = (Seq<Seq<char>>, Seq<char>);

/// The insertions under "Item" of member `h`: one for each of `names`.
pub open spec fn item_ops(h: Seq<char>, names: Seq<Seq<char>>) -> Seq<MenuOp> {
    names.map_values(|c: Seq<char>| (seq![h, "Item"@], c))
}

/// The insertions under ability `a` of member `h`: one for each of `targets`.
pub open spec fn target_ops(h: Seq<char>, a: Seq<char>, targets: Seq<Seq<char>>) -> Seq<MenuOp> {
    targets.map_values(|t: Seq<char>| (seq![h, "Fight"@, a], t))
}

/// The insertions for the abilities `hab` of member `h`: each ability under
/// "Fight", then the targets that it may aim at under it.
pub open spec fn fight_ops(
    h: Seq<char>,
    hab: Seq<Seq<char>>,
    pn: Seq<Seq<char>>,
    en: Seq<Seq<char>>,
    abilities: Seq<Ability>,
) -> Seq<MenuOp>
    decreases hab.len(),
{
    if hab.len() == 0 {
        Seq::empty()
    } else {
        fight_ops(h, hab.drop_last(), pn, en, abilities).push((seq![h, "Fight"@], hab.last())) + target_ops(
            h,
            hab.last(),
            targets_for(abilities, hab.last(), pn, en),
        )
    }
}

/// The insertions for member `h`: the member under the root, its four
/// actions, every character under "Item", and its abilities with their targets.
pub open spec fn hero_ops(
    h: Seq<char>,
    hab: Seq<Seq<char>>,
    cn: Seq<Seq<char>>,
    pn: Seq<Seq<char>>,
    en: Seq<Seq<char>>,
    abilities: Seq<Ability>,
) -> Seq<MenuOp> {
    seq![
        (Seq::<Seq<char>>::empty(), h),
        (seq![h], "Fight"@),
        (seq![h], "Guard"@),
        (seq![h], "Item"@),
        (seq![h], "Flee"@),
    ] + item_ops(h, cn) + fight_ops(h, hab, pn, en, abilities)
}

/// The insertions that build the action menu for the first `i` members of
/// `fp`, member after member.
pub open spec fn menu_ops(
    fp: Seq<(CharacterId, Character)>,
    i: int,
    cn: Seq<Seq<char>>,
    pn: Seq<Seq<char>>,
    en: Seq<Seq<char>>,
    abilities: Seq<Ability>,
) -> Seq<MenuOp>
    decreases i,
{
    if i <= 0 {
        Seq::empty()
    } else {
        menu_ops(fp, i - 1, cn, pn, en, abilities) + hero_ops(
            fp[i - 1].1.name@,
            abilities_of(fp, fp[i - 1].1.name@),
            cn,
            pn,
            en,
            abilities,
        )
    }
}

/// The phase of the game.
#[derive(Clone, Copy, Debug, PartialEq, Eq, Structural)]
pub enum GameState {
    OverworldState,
    BattleState,
    WinState,
    LoseState,
}

pub struct Overworld {}

impl Overworld {
    pub fn new() -> (o: Self)
        ensures
            o == (Overworld {}),
    {
        Overworld {}
    }
}

pub struct Battle {
    pub character_names: Vec<String>,
    pub player_names: Vec<String>,
    pub enemy_names: Vec<String>,
    pub enemy_party: Party,
    pub action_menu: Ui,
    pub current_action: PendingAction,
    /// The ids of the player's characters whose bars are shown, in order.
    pub player_ui_ids: Vec<CharacterId>,
    pub dialogue_box: DialogueBox,
}

/// Inserts `data` under the node that `path` leads to, remembering that the
/// longer path leads somewhere too.
fn insert_known(
    menu: &mut Menu,
    path: &[&str],
    data: &str,
    Ghost(facts): Ghost<Set<Seq<Seq<char>>>>,
) -> (new_facts: Ghost<Set<Seq<Seq<char>>>>)
    requires
        old(menu).wf(),
        old(menu).root == 0,
        path@.len() >= 1,
        all_reach(old(menu)@, facts),
        ordered(old(menu)@),
        labels_known(old(menu)@, facts),
        facts.contains(path_view(path@).skip(1)) || path@.len() == 1,
    ensures
        final(menu).wf(),
        final(menu).root == 0,
        new_facts@ == facts.insert(path_view(path@).skip(1).push(data@)),
        all_reach(final(menu)@, new_facts@),
        ordered(final(menu)@),
        labels_known(final(menu)@, new_facts@),
        kids_after(old(menu)@, final(menu)@, path_view(path@).skip(1), data@),
        final(menu)@ == insert_step(old(menu)@, (path_view(path@).skip(1), data@)),
        !kids_at(old(menu)@, path_view(path@).skip(1)).contains(data@) ==> kids_at(
            final(menu)@,
            path_view(path@).skip(1).push(data@),
        ) == Seq::<Seq<char>>::empty(),
{
    let ghost q = path_view(path@).skip(1);
    proof {
        if path@.len() == 1 {
            assert(q =~= Seq::<Seq<char>>::empty());
        }
        assert(walk(menu@, 0, q) is Some);
    }
    let ghost before = menu@;
    menu.insert_at_path(path, data);
    proof {
        assert(menu@.len() == menu.nodes@.len());
        assert(menu.nodes.len() == menu.nodes@.len());
        crate::menu::lemma_walk_in_bounds(before, 0, q);
        assert(menu@.len() == before.len() + 1);
        lemma_insert_reaches(before, q, data@);
        let p = walk(before, 0, q)->0;
        crate::menu::lemma_with_child_labels(before, p as int, data@);
        crate::menu::lemma_walk_label(before, 0, q);
        crate::menu::lemma_kids_after_insert(before, q, data@);
        assert(label_path(before, 0) + q =~= q);
        let nf = facts.insert(q.push(data@));
        assert forall|i: int| 0 < i < menu@.len() implies nf.contains(#[trigger] label_path(menu@, i)) by {
            if i < before.len() {
                assert(facts.contains(label_path(before, i)));
            }
        }
        assert forall|p: Seq<Seq<char>>| nf.contains(p) implies #[trigger] walk(menu@, 0, p) is Some by {
            if p != q.push(data@) {
                assert(facts.contains(p));
                assert(walk(before, 0, p) is Some);
            }
        }
        reveal(insert_step);
    }
    Ghost(facts.insert(q.push(data@)))
}

/// There is at most one first ability with a name.
pub proof fn lemma_first_ability_unique(abilities: Seq<Ability>, name: Seq<char>, i: int)
    requires
        is_first_ability(abilities, name, i),
    ensures
        first_ability(abilities, name) == i,
{
    let j = first_ability(abilities, name);
    assert(is_first_ability(abilities, name, j));
    if j < i {
        assert(abilities[j].name@ != name);
    } else if i < j {
        assert(abilities[i].name@ != name);
    }
}

/// The position of the first ability named `name`.
fn ability_position(abilities: &Vec<Ability>, name: &String) -> (i: usize)
    requires
        knows_ability(abilities@, name@),
    ensures
        is_first_ability(abilities@, name@, i as int),
        i as int == first_ability(abilities@, name@),
{
    let mut i: usize = 0;
    while i < abilities.len()
        invariant
            i <= abilities.len(),
            forall|j: int| 0 <= j < i ==> abilities@[j].name@ != name@,
        decreases abilities.len() - i,
    {
        if abilities[i].name == *name {
            proof {
                lemma_first_ability_unique(abilities@, name@, i as int);
            }
            return i;
        }
        i = i + 1;
    }
    proof {
        let j = choose|j: int| 0 <= j < abilities.len() && abilities@[j].name@ == name@;
        assert(abilities@[j].name@ != name@);
    }
    0
}

impl Battle {
    /// The action menu for party `fp`: each member, its actions, the
    /// characters an item can go to, its abilities and their targets. Each
    /// label goes under the first node that its path leads to, so a member
    /// whose name came before gets its choices under the earlier node.
    #[verifier::rlimit(80)]
    pub fn load_action_menu(
        fp: &Party,
        character_names: &Vec<String>,
        player_names: &Vec<String>,
        enemy_names: &Vec<String>,
        abilities: &Vec<Ability>,
    ) -> (ui: Ui)
        requires
            abilities_known(fp.members(), abilities@),
        ensures
            ui.wf(),
            ui.menu.root == 0,
            ui.menu_state == MenuState::ChooseActor,
            ui.curr_node == 0,
            ui.selected_box == 0,
            ui.curr_action is None,
            shows_children(ui.text_boxes@, ui.menu@, 0, 0),
            forall|q: Seq<Seq<char>>|
                is_menu_path(
                    q,
                    fp.members(),
                    texts(character_names@),
                    texts(player_names@),
                    texts(enemy_names@),
                    abilities@,
                ) ==> #[trigger] walk(ui.menu@, 0, q) is Some,
            forall|i: int|
                0 < i < ui.menu@.len() ==> is_menu_path(
                    #[trigger] label_path(ui.menu@, i),
                    fp.members(),
                    texts(character_names@),
                    texts(player_names@),
                    texts(enemy_names@),
                    abilities@,
                ),
            menu_distinct(fp.members()) ==> menu_in_order(
                ui.menu@,
                fp.members(),
                texts(character_names@),
                texts(player_names@),
                texts(enemy_names@),
                abilities@,
            ),
            ui.menu@ == replay(
                seq![leaf("root"@, 0)],
                menu_ops(
                    fp.members(),
                    fp.members().len() as int,
                    texts(character_names@),
                    texts(player_names@),
                    texts(enemy_names@),
                    abilities@,
                ),
            ),
    {
        let ghost fps = fp.members();
        let ghost dist = menu_distinct(fps);
        proof {
            lemma_action_labels_differ();
        }
        let ghost cn = texts(character_names@);
        let ghost pn = texts(player_names@);
        let ghost en = texts(enemy_names@);
        let mut menu = Menu::new();
        let ghost init = menu@;
        let ghost mut ops: Seq<MenuOp> = Seq::empty();
        let ghost mut facts: Set<Seq<Seq<char>>> = Set::empty();
        let n = fp.len();
        let mut i: usize = 0;
        while i < n
            invariant
                n == fps.len(),
                fps == fp.members(),
                i <= n,
                menu.wf(),
                menu.root == 0,
                all_reach(menu@, facts),
                ordered(menu@),
                labels_known(menu@, facts),
                facts.subset_of(menu_paths(fps, cn, pn, en, abilities@)),
                abilities_known(fps, abilities@),
                cn == texts(character_names@),
                pn == texts(player_names@),
                en == texts(enemy_names@),
                forall|j: int| 0 <= j < i ==> hero_paths(fps[j].1.name@, abilities_of(fps, fps[j].1.name@), cn, pn, en, abilities@).subset_of(facts),
                dist == menu_distinct(fps),
                init == seq![leaf("root"@, 0)],
                menu@ == replay(init, ops),
                ops == menu_ops(fps, i as int, cn, pn, en, abilities@),
                dist ==> kids_at(menu@, Seq::<Seq<char>>::empty()) == member_names(fps).take(i as int),
                dist ==> heroes_done(menu@, fps, i as int, cn, pn, en, abilities@),
            decreases n - i,
        {
            let hero_name = fp.member(i).name.clone();
            let hs: &str = hero_name.as_str();
            let ghost h = hero_name@;
            let ghost start = facts;
            let ghost hp = hero_paths(h, abilities_of(fps, h), cn, pn, en, abilities@);
            let ghost names = member_names(fps);
            proof {
                lemma_action_labels_differ();
                assert(names[i as int] == h);
                assert forall|j: int| 0 <= j < i implies #[trigger] fps[j].1.name@ == names[j] by {}
                if dist {
                    assert forall|j: int| 0 <= j < i implies h != #[trigger] fps[j].1.name@ by {
                        assert(names[j] != names[i as int]);
                    }
                    assert(!names.take(i as int).contains(h)) by {
                        if names.take(i as int).contains(h) {
                            let j = choose|j: int| 0 <= j < i && names.take(i as int)[j] == h;
                            assert(names[j] == names[i as int]);
                        }
                    }
                }
            }
            let top: [&str; 1] = ["root"];
            assert(path_view(top@).skip(1) =~= Seq::<Seq<char>>::empty());
            let ghost m0 = menu@;
            let ghost f0 = facts;
            let Ghost(f) = insert_known(&mut menu, &top, hs, Ghost(facts));
            proof {
                lemma_replay_push(init, ops, (path_view(top@).skip(1), hs@));
                ops = ops.push((path_view(top@).skip(1), hs@));
            }
            proof {
                facts = f;
                assert(Seq::<Seq<char>>::empty().push(h) =~= seq![h]);
                if dist {
                    lemma_heroes_frame(m0, menu@, Seq::empty(), h, f0, fps, i as int, cn, pn, en, abilities@);
                    assert(walk(m0, 0, Seq::<Seq<char>>::empty()) is Some);
                    assert(kids_at(menu@, Seq::<Seq<char>>::empty()) == names.take(i as int).push(h));
                    assert(names.take(i as int).push(h) =~= names.take(i + 1));
                    assert(kids_at(menu@, seq![h]) == Seq::<Seq<char>>::empty());
                }
            }
            let at_hero: [&str; 2] = ["root", hs];
            assert(path_view(at_hero@).skip(1) =~= seq![h]);
            let ghost m1 = menu@;
            let ghost f1 = facts;
            let Ghost(f) = insert_known(&mut menu, &at_hero, "Fight", Ghost(facts));
            proof {
                lemma_replay_push(init, ops, (path_view(at_hero@).skip(1), "Fight"@));
                ops = ops.push((path_view(at_hero@).skip(1), "Fight"@));
            }
            proof {
                facts = f;
                assert(seq![h].push("Fight"@) =~= seq![h, "Fight"@]);
                if dist {
                    lemma_heroes_frame(m1, menu@, seq![h], "Fight"@, f1, fps, i as int, cn, pn, en, abilities@);
                    assert(walk(m1, 0, Seq::<Seq<char>>::empty()) is Some);
                    assert(Seq::<Seq<char>>::empty() != seq![h]);
                    assert(f1.contains(seq![h]));
                    assert(walk(m1, 0, seq![h]) is Some);
                    assert(kids_at(menu@, seq![h]) == seq!["Fight"@]);
                    assert(kids_at(menu@, seq![h, "Fight"@]) == Seq::<Seq<char>>::empty());
                }
            }
            let ghost m2 = menu@;
            let ghost f2 = facts;
            let Ghost(f) = insert_known(&mut menu, &at_hero, "Guard", Ghost(facts));
            proof {
                lemma_replay_push(init, ops, (path_view(at_hero@).skip(1), "Guard"@));
                ops = ops.push((path_view(at_hero@).skip(1), "Guard"@));
            }
            proof {
                facts = f;
                assert(seq![h].push("Guard"@) =~= seq![h, "Guard"@]);
                if dist {
                    lemma_heroes_frame(m2, menu@, seq![h], "Guard"@, f2, fps, i as int, cn, pn, en, abilities@);
                    assert(walk(m2, 0, Seq::<Seq<char>>::empty()) is Some);
                    assert(Seq::<Seq<char>>::empty() != seq![h]);
                    assert(walk(m2, 0, seq![h]) is Some);
                    assert(f2.contains(seq![h, "Fight"@]));
                    assert(walk(m2, 0, seq![h, "Fight"@]) is Some);
                    assert(seq![h, "Fight"@] != seq![h]);
                    assert(seq!["Fight"@].push("Guard"@) =~= seq!["Fight"@, "Guard"@]);
                    assert(!seq!["Fight"@].contains("Guard"@));
                    assert(kids_at(menu@, seq![h]) == seq!["Fight"@, "Guard"@]);
                    assert(kids_at(menu@, seq![h, "Guard"@]) == Seq::<Seq<char>>::empty());
                    assert(kids_at(menu@, seq![h, "Fight"@]) == Seq::<Seq<char>>::empty());
                }
            }
            let ghost m3 = menu@;
            let ghost f3 = facts;
            let Ghost(f) = insert_known(&mut menu, &at_hero, "Item", Ghost(facts));
            proof {
                lemma_replay_push(init, ops, (path_view(at_hero@).skip(1), "Item"@));
                ops = ops.push((path_view(at_hero@).skip(1), "Item"@));
            }
            proof {
                facts = f;
                assert(seq![h].push("Item"@) =~= seq![h, "Item"@]);
                if dist {
                    lemma_heroes_frame(m3, menu@, seq![h], "Item"@, f3, fps, i as int, cn, pn, en, abilities@);
                    assert(walk(m3, 0, Seq::<Seq<char>>::empty()) is Some);
                    assert(Seq::<Seq<char>>::empty() != seq![h]);
                    assert(walk(m3, 0, seq![h]) is Some);
                    assert(f3.contains(seq![h, "Fight"@]));
                    assert(f3.contains(seq![h, "Guard"@]));
                    assert(walk(m3, 0, seq![h, "Fight"@]) is Some);
                    assert(walk(m3, 0, seq![h, "Guard"@]) is Some);
                    assert(seq![h, "Fight"@] != seq![h]);
                    assert(seq![h, "Guard"@] != seq![h]);
                    assert(seq!["Fight"@, "Guard"@].push("Item"@) =~= seq!["Fight"@, "Guard"@, "Item"@]);
                    assert(!seq!["Fight"@, "Guard"@].contains("Item"@));
                    assert(kids_at(menu@, seq![h]) == seq!["Fight"@, "Guard"@, "Item"@]);
                    assert(kids_at(menu@, seq![h, "Item"@]) == Seq::<Seq<char>>::empty());
                    assert(kids_at(menu@, seq![h, "Guard"@]) == Seq::<Seq<char>>::empty());
                    assert(kids_at(menu@, seq![h, "Fight"@]) == Seq::<Seq<char>>::empty());
                }
            }
            let ghost m4 = menu@;
            let ghost f4 = facts;
            let Ghost(f) = insert_known(&mut menu, &at_hero, "Flee", Ghost(facts));
            proof {
                lemma_replay_push(init, ops, (path_view(at_hero@).skip(1), "Flee"@));
                ops = ops.push((path_view(at_hero@).skip(1), "Flee"@));
            }
            proof {
                facts = f;
                assert(seq![h].push("Flee"@) =~= seq![h, "Flee"@]);
                if dist {
                    lemma_heroes_frame(m4, menu@, seq![h], "Flee"@, f4, fps, i as int, cn, pn, en, abilities@);
                    assert(walk(m4, 0, Seq::<Seq<char>>::empty()) is Some);
                    assert(Seq::<Seq<char>>::empty() != seq![h]);
                    assert(walk(m4, 0, seq![h]) is Some);
                    assert(f4.contains(seq![h, "Fight"@]));
                    assert(f4.contains(seq![h, "Guard"@]));
                    assert(f4.contains(seq![h, "Item"@]));
                    assert(walk(m4, 0, seq![h, "Fight"@]) is Some);
                    assert(walk(m4, 0, seq![h, "Guard"@]) is Some);
                    assert(walk(m4, 0, seq![h, "Item"@]) is Some);
                    assert(seq![h, "Fight"@] != seq![h]);
                    assert(seq![h, "Guard"@] != seq![h]);
                    assert(seq![h, "Item"@] != seq![h]);
                    assert(seq!["Fight"@, "Guard"@, "Item"@].push("Flee"@) =~= action_labels());
                    assert(!seq!["Fight"@, "Guard"@, "Item"@].contains("Flee"@));
                    assert(kids_at(menu@, seq![h]) == action_labels());
                    assert(kids_at(menu@, seq![h, "Flee"@]) == Seq::<Seq<char>>::empty());
                    assert(kids_at(menu@, seq![h, "Item"@]) == Seq::<Seq<char>>::empty());
                    assert(kids_at(menu@, seq![h, "Guard"@]) == Seq::<Seq<char>>::empty());
                    assert(kids_at(menu@, seq![h, "Fight"@]) == Seq::<Seq<char>>::empty());
                    assert(cn.take(0) =~= Seq::<Seq<char>>::empty());
                    assert(hero_kids(menu@, h, cn.take(0), Seq::empty(), 0, pn, en, abilities@));
                }
            }
            assert(seq![h].push("Fight"@) =~= seq![h, "Fight"@]);
            assert(seq![h].push("Guard"@) =~= seq![h, "Guard"@]);
            assert(seq![h].push("Item"@) =~= seq![h, "Item"@]);
            assert(seq![h].push("Flee"@) =~= seq![h, "Flee"@]);
            assert(Seq::<Seq<char>>::empty().push(h) =~= seq![h]);
            assert(facts.contains(seq![h]));
            assert(facts.contains(seq![h, "Fight"@]));
            assert(facts.contains(seq![h, "Item"@]));
            assert(facts =~= start.insert(seq![h]).insert(seq![h, "Fight"@]).insert(seq![h, "Guard"@]).insert(
                seq![h, "Item"@],
            ).insert(seq![h, "Flee"@]));
            assert(hp.contains(seq![h]));
            assert(hp.contains(seq![h, "Fight"@]));
            assert(hp.contains(seq![h, "Guard"@]));
            assert(hp.contains(seq![h, "Item"@]));
            assert(hp.contains(seq![h, "Flee"@]));
            assert(facts.subset_of(start.union(hp)));
            let ghost after_actions = facts;
            let ghost head = seq![
                (Seq::<Seq<char>>::empty(), h),
                (seq![h], "Fight"@),
                (seq![h], "Guard"@),
                (seq![h], "Item"@),
                (seq![h], "Flee"@),
            ];
            let ghost base0 = menu_ops(fps, i as int, cn, pn, en, abilities@) + head;
            proof {
                assert(ops =~= base0);
                assert(cn.take(0) =~= Seq::<Seq<char>>::empty());
                assert(base0 + item_ops(h, cn.take(0)) =~= base0);
            }

            let at_item: [&str; 3] = ["root", hs, "Item"];
            assert(path_view(at_item@).skip(1) =~= seq![h, "Item"@]);
            let mut c: usize = 0;
            while c < character_names.len()
                invariant
                    c <= character_names@.len(),
                    cn == texts(character_names@),
                    hs@ == h,
                    path_view(at_item@).skip(1) == seq![h, "Item"@],
                    menu.wf(),
                    menu.root == 0,
                    all_reach(menu@, facts),
                    ordered(menu@),
                    labels_known(menu@, facts),
                    facts.subset_of(start.union(hp)),
                    hp == hero_paths(h, abilities_of(fps, h), cn, pn, en, abilities@),
                    after_actions.subset_of(facts),
                    after_actions.contains(seq![h, "Item"@]),
                    forall|k: int| 0 <= k < c ==> facts.contains(seq![h, "Item"@, #[trigger] cn[k]]),
                    i < fps.len(),
                    h == fps[i as int].1.name@,
                    dist == menu_distinct(fps),
                    dist ==> kids_at(menu@, Seq::<Seq<char>>::empty()) == member_names(fps).take(i + 1),
                    dist ==> heroes_done(menu@, fps, i as int, cn, pn, en, abilities@),
                    dist ==> forall|j: int| 0 <= j < i ==> h != #[trigger] fps[j].1.name@,
                    forall|j: int| 0 <= j < i ==> hero_paths(fps[j].1.name@, abilities_of(fps, fps[j].1.name@), cn, pn, en, abilities@).subset_of(facts),
                    facts.contains(seq![h]),
                    facts.contains(seq![h, "Guard"@]),
                    facts.contains(seq![h, "Flee"@]),
                    facts.contains(seq![h, "Item"@]),
                    facts.contains(seq![h, "Fight"@]),
                    dist ==> hero_kids(menu@, h, cn.take(c as int), Seq::empty(), 0, pn, en, abilities@),
                    menu@ == replay(init, ops),
                    ops == base0 + item_ops(h, cn.take(c as int)),
                decreases character_names@.len() - c,
            {
                let ghost mo = menu@;
                let ghost fo = facts;
                let Ghost(f) = insert_known(&mut menu, &at_item, character_names[c].as_str(), Ghost(facts));
                proof {
                    lemma_replay_push(init, ops, (path_view(at_item@).skip(1), character_names@[c as int]@));
                    ops = ops.push((path_view(at_item@).skip(1), character_names@[c as int]@));
                }
                proof {
                    facts = f;
                    assert(seq![h, "Item"@].push(character_names@[c as int]@) =~= seq![h, "Item"@, cn[c as int]]);
                    assert(hp.contains(seq![h, "Item"@, cn[c as int]]));
                    assert(item_ops(h, cn.take(c + 1)) =~= item_ops(h, cn.take(c as int)).push((seq![h, "Item"@], cn[c as int])));
                    assert(ops =~= base0 + item_ops(h, cn.take(c + 1)));
                    if dist {
                        let pq = seq![h, "Item"@];
                        lemma_action_labels_differ();
                        lemma_heroes_frame(mo, menu@, pq, cn[c as int], fo, fps, i as int, cn, pn, en, abilities@);
                        assert(pq[1] != seq![h, "Guard"@][1]);
                        assert(pq[1] != seq![h, "Flee"@][1]);
                        assert(pq[1] != seq![h, "Fight"@][1]);
                        lemma_hero_step(mo, menu@, pq, cn[c as int], fo, h, cn.take(c as int), Seq::empty(), 0, pn, en, abilities@);
                        assert(cn.take(c as int).push(cn[c as int]) =~= cn.take(c + 1));
                        assert(walk(mo, 0, Seq::<Seq<char>>::empty()) is Some);
                        assert(kids_at(menu@, Seq::<Seq<char>>::empty()) == kids_at(mo, Seq::<Seq<char>>::empty()));
                    }
                }
                c = c + 1;
            }
            let ghost after_items = facts;

            let pos = fp.position_named(&hero_name).unwrap();
            proof {
                crate::action::lemma_first_named_unique(fps, h, pos as int);
            }
            let hero = fp.member(pos);
            let ghost hab = texts(hero.abilities@);
            assert(hab == abilities_of(fps, h));
            let at_fight: [&str; 3] = ["root", hs, "Fight"];
            assert(path_view(at_fight@).skip(1) =~= seq![h, "Fight"@]);
            let ghost base1 = base0 + item_ops(h, cn);
            proof {
                assert(cn.take(cn.len() as int) =~= cn);
                assert(hab.take(0) =~= Seq::<Seq<char>>::empty());
                assert(ops =~= base1 + fight_ops(h, hab.take(0), pn, en, abilities@));
                if dist {
                    assert(abilities_of(fps, fps[i as int].1.name@).no_duplicates());
                }
            }
            let mut k: usize = 0;
            while k < hero.abilities.len()
                invariant
                    k <= hero.abilities@.len(),
                    hab == texts(hero.abilities@),
                    hab.len() == hero.abilities@.len(),
                    hs@ == h,
                    hero == fps[pos as int].1,
                    pos < fps.len(),
                    abilities_known(fps, abilities@),
                    pn == texts(player_names@),
                    en == texts(enemy_names@),
                    path_view(at_fight@).skip(1) == seq![h, "Fight"@],
                    menu.wf(),
                    menu.root == 0,
                    all_reach(menu@, facts),
                    ordered(menu@),
                    labels_known(menu@, facts),
                    facts.subset_of(start.union(hp)),
                    hp == hero_paths(h, hab, cn, pn, en, abilities@),
                    after_items.subset_of(facts),
                    after_items.contains(seq![h, "Fight"@]),
                    forall|a: int| 0 <= a < k ==> facts.contains(seq![h, "Fight"@, #[trigger] hab[a]]),
                    forall|a: int, t: int| #![trigger hab[a], targets_for(abilities@, hab[a], pn, en)[t]]
                        0 <= a < k && 0 <= t < targets_for(abilities@, hab[a], pn, en).len()
                        ==> facts.contains(seq![h, "Fight"@, hab[a], targets_for(abilities@, hab[a], pn, en)[t]]),
                    i < fps.len(),
                    h == fps[i as int].1.name@,
                    dist == menu_distinct(fps),
                    dist ==> kids_at(menu@, Seq::<Seq<char>>::empty()) == member_names(fps).take(i + 1),
                    dist ==> heroes_done(menu@, fps, i as int, cn, pn, en, abilities@),
                    dist ==> forall|j: int| 0 <= j < i ==> h != #[trigger] fps[j].1.name@,
                    forall|j: int| 0 <= j < i ==> hero_paths(fps[j].1.name@, abilities_of(fps, fps[j].1.name@), cn, pn, en, abilities@).subset_of(facts),
                    facts.contains(seq![h]),
                    facts.contains(seq![h, "Guard"@]),
                    facts.contains(seq![h, "Flee"@]),
                    facts.contains(seq![h, "Item"@]),
                    facts.contains(seq![h, "Fight"@]),
                    hab == abilities_of(fps, h),
                    dist ==> hab.no_duplicates(),
                    dist ==> hero_kids(menu@, h, cn, hab.take(k as int), k as int, pn, en, abilities@),
                    menu@ == replay(init, ops),
                    base0 == menu_ops(fps, i as int, cn, pn, en, abilities@) + head,
                    base1 == base0 + item_ops(h, cn),
                    ops == base1 + fight_ops(h, hab.take(k as int), pn, en, abilities@),
                decreases hero.abilities@.len() - k,
            {
                let ab_name = &hero.abilities[k];
                let abs: &str = ab_name.as_str();
                assert(hab[k as int] == abs@);
                let ghost mo = menu@;
                let ghost fo = facts;
                let Ghost(f) = insert_known(&mut menu, &at_fight, abs, Ghost(facts));
                proof {
                    lemma_replay_push(init, ops, (path_view(at_fight@).skip(1), abs@));
                    ops = ops.push((path_view(at_fight@).skip(1), abs@));
                }
                proof {
                    facts = f;
                    assert(seq![h, "Fight"@].push(abs@) =~= seq![h, "Fight"@, hab[k as int]]);
                    assert(hp.contains(seq![h, "Fight"@, hab[k as int]]));
                    assert(knows_ability(abilities@, fps[pos as int].1.abilities@[k as int]@));
                    if dist {
                        let pq = seq![h, "Fight"@];
                        lemma_action_labels_differ();
                        lemma_heroes_frame(mo, menu@, pq, hab[k as int], fo, fps, i as int, cn, pn, en, abilities@);
                        assert(pq[1] != seq![h, "Guard"@][1]);
                        assert(pq[1] != seq![h, "Flee"@][1]);
                        assert(pq[1] != seq![h, "Item"@][1]);
                        lemma_hero_step(mo, menu@, pq, hab[k as int], fo, h, cn, hab.take(k as int), k as int, pn, en, abilities@);
                        assert(hab.take(k as int).push(hab[k as int]) =~= hab.take(k + 1));
                        assert(walk(mo, 0, Seq::<Seq<char>>::empty()) is Some);
                        assert(kids_at(menu@, Seq::<Seq<char>>::empty()) == kids_at(mo, Seq::<Seq<char>>::empty()));
                        assert(!hab.take(k as int).contains(hab[k as int])) by {
                            if hab.take(k as int).contains(hab[k as int]) {
                                let a = choose|a: int| 0 <= a < k && hab.take(k as int)[a] == hab[k as int];
                                assert(hab[a] == hab[k as int]);
                            }
                        }
                        assert(kids_at(menu@, seq![h, "Fight"@, hab[k as int]]) == Seq::<Seq<char>>::empty());
                    }
                }
                let ai = ability_position(abilities, ab_name);
                let targets = match abilities[ai].ability_type {
                    AbilityType::Damage | AbilityType::Status => enemy_names,
                    AbilityType::Heal | AbilityType::Buff => player_names,
                };
                let ghost tn = texts(targets@);
                assert(tn == targets_for(abilities@, hab[k as int], pn, en));
                let at_ability: [&str; 4] = ["root", hs, "Fight", abs];
                assert(at_ability@ =~= seq!["root", hs, "Fight", abs]);
                assert(path_view(at_ability@).skip(1) =~= seq![h, "Fight"@, hab[k as int]]);
                let ghost after_ability = facts;
                let ghost base2 = base1 + fight_ops(h, hab.take(k as int), pn, en, abilities@).push((seq![h, "Fight"@], hab[k as int]));
                proof {
                    assert(ops =~= base2);
                    assert(tn.take(0) =~= Seq::<Seq<char>>::empty());
                    assert(base2 + target_ops(h, hab[k as int], tn.take(0)) =~= base2);
                }
                let mut t: usize = 0;
                while t < targets.len()
                    invariant
                        t <= targets@.len(),
                        tn == texts(targets@),
                        path_view(at_ability@).skip(1) == seq![h, "Fight"@, hab[k as int]],
                        menu.wf(),
                        menu.root == 0,
                        all_reach(menu@, facts),
                        ordered(menu@),
                        labels_known(menu@, facts),
                        facts.subset_of(start.union(hp)),
                        hp == hero_paths(h, hab, cn, pn, en, abilities@),
                        k < hab.len(),
                        tn == targets_for(abilities@, hab[k as int], pn, en),
                        after_ability.subset_of(facts),
                        after_ability.contains(seq![h, "Fight"@, hab[k as int]]),
                        forall|u: int| 0 <= u < t ==> facts.contains(seq![h, "Fight"@, hab[k as int], #[trigger] tn[u]]),
                        i < fps.len(),
                        h == fps[i as int].1.name@,
                        dist == menu_distinct(fps),
                        dist ==> kids_at(menu@, Seq::<Seq<char>>::empty()) == member_names(fps).take(i + 1),
                        dist ==> heroes_done(menu@, fps, i as int, cn, pn, en, abilities@),
                        dist ==> forall|j: int| 0 <= j < i ==> h != #[trigger] fps[j].1.name@,
                        forall|j: int| 0 <= j < i ==> hero_paths(fps[j].1.name@, abilities_of(fps, fps[j].1.name@), cn, pn, en, abilities@).subset_of(facts),
                        facts.contains(seq![h]),
                        facts.contains(seq![h, "Guard"@]),
                        facts.contains(seq![h, "Flee"@]),
                        facts.contains(seq![h, "Item"@]),
                        facts.contains(seq![h, "Fight"@]),
                        forall|a: int| 0 <= a <= k ==> facts.contains(seq![h, "Fight"@, #[trigger] hab[a]]),
                        dist ==> hab.no_duplicates(),
                        dist ==> hero_kids(menu@, h, cn, hab.take(k + 1), k as int, pn, en, abilities@),
                        dist ==> kids_at(menu@, seq![h, "Fight"@, hab[k as int]]) == tn.take(t as int),
                        menu@ == replay(init, ops),
                        base0 == menu_ops(fps, i as int, cn, pn, en, abilities@) + head,
                        base1 == base0 + item_ops(h, cn),
                        base2 == base1 + fight_ops(h, hab.take(k as int), pn, en, abilities@).push((seq![h, "Fight"@], hab[k as int])),
                        ops == base2 + target_ops(h, hab[k as int], tn.take(t as int)),
                    decreases targets@.len() - t,
                {
                    let ghost mo = menu@;
                    let ghost fo = facts;
                    let Ghost(f) = insert_known(&mut menu, &at_ability, targets[t].as_str(), Ghost(facts));
                    proof {
                        lemma_replay_push(init, ops, (path_view(at_ability@).skip(1), targets@[t as int]@));
                        ops = ops.push((path_view(at_ability@).skip(1), targets@[t as int]@));
                    }
                    proof {
                        facts = f;
                        assert(seq![h, "Fight"@, hab[k as int]].push(targets@[t as int]@) =~= seq![h, "Fight"@, hab[k as int], tn[t as int]]);
                        assert(hp.contains(seq![h, "Fight"@, hab[k as int], tn[t as int]]));
                        assert(target_ops(h, hab[k as int], tn.take(t + 1)) =~= target_ops(h, hab[k as int], tn.take(t as int)).push(
                            (seq![h, "Fight"@, hab[k as int]], tn[t as int]),
                        ));
                        assert(ops =~= base2 + target_ops(h, hab[k as int], tn.take(t + 1)));
                        if dist {
                            let pq = seq![h, "Fight"@, hab[k as int]];
                            lemma_heroes_frame(mo, menu@, pq, tn[t as int], fo, fps, i as int, cn, pn, en, abilities@);
                            assert forall|a: int| 0 <= a < k implies pq != seq![h, "Fight"@, #[trigger] hab.take(k + 1)[a]] by {
                                assert(hab.take(k + 1)[a] == hab[a]);
                                assert(hab[a] != hab[k as int]);
                                assert(pq[2] != seq![h, "Fight"@, hab[a]][2]);
                            }
                            assert forall|a: int| 0 <= a < k implies fo.contains(seq![h, "Fight"@, #[trigger] hab.take(k + 1)[a]]) by {
                                assert(hab.take(k + 1)[a] == hab[a]);
                            }
                            lemma_hero_step(mo, menu@, pq, tn[t as int], fo, h, cn, hab.take(k + 1), k as int, pn, en, abilities@);
                            assert(walk(mo, 0, Seq::<Seq<char>>::empty()) is Some);
                            assert(kids_at(menu@, Seq::<Seq<char>>::empty()) == kids_at(mo, Seq::<Seq<char>>::empty()));
                            assert(fo.contains(pq));
                            assert(kids_at(menu@, pq) == kids_at(mo, pq).push(tn[t as int]));
                            assert(tn.take(t as int).push(tn[t as int]) =~= tn.take(t + 1));
                        }
                    }
                    t = t + 1;
                }
                proof {
                    assert(tn.take(tn.len() as int) =~= tn);
                    let hk = hab.take(k + 1);
                    assert(hk.drop_last() =~= hab.take(k as int));
                    assert(hk.last() == hab[k as int]);
                    assert(fight_ops(h, hk, pn, en, abilities@) == fight_ops(h, hab.take(k as int), pn, en, abilities@).push(
                        (seq![h, "Fight"@], hab[k as int]),
                    ) + target_ops(h, hab[k as int], tn));
                    assert(ops =~= base1 + fight_ops(h, hk, pn, en, abilities@));
                    if dist {
                        assert(tn.take(tn.len() as int) =~= tn);
                        let fk = hab.take(k + 1);
                        assert forall|a: int| #![trigger fk[a]] 0 <= a < k + 1 implies kids_at(menu@, seq![h, "Fight"@, fk[a]])
                            == targets_for(abilities@, fk[a], pn, en) by {
                            if a == k {
                                assert(fk[a] == hab[k as int]);
                            }
                        }
                    }
                }
                k = k + 1;
            }
            proof {
                let hp = hero_paths(h, hab, cn, pn, en, abilities@);
                assert forall|q: Seq<Seq<char>>| hp.contains(q) implies facts.contains(q) by {
                    if exists|c: int| 0 <= c < cn.len() && q == seq![h, "Item"@, cn[c]] {
                        let c = choose|c: int| 0 <= c < cn.len() && q == seq![h, "Item"@, cn[c]];
                        assert(after_items.contains(seq![h, "Item"@, cn[c]]));
                    } else if exists|a: int| 0 <= a < hab.len() && q == seq![h, "Fight"@, hab[a]] {
                        let a = choose|a: int| 0 <= a < hab.len() && q == seq![h, "Fight"@, hab[a]];
                        assert(facts.contains(seq![h, "Fight"@, hab[a]]));
                    } else if exists|a: int, t: int|
                        0 <= a < hab.len() && 0 <= t < targets_for(abilities@, hab[a], pn, en).len() && q == seq![
                            h,
                            "Fight"@,
                            hab[a],
                            targets_for(abilities@, hab[a], pn, en)[t],
                        ] {
                        let (a, t) = choose|a: int, t: int|
                            0 <= a < hab.len() && 0 <= t < targets_for(abilities@, hab[a], pn, en).len() && q == seq![
                                h,
                                "Fight"@,
                                hab[a],
                                targets_for(abilities@, hab[a], pn, en)[t],
                            ];
                        assert(facts.contains(seq![h, "Fight"@, hab[a], targets_for(abilities@, hab[a], pn, en)[t]]));
                    } else {
                        assert(after_actions.contains(q));
                    }
                }
                assert(fps[i as int].1.name@ == h);
                assert(hab.take(hab.len() as int) =~= hab);
                assert(menu_ops(fps, i + 1, cn, pn, en, abilities@) == menu_ops(fps, i as int, cn, pn, en, abilities@) + hero_ops(
                    h,
                    hab,
                    cn,
                    pn,
                    en,
                    abilities@,
                ));
                assert(ops =~= menu_ops(fps, i + 1, cn, pn, en, abilities@));
                if dist {
                    assert forall|j: int| 0 <= j < i + 1 implies #[trigger] hero_kids(
                        menu@,
                        fps[j].1.name@,
                        cn,
                        abilities_of(fps, fps[j].1.name@),
                        abilities_of(fps, fps[j].1.name@).len() as int,
                        pn,
                        en,
                        abilities@,
                    ) by {
                        if j < i {
                            assert(heroes_done(menu@, fps, i as int, cn, pn, en, abilities@));
                        }
                    }
                }
                let mp = menu_paths(fps, cn, pn, en, abilities@);
                assert forall|q: Seq<Seq<char>>| facts.contains(q) implies mp.contains(q) by {
                    if !start.contains(q) {
                        assert(hp.contains(q));
                    }
                }
            }
            i = i + 1;
        }
        proof {
            if dist {
                assert(member_names(fps).take(n as int) =~= member_names(fps));
                assert forall|j: int| 0 <= j < fps.len() implies #[trigger] hero_kids(
                    menu@,
                    fps[j].1.name@,
                    cn,
                    abilities_of(fps, fps[j].1.name@),
                    abilities_of(fps, fps[j].1.name@).len() as int,
                    pn,
                    en,
                    abilities@,
                ) by {
                    assert(heroes_done(menu@, fps, n as int, cn, pn, en, abilities@));
                }
            }
        }
        let mut ui = Ui::new(menu);
        ui.load_menu();
        ui
    }
}


/// In the action menu, under a member's heal or buff ability come the names
/// of the player's party, and under its damage or status ability the names
/// of the enemies; `i` is the first known ability with that name.
pub proof fn lemma_menu_targets_by_type(
    ui: Ui,
    fp: Seq<(CharacterId, Character)>,
    cn: Seq<Seq<char>>,
    pn: Seq<Seq<char>>,
    en: Seq<Seq<char>>,
    abilities: Seq<Ability>,
    j: int,
    k: int,
    i: int,
)
    requires
        is_action_menu(ui, fp, cn, pn, en, abilities),
        menu_distinct(fp),
        0 <= j < fp.len(),
        0 <= k < abilities_of(fp, fp[j].1.name@).len(),
        is_first_ability(abilities, abilities_of(fp, fp[j].1.name@)[k], i),
    ensures
        (abilities[i].ability_type == AbilityType::Heal || abilities[i].ability_type == AbilityType::Buff) ==> kids_at(
            ui.menu@,
            seq![fp[j].1.name@, "Fight"@, abilities_of(fp, fp[j].1.name@)[k]],
        ) == pn,
        (abilities[i].ability_type == AbilityType::Damage || abilities[i].ability_type == AbilityType::Status) ==> kids_at(
            ui.menu@,
            seq![fp[j].1.name@, "Fight"@, abilities_of(fp, fp[j].1.name@)[k]],
        ) == en,
{
    let h = fp[j].1.name@;
    let hab = abilities_of(fp, h);
    assert(hero_kids(ui.menu@, h, cn, hab, hab.len() as int, pn, en, abilities));
    assert(kids_at(ui.menu@, seq![h, "Fight"@, hab[k]]) == targets_for(abilities, hab[k], pn, en));
    lemma_first_ability_unique(abilities, hab[k], i);
}

/// Whether `ui` is the action menu that party `fp` gets: a fresh menu on which
/// every path for a member leads somewhere, every node lies on such a path,
/// the nodes are those that the insertions of `menu_ops` make in order, and,
/// where no two members share a name and no member has an ability twice,
/// every list of choices comes in order as `menu_in_order` says.
pub open spec fn is_action_menu(
    ui: Ui,
    fp: Seq<(CharacterId, Character)>,
    character_names: Seq<Seq<char>>,
    player_names: Seq<Seq<char>>,
    enemy_names: Seq<Seq<char>>,
    abilities: Seq<Ability>,
) -> bool {
    &&& ui.wf()
    &&& ui.menu.root == 0
    &&& ui.menu_state == MenuState::ChooseActor
    &&& ui.curr_node == 0
    &&& ui.selected_box == 0
    &&& ui.curr_action is None
    &&& shows_children(ui.text_boxes@, ui.menu@, 0, 0)
    &&& forall|q: Seq<Seq<char>>|
        is_menu_path(q, fp, character_names, player_names, enemy_names, abilities) ==> #[trigger] walk(
            ui.menu@,
            0,
            q,
        ) is Some
    &&& forall|i: int|
        0 < i < ui.menu@.len() ==> is_menu_path(
            #[trigger] label_path(ui.menu@, i),
            fp,
            character_names,
            player_names,
            enemy_names,
            abilities,
        )
    &&& menu_distinct(fp) ==> menu_in_order(ui.menu@, fp, character_names, player_names, enemy_names, abilities)
    &&& ui.menu@ == replay(
        seq![leaf("root"@, 0)],
        menu_ops(fp, fp.len() as int, character_names, player_names, enemy_names, abilities),
    )
}

/// Whether `b` is the battle that starts against enemy party `first` for the
/// player's party `fp`: the names of both parties, the bars of the player's
/// party, no choice made, two empty message lines, and the action menu.
pub open spec fn fresh_battle(b: Battle, fp: Seq<(CharacterId, Character)>, first: Seq<Character>, abilities: Seq<Ability>) -> bool {
    &&& b.enemy_party.members() == joined(first)
    &&& b.wf()
    &&& texts(b.player_names@) == member_names(fp)
    &&& texts(b.enemy_names@) == member_names(b.enemy_party.members())
    &&& texts(b.character_names@) == member_names(fp) + member_names(b.enemy_party.members())
    &&& b.player_ui_ids@ == member_ids(fp)
    &&& b.current_action == PendingAction::empty()
    &&& b.dialogue_box@ == seq![Seq::<char>::empty(), Seq::<char>::empty()]
    &&& is_action_menu(
        b.action_menu,
        fp,
        texts(b.character_names@),
        texts(b.player_names@),
        texts(b.enemy_names@),
        abilities,
    )
}

/// Whether the choices made so far fit the choice being made: from the action
/// type on an actor is chosen, from the ability on an action type, and a
/// chosen ability is one of `abilities`.
pub open spec fn choices_fit(p: PendingAction, st: MenuState, abilities: Seq<Ability>) -> bool {
    &&& st != MenuState::ChooseActor ==> p.actor is Some
    &&& (st == MenuState::ChooseAbility || st == MenuState::ChooseTarget) ==> p.action_type is Some
    &&& p.ability matches Some(n) ==> knows_ability(abilities, n@)
}

/// The abilities of the members of `s`, member after member.
pub open spec fn all_abilities(s: Seq<(CharacterId, Character)>) -> Seq<Seq<char>>
    decreases s.len(),
{
    if s.len() == 0 {
        Seq::empty()
    } else {
        all_abilities(s.drop_last()) + texts(s.last().1.abilities@)
    }
}

/// The nodes after links to nodes labelled with each of `labels` are dropped, in order.
pub open spec fn without_labels(nodes: Seq<NodeView>, labels: Seq<Seq<char>>) -> Seq<NodeView>
    decreases labels.len(),
{
    if labels.len() == 0 {
        nodes
    } else {
        without_label(without_labels(nodes, labels.drop_last()), labels.last())
    }
}

impl Battle {
    /// Whether the battle's parts fit together.
    pub open spec fn wf(self) -> bool {
        &&& self.enemy_party.wf()
        &&& self.action_menu.wf()
    }

    /// The next battle: the first of `all_enemies` leaves it to be the enemy
    /// party, and the menu is built for `friendly_party`.
    pub fn new(friendly_party: &Party, all_enemies: &mut Vec<Vec<Character>>, abilities: &Vec<Ability>) -> (b: Self)
        requires
            old(all_enemies)@.len() > 0,
            abilities_known(friendly_party.members(), abilities@),
        ensures
            final(all_enemies)@ == old(all_enemies)@.drop_first(),
            fresh_battle(b, friendly_party.members(), old(all_enemies)@[0]@, abilities@),
    {
        let first = all_enemies.remove(0);
        proof {
            assert(all_enemies@ =~= old(all_enemies)@.drop_first());
        }
        let enemy_party = Party::from_characters(first);
        let player_names = names_of(friendly_party);
        let enemy_names = names_of(&enemy_party);
        let mut character_names = names_of(friendly_party);
        let mut rest = names_of(&enemy_party);
        let ghost front = character_names@;
        let ghost back = rest@;
        character_names.append(&mut rest);
        proof {
            assert(texts(character_names@) =~= texts(front) + texts(back));
        }
        let player_ui_ids = friendly_party.ids();
        let action_menu = Battle::load_action_menu(
            friendly_party,
            &character_names,
            &player_names,
            &enemy_names,
            abilities,
        );
        Battle {
            character_names,
            player_names,
            enemy_names,
            enemy_party,
            action_menu,
            current_action: Action::new(),
            player_ui_ids,
            dialogue_box: DialogueBox::new(),
        }
    }
}

/// The names of a party's members, in order.
fn names_of(party: &Party) -> (v: Vec<String>)
    ensures
        texts(v@) == member_names(party.members()),
{
    let v = party.names();
    proof {
        assert(texts(v@) =~= member_names(party.members()));
    }
    v
}

pub struct MainState {
    pub game_state: GameState,
    pub abilities: Vec<Ability>,
    pub all_enemies: Vec<Vec<Character>>,
    pub curr_battle: Battle,
    pub overworld: Overworld,
    pub friendly_party: Party,
    pub player_abilities: Vec<String>,
    pub win_message: String,
    pub lose_message: String,
    pub error_message: String,
}

impl MainState {
    /// Whether the game's parts fit together: both parties are well formed,
    /// every ability of the player's party is known, and the choices made so
    /// far fit the choice being made.
    pub open spec fn wf(&self) -> bool {
        &&& self.friendly_party.wf()
        &&& self.curr_battle.wf()
        &&& abilities_known(self.friendly_party.members(), self.abilities@)
        &&& forall|k: int| 0 <= k < self.player_abilities@.len() ==> knows_ability(self.abilities@, #[trigger] self.player_abilities@[k]@)
        &&& choices_fit(self.curr_battle.current_action, self.curr_battle.action_menu.menu_state, self.abilities@)
    }

    /// The game at the start of the first battle, from the loaded abilities,
    /// enemy parties and party of the player.
    pub fn new(abilities: Vec<Ability>, all_enemies: Vec<Vec<Character>>, friendly_party: Party) -> (m: Self)
        requires
            all_enemies@.len() > 0,
            friendly_party.wf(),
            abilities_known(friendly_party.members(), abilities@),
        ensures
            m.wf(),
            m.game_state == GameState::BattleState,
            m.abilities@ == abilities@,
            m.all_enemies@ == all_enemies@.drop_first(),
            fresh_battle(m.curr_battle, friendly_party.members(), all_enemies@[0]@, abilities@),
            m.friendly_party == friendly_party,
            texts(m.player_abilities@) == all_abilities(friendly_party.members()),
            m.win_message@ == "You win! Press Enter for next battle."@,
            m.lose_message@ == "All your party members got killed. Game over! (Press Esc to exit)"@,
            m.error_message@ == ""@,
    {
        let player_abilities = abilities_of_party(&friendly_party, &abilities);
        let mut all_enemies = all_enemies;
        let battle = Battle::new(&friendly_party, &mut all_enemies, &abilities);
        MainState {
            game_state: GameState::BattleState,
            abilities,
            all_enemies,
            curr_battle: battle,
            overworld: Overworld::new(),
            friendly_party,
            player_abilities,
            win_message: String::from_str("You win! Press Enter for next battle."),
            lose_message: String::from_str("All your party members got killed. Game over! (Press Esc to exit)"),
            error_message: String::from_str(""),
        }
    }
}

/// The abilities of the members of a party, member after member.
fn abilities_of_party(party: &Party, abilities: &Vec<Ability>) -> (v: Vec<String>)
    requires
        abilities_known(party.members(), abilities@),
    ensures
        texts(v@) == all_abilities(party.members()),
        forall|k: int| 0 <= k < v@.len() ==> knows_ability(abilities@, #[trigger] v@[k]@),
{
    let ghost s = party.members();
    let n = party.len();
    let mut v: Vec<String> = Vec::new();
    let mut i: usize = 0;
    while i < n
        invariant
            n == s.len(),
            s == party.members(),
            i <= n,
            abilities_known(s, abilities@),
            texts(v@) == all_abilities(s.take(i as int)),
            forall|k: int| 0 <= k < v@.len() ==> knows_ability(abilities@, #[trigger] v@[k]@),
        decreases n - i,
    {
        let ch = party.member(i);
        let ghost before = v@;
        let mut j: usize = 0;
        while j < ch.abilities.len()
            invariant
                j <= ch.abilities@.len(),
                *ch == s[i as int].1,
                i < s.len(),
                abilities_known(s, abilities@),
                texts(v@) == texts(before) + texts(ch.abilities@.take(j as int)),
                forall|k: int| 0 <= k < v@.len() ==> knows_ability(abilities@, #[trigger] v@[k]@),
            decreases ch.abilities@.len() - j,
        {
            proof {
                assert(knows_ability(abilities@, s[i as int].1.abilities@[j as int]@));
            }
            let ghost pre = v@;
            let c = ch.abilities[j].clone();
            v.push(c);
            proof {
                assert(texts(v@) =~= texts(pre).push(c@));
                assert(texts(ch.abilities@.take(j + 1)) =~= texts(ch.abilities@.take(j as int)).push(c@));
                assert(texts(v@) =~= texts(before) + texts(ch.abilities@.take(j + 1)));
            }
            j = j + 1;
        }
        proof {
            assert(ch.abilities@.take(ch.abilities@.len() as int) == ch.abilities@);
            assert(s.take(i + 1).drop_last() == s.take(i as int));
            assert(s.take(i + 1).last() == s[i as int]);
        }
        i = i + 1;
    }
    proof {
        assert(s.take(n as int) == s);
    }
    v
}


/// The members of a filtered party know only known abilities.
pub proof fn lemma_known_filter(s: Seq<(CharacterId, Character)>, abilities: Seq<Ability>, p: spec_fn((CharacterId, Character)) -> bool)
    requires
        abilities_known(s, abilities),
    ensures
        abilities_known(s.filter(p), abilities),
{
    let f = s.filter(p);
    assert forall|i: int, k: int| 0 <= i < f.len() && 0 <= k < f[i].1.abilities@.len()
        implies knows_ability(abilities, #[trigger] f[i].1.abilities@[k]@) by {
        s.lemma_filter_contains_rev(p, f[i]);
        broadcast use vstd::seq_lib::group_filter_ensures;
        assert(f.contains(f[i]));
        let j = choose|j: int| 0 <= j < s.len() && s[j] == f[i];
        assert(knows_ability(abilities, s[j].1.abilities@[k]@));
    }
}

/// The ids of the characters of `s`, in order.
pub open spec fn character_ids(s: Seq<(CharacterId, Character)>) -> Seq<CharacterId> {
    s.map_values(|e: (CharacterId, Character)| e.1.id)
}

/// Whether an id is not among `ids`.
pub open spec fn not_among(ids: Seq<CharacterId>, id: CharacterId) -> bool {
    !ids.contains(id)
}

/// Whether cleaning up takes the game from `a` to `b`: the dead leave both
/// parties, every link to a node labelled with a dead member's name leaves the
/// menu, the lines on screen show the menu again, and the dead members' bars go.
pub open spec fn cleaned_up(a: MainState, b: MainState) -> bool {
    &&& b.friendly_party.members() == survivors(a.friendly_party.members())
    &&& b.curr_battle.enemy_party.members() == survivors(a.curr_battle.enemy_party.members())
    &&& b.curr_battle.action_menu.menu@ == without_labels(a.curr_battle.action_menu.menu@, member_names(a.the_dead()))
    &&& b.curr_battle.action_menu.menu.root == a.curr_battle.action_menu.menu.root
    &&& shows_children(b.curr_battle.action_menu.text_boxes@, b.curr_battle.action_menu.menu@, a.curr_battle.action_menu.curr_node, a.curr_battle.action_menu.selected_box)
    &&& b.curr_battle.action_menu.curr_node == a.curr_battle.action_menu.curr_node
    &&& b.curr_battle.action_menu.selected_box == a.curr_battle.action_menu.selected_box
    &&& b.curr_battle.player_ui_ids@ == a.curr_battle.player_ui_ids@.filter(|id: CharacterId| not_among(character_ids(a.the_dead()), id))
    &&& b.curr_battle.current_action == a.curr_battle.current_action
    &&& b.curr_battle.dialogue_box == a.curr_battle.dialogue_box
    &&& b.curr_battle.character_names == a.curr_battle.character_names
    &&& b.curr_battle.player_names == a.curr_battle.player_names
    &&& b.curr_battle.enemy_names == a.curr_battle.enemy_names
    &&& b.game_state == a.game_state
    &&& b.abilities == a.abilities
    &&& b.all_enemies == a.all_enemies
    &&& b.player_abilities == a.player_abilities
    &&& b.win_message == a.win_message
    &&& b.lose_message == a.lose_message
    &&& b.error_message == a.error_message
}

impl MainState {
    /// The dead members of both parties, the player's first.
    pub open spec fn the_dead(&self) -> Seq<(CharacterId, Character)> {
        fallen(self.friendly_party.members()) + fallen(self.curr_battle.enemy_party.members())
    }

    /// Starts the next battle with the first of the enemy parties left.
    pub fn load_next_battle(&mut self)
        requires
            old(self).wf(),
            old(self).all_enemies@.len() > 0,
        ensures
            final(self).wf(),
            final(self).all_enemies@ == old(self).all_enemies@.drop_first(),
            fresh_battle(final(self).curr_battle, old(self).friendly_party.members(), old(self).all_enemies@[0]@, old(self).abilities@),
            *final(self) == (MainState {
                curr_battle: final(self).curr_battle,
                all_enemies: final(self).all_enemies,
                ..*old(self)
            }),
    {
        let next_battle = Battle::new(&self.friendly_party, &mut self.all_enemies, &self.abilities);
        self.curr_battle = next_battle;
    }

    /// The dead members of both parties, the player's first.
    pub fn get_dead_characters(&self) -> (v: Vec<Character>)
        ensures
            v@.len() == self.the_dead().len(),
            forall|i: int| 0 <= i < v@.len() ==> {
                &&& (#[trigger] v@[i]).id == self.the_dead()[i].1.id
                &&& v@[i].name == self.the_dead()[i].1.name
                &&& v@[i].health == 0
            },
    {
        let mut v = self.friendly_party.dead_members();
        let mut rest = self.curr_battle.enemy_party.dead_members();
        let ghost a = v@;
        let ghost b = rest@;
        v.append(&mut rest);
        proof {
            let d = self.the_dead();
            let fa = fallen(self.friendly_party.members());
            assert forall|i: int| 0 <= i < v@.len() implies {
                &&& (#[trigger] v@[i]).id == d[i].1.id
                &&& v@[i].name == d[i].1.name
                &&& v@[i].health == 0
            } by {
                if i < a.len() {
                    assert(v@[i] == a[i]);
                    assert(d[i] == fa[i]);
                } else {
                    assert(v@[i] == b[i - a.len()]);
                    assert(d[i] == fallen(self.curr_battle.enemy_party.members())[i - fa.len()]);
                }
            }
        }
        v
    }

    /// Removes the dead from both parties, from the menu and from the bars.
    pub fn cleanup_dead_characters(&mut self)
        requires
            old(self).wf(),
        ensures
            cleaned_up(*old(self), *final(self)),
            final(self).curr_battle.action_menu.menu_state == old(self).curr_battle.action_menu.menu_state,
            final(self).wf(),
    {
        let ghost dead_pairs = self.the_dead();
        let ghost names = member_names(dead_pairs);
        let ghost ids = character_ids(dead_pairs);
        let ghost menu0 = self.curr_battle.action_menu.menu@;
        let dead_vec = self.get_dead_characters();
        proof {
            lemma_known_filter(self.friendly_party.members(), self.abilities@, |e: (CharacterId, Character)| crate::characters::is_alive(e));
        }
        self.friendly_party.remove_dead();
        self.curr_battle.enemy_party.remove_dead();
        let ghost mid = *self;

        let mut k: usize = 0;
        proof {
            assert(names.take(0) =~= Seq::<Seq<char>>::empty());
        }
        while k < dead_vec.len()
            invariant
                k <= dead_vec@.len(),
                dead_vec@.len() == dead_pairs.len(),
                names == member_names(dead_pairs),
                forall|i: int| 0 <= i < dead_vec@.len() ==> (#[trigger] dead_vec@[i]).name == dead_pairs[i].1.name,
                self.curr_battle.action_menu.wf(),
                self.curr_battle.action_menu.menu@ == without_labels(menu0, names.take(k as int)),
                self.curr_battle.action_menu.menu.root == old(self).curr_battle.action_menu.menu.root,
                self.curr_battle.action_menu.curr_node == old(self).curr_battle.action_menu.curr_node,
                self.curr_battle.action_menu.selected_box == old(self).curr_battle.action_menu.selected_box,
                self.curr_battle.action_menu.menu_state == old(self).curr_battle.action_menu.menu_state,
                self.curr_battle.action_menu.curr_action == old(self).curr_battle.action_menu.curr_action,
                self.friendly_party == mid.friendly_party,
                self.curr_battle.enemy_party == mid.curr_battle.enemy_party,
                self.curr_battle.current_action == mid.curr_battle.current_action,
                self.curr_battle.dialogue_box == mid.curr_battle.dialogue_box,
                self.curr_battle.character_names == mid.curr_battle.character_names,
                self.curr_battle.player_names == mid.curr_battle.player_names,
                self.curr_battle.enemy_names == mid.curr_battle.enemy_names,
                self.curr_battle.player_ui_ids == mid.curr_battle.player_ui_ids,
                self.game_state == mid.game_state,
                self.abilities == mid.abilities,
                self.all_enemies == mid.all_enemies,
                self.player_abilities == mid.player_abilities,
                self.win_message == mid.win_message,
                self.lose_message == mid.lose_message,
                self.error_message == mid.error_message,
            decreases dead_vec@.len() - k,
        {
            self.curr_battle.action_menu.remove_nodes_with_data(dead_vec[k].name.clone());
            proof {
                assert(names.take(k + 1).drop_last() == names.take(k as int));
                assert(names.take(k + 1).last() == dead_vec@[k as int].name@);
            }
            k = k + 1;
        }
        proof {
            assert(names.take(dead_vec@.len() as int) == names);
        }
        self.curr_battle.action_menu.load_menu();

        let mut dead_ids: Vec<CharacterId> = Vec::new();
        let mut j: usize = 0;
        while j < dead_vec.len()
            invariant
                j <= dead_vec@.len(),
                dead_vec@.len() == dead_pairs.len(),
                ids == character_ids(dead_pairs),
                forall|i: int| 0 <= i < dead_vec@.len() ==> (#[trigger] dead_vec@[i]).id == dead_pairs[i].1.id,
                dead_ids@ == ids.take(j as int),
            decreases dead_vec@.len() - j,
        {
            dead_ids.push(dead_vec[j].id);
            proof {
                assert(ids.take(j + 1) =~= ids.take(j as int).push(dead_vec@[j as int].id));
            }
            j = j + 1;
        }
        proof {
            assert(ids.take(dead_vec@.len() as int) == ids);
        }
        let kept = keep_ids(&self.curr_battle.player_ui_ids, &dead_ids);
        self.curr_battle.player_ui_ids = kept;
    }
}

/// The ids of `ids` that are not among `dead`, in order.
fn keep_ids(ids: &Vec<CharacterId>, dead: &Vec<CharacterId>) -> (v: Vec<CharacterId>)
    ensures
        v@ == ids@.filter(|id: CharacterId| not_among(dead@, id)),
{
    let ghost p = |id: CharacterId| not_among(dead@, id);
    let mut v: Vec<CharacterId> = Vec::new();
    let mut i: usize = 0;
    while i < ids.len()
        invariant
            i <= ids@.len(),
            p == (|id: CharacterId| not_among(dead@, id)),
            v@ == ids@.take(i as int).filter(p),
        decreases ids@.len() - i,
    {
        let id = ids[i];
        let mut found = false;
        let mut j: usize = 0;
        while j < dead.len()
            invariant
                j <= dead@.len(),
                found == (exists|k: int| 0 <= k < j && dead@[k] == id),
            decreases dead@.len() - j,
        {
            if dead[j] == id {
                found = true;
            }
            j = j + 1;
        }
        proof {
            reveal(Seq::filter);
            assert(ids@.take(i + 1).drop_last() == ids@.take(i as int));
            assert(ids@.take(i + 1).last() == id);
            assert(found == dead@.contains(id));
        }
        if !found {
            v.push(id);
        }
        i = i + 1;
    }
    proof {
        assert(ids@.take(ids@.len() as int) == ids@);
    }
    v
}


/// The action that the choices `p` make out of `abilities`.
pub open spec fn built_action(p: PendingAction, abilities: Seq<Ability>) -> Action {
    Action {
        action_type: p.action_type->0,
        actor: p.actor->0,
        target: p.target,
        ability: match p.ability {
            Some(n) => Some(abilities[first_ability(abilities, n@)]),
            None => None,
        },
    }
}

/// The pairs with the member at `i` having spent its action points.
pub open spec fn points_spent(s: Seq<(CharacterId, Character)>, i: int) -> Seq<(CharacterId, Character)> {
    s.update(i, (s[i].0, Character { action_points: 0, ..s[i].1 }))
}

/// Whether `b` is `a` but for the parties, the messages and the choices made.
pub open spec fn same_but_fight(a: MainState, b: MainState) -> bool {
    &&& b.game_state == a.game_state
    &&& b.abilities == a.abilities
    &&& b.all_enemies == a.all_enemies
    &&& b.player_abilities == a.player_abilities
    &&& b.win_message == a.win_message
    &&& b.lose_message == a.lose_message
    &&& b.error_message == a.error_message
    &&& b.curr_battle.character_names == a.curr_battle.character_names
    &&& b.curr_battle.player_names == a.curr_battle.player_names
    &&& b.curr_battle.enemy_names == a.curr_battle.enemy_names
    &&& same_view(a.curr_battle.action_menu, b.curr_battle.action_menu)
    &&& b.curr_battle.player_ui_ids == a.curr_battle.player_ui_ids
}

/// Whether `b` shows what `a` shows: the same menu, node, selection and lines.
pub open spec fn same_view(a: Ui, b: Ui) -> bool {
    &&& b.menu == a.menu
    &&& b.curr_node == a.curr_node
    &&& b.selected_box == a.selected_box
    &&& b.text_boxes == a.text_boxes
    &&& b.curr_action == a.curr_action
}

/// Whether the player's turn takes the game from `a` to `b` with result `r`:
/// the choices made become an action, its actor spends its action points and
/// the action is carried out; where the actor or the action cannot be found
/// or carried out, `r` says why and the parties stay as they were.
pub open spec fn turn_taken(a: MainState, b: MainState, r: Result<(), ResolveError>) -> bool {
    let act = built_action(a.curr_battle.current_action, a.abilities@);
    let fp0 = a.friendly_party.members();
    let ep0 = a.curr_battle.enemy_party.members();
    let d0 = a.curr_battle.dialogue_box@;
    let fp1 = b.friendly_party.members();
    let ep1 = b.curr_battle.enemy_party.members();
    let d1 = b.curr_battle.dialogue_box@;
    &&& same_but_fight(a, b)
    &&& b.curr_battle.current_action == PendingAction::empty()
    &&& if !has_named(fp0, act.actor@) {
        &&& r == Err::<(), ResolveError>(ResolveError::UnknownActor)
        &&& fp1 == fp0
        &&& ep1 == ep0
        &&& d1 == d0
    } else {
        let used = points_spent(fp0, first_named(fp0, act.actor@));
        match act.resolve_error(used, ep0) {
            Some(e) => {
                &&& r == Err::<(), ResolveError>(e)
                &&& fp1 == used
                &&& ep1 == ep0
                &&& d1 == d0
            },
            None => {
                &&& r == Ok::<(), ResolveError>(())
                &&& act.effect(used, ep0, d0, fp1, ep1, d1)
            },
        }
    }
}

impl MainState {
    /// The player's turn: the choices made become an action, whose actor
    /// spends its action points before the action is carried out.
    fn complete_turn(&mut self) -> (r: Result<(), ResolveError>)
        requires
            old(self).wf(),
            old(self).curr_battle.current_action.action_type is Some,
            old(self).curr_battle.current_action.actor is Some,
        ensures
            turn_taken(*old(self), *final(self), r),
            final(self).friendly_party.wf(),
            final(self).curr_battle.enemy_party.wf(),
            abilities_known(final(self).friendly_party.members(), final(self).abilities@),
    {
        let ghost a = *self;
        let ghost fp0 = self.friendly_party.members();
        proof {
            if self.curr_battle.current_action.ability is Some {
                assert(knows_ability(self.abilities@, self.curr_battle.current_action.ability->0@));
            }
        }
        let action = self.curr_battle.current_action.build(&self.abilities);
        proof {
            if a.curr_battle.current_action.ability is Some {
                let n = a.curr_battle.current_action.ability->0;
                let i = choose|i: int| is_first_ability(self.abilities@, n@, i) && action.ability == Some(self.abilities@[i]);
                lemma_first_ability_unique(self.abilities@, n@, i);
            }
            assert(action == built_action(a.curr_battle.current_action, a.abilities@));
        }
        match self.friendly_party.position_named(&action.actor) {
            None => {
                return Err(ResolveError::UnknownActor);
            },
            Some(i) => {
                proof {
                    crate::action::lemma_first_named_unique(fp0, action.actor@, i as int);
                }
                let ch = self.friendly_party.member_mut(i);
                ch.use_action_points();
                proof {
                    assert(self.friendly_party.members() =~= points_spent(fp0, i as int));
                    let used = self.friendly_party.members();
                    assert(same_roles(fp0, used));
                    crate::characters::lemma_same_roles_wf(fp0, used);
                }
            },
        }
        let ghost used = self.friendly_party.members();
        let ghost ep0 = self.curr_battle.enemy_party.members();
        let ghost d0 = self.curr_battle.dialogue_box@;
        let r = action.try_resolve(&mut self.friendly_party, &mut self.curr_battle.enemy_party, &mut self.curr_battle.dialogue_box);
        proof {
            if action.resolve_error(used, ep0) is None {
                crate::action::lemma_effect_same_roles(
                    action,
                    used,
                    ep0,
                    d0,
                    self.friendly_party.members(),
                    self.curr_battle.enemy_party.members(),
                    self.curr_battle.dialogue_box@,
                );
                crate::characters::lemma_same_roles_wf(used, self.friendly_party.members());
                crate::characters::lemma_same_roles_wf(ep0, self.curr_battle.enemy_party.members());
            }
            let fp1 = self.friendly_party.members();
            assert forall|i: int, k: int| 0 <= i < fp1.len() && 0 <= k < fp1[i].1.abilities@.len()
                implies knows_ability(self.abilities@, #[trigger] fp1[i].1.abilities@[k]@) by {
                assert(fp1[i].1.abilities == fp0[i].1.abilities);
                assert(knows_ability(self.abilities@, fp0[i].1.abilities@[k]@));
            }
        }
        r
    }
}


/// Whether selecting in `ui` moves down to a child: one is selected.
pub open spec fn lands(ui: Ui) -> bool {
    0 <= ui.selected_box < ui.menu@[ui.curr_node as int].children.len()
}

/// Where selecting in `ui` leads: the selected child, or the current node
/// where no child is selected.
pub open spec fn landing(ui: Ui) -> NodeHandle {
    if lands(ui) {
        ui.menu@[ui.curr_node as int].children[ui.selected_box as int]
    } else {
        ui.curr_node
    }
}

/// The selection after selecting in `ui`: the first line of the new node.
pub open spec fn landing_selection(ui: Ui) -> i32 {
    if lands(ui) {
        0
    } else {
        ui.selected_box
    }
}

/// Whether `b` shows node `node` of the menu of `a`, with selection `sel`.
pub open spec fn ui_at(a: Ui, b: Ui, node: NodeHandle, sel: i32) -> bool {
    &&& b.menu == a.menu
    &&& b.curr_node == node
    &&& b.selected_box == sel
    &&& shows_children(b.text_boxes@, b.menu@, node, sel)
    &&& b.curr_action == a.curr_action
}

/// Whether `b` is `a` but for the menu on screen and the choices made.
pub open spec fn same_but_choice(a: MainState, b: MainState) -> bool {
    &&& b.game_state == a.game_state
    &&& b.abilities == a.abilities
    &&& b.all_enemies == a.all_enemies
    &&& b.player_abilities == a.player_abilities
    &&& b.win_message == a.win_message
    &&& b.lose_message == a.lose_message
    &&& b.error_message == a.error_message
    &&& b.friendly_party == a.friendly_party
    &&& b.curr_battle.enemy_party == a.curr_battle.enemy_party
    &&& b.curr_battle.dialogue_box == a.curr_battle.dialogue_box
    &&& b.curr_battle.character_names == a.curr_battle.character_names
    &&& b.curr_battle.player_names == a.curr_battle.player_names
    &&& b.curr_battle.enemy_names == a.curr_battle.enemy_names
    &&& b.curr_battle.player_ui_ids == a.curr_battle.player_ui_ids
}

/// Whether `p` is `q` with the text `t` chosen as actor.
pub open spec fn with_actor(q: PendingAction, p: PendingAction, t: Seq<char>) -> bool {
    &&& p.actor matches Some(s) && s@ == t
    &&& p.action_type == q.action_type
    &&& p.target == q.target
    &&& p.ability == q.ability
}

/// Whether `p` is `q` with the text `t` chosen as ability.
pub open spec fn with_ability(q: PendingAction, p: PendingAction, t: Seq<char>) -> bool {
    &&& p.ability matches Some(s) && s@ == t
    &&& p.action_type == q.action_type
    &&& p.target == q.target
    &&& p.actor == q.actor
}

/// Whether `p` is `q` with the text `t` chosen as target.
pub open spec fn with_target(q: PendingAction, p: PendingAction, t: Seq<char>) -> bool {
    &&& p.target matches Some(s) && s@ == t
    &&& p.action_type == q.action_type
    &&& p.actor == q.actor
    &&& p.ability == q.ability
}

/// Whether, before a turn, `m` is `a` after selecting with `p` chosen and the
/// menu back at its root.
pub open spec fn ready_for_turn(a: MainState, m: MainState, p: PendingAction) -> bool {
    let ui = a.curr_battle.action_menu;
    &&& same_but_choice(a, m)
    &&& m.curr_battle.current_action == p
    &&& ui_at(ui, m.curr_battle.action_menu, ui.menu.root, landing_selection(ui))
    &&& m.curr_battle.action_menu.menu_state == ui.menu_state
}

/// Whether the player's selection takes the game from `a` to `b` with result
/// `r`. The menu moves to the selected node, whose label `l` is the choice:
/// - choosing an actor, a member of the party named `l` whose action points
///   are full becomes the actor; a member named `l` whose points are not full
///   sends the menu back to its root;
/// - choosing an action type, "Fight" and "Item" go on to the ability and the
///   target, "Guard" is carried out at once and "Flee" starts over;
/// - choosing an ability, one of the party's abilities named `l` becomes the
///   ability, and the target comes next;
/// - choosing a target, a character named `l` becomes the target, the action
///   is carried out, the dead are cleaned up and the actor comes next.
/// `r` is whether the selection found no child, or why an action failed.
pub open spec fn chose(a: MainState, b: MainState, r: Result<bool, ResolveError>) -> bool {
    let ui = a.curr_battle.action_menu;
    let l = ui.menu@[landing(ui) as int].data;
    let missed = !lands(ui);
    let p = a.curr_battle.current_action;
    let fp = a.friendly_party.members();
    let root = ui.menu.root;
    let sel = landing_selection(ui);
    let bui = b.curr_battle.action_menu;
    let bp = b.curr_battle.current_action;
    match ui.menu_state {
        MenuState::ChooseActor => {
            &&& same_but_choice(a, b)
            &&& r == Ok::<bool, ResolveError>(missed)
            &&& if has_named(fp, l) && fp[first_named(fp, l)].1.action_points == crate::characters::MAX_ACTION_POINTS {
                &&& with_actor(p, bp, l)
                &&& ui_at(ui, bui, landing(ui), sel)
                &&& bui.menu_state == MenuState::ChooseActionType
            } else if has_named(fp, l) {
                &&& bp == p
                &&& ui_at(ui, bui, root, sel)
                &&& bui.menu_state == MenuState::ChooseActor
            } else {
                &&& bp == p
                &&& ui_at(ui, bui, landing(ui), sel)
                &&& bui.menu_state == MenuState::ChooseActor
            }
        },
        MenuState::ChooseActionType => {
            if l == "Guard"@ {
                exists|m: MainState, rr: Result<(), ResolveError>| {
                    &&& #[trigger] ready_for_turn(a, m, PendingAction { action_type: Some(ActionType::Guard), ..p })
                    &&& #[trigger] turn_taken(m, b, rr)
                    &&& r == turn_result(rr, missed)
                    &&& bui.menu_state == MenuState::ChooseActor
                }
            } else {
                &&& same_but_choice(a, b)
                &&& r == Ok::<bool, ResolveError>(missed)
                &&& if l == "Fight"@ {
                    &&& bp == PendingAction { action_type: Some(ActionType::Fight), ..p }
                    &&& ui_at(ui, bui, landing(ui), sel)
                    &&& bui.menu_state == MenuState::ChooseAbility
                } else if l == "Item"@ {
                    &&& bp == PendingAction { action_type: Some(ActionType::Item), ..p }
                    &&& ui_at(ui, bui, landing(ui), sel)
                    &&& bui.menu_state == MenuState::ChooseTarget
                } else if l == "Flee"@ {
                    &&& bp == PendingAction { action_type: Some(ActionType::Flee), ..p }
                    &&& ui_at(ui, bui, root, sel)
                    &&& bui.menu_state == MenuState::ChooseActor
                } else {
                    &&& bp == p
                    &&& ui_at(ui, bui, landing(ui), sel)
                    &&& bui.menu_state == ui.menu_state
                }
            }
        },
        MenuState::ChooseAbility => {
            &&& same_but_choice(a, b)
            &&& r == Ok::<bool, ResolveError>(missed)
            &&& if exists|k: int| 0 <= k < a.player_abilities@.len() && a.player_abilities@[k]@ == l {
                with_ability(p, bp, l)
            } else {
                bp == p
            }
            &&& ui_at(ui, bui, landing(ui), sel)
            &&& bui.menu_state == MenuState::ChooseTarget
        },
        MenuState::ChooseTarget => {
            exists|m: MainState, q: PendingAction, t: MainState, rr: Result<(), ResolveError>| {
                &&& (if exists|k: int| 0 <= k < a.curr_battle.character_names@.len() && a.curr_battle.character_names@[k]@ == l {
                    with_target(p, q, l)
                } else {
                    q == p
                })
                &&& #[trigger] ready_for_turn(a, m, q)
                &&& #[trigger] turn_taken(m, t, rr)
                &&& t.curr_battle.action_menu.menu_state == MenuState::ChooseActor
                &&& #[trigger] cleaned_up(t, b)
                &&& r == turn_result(rr, missed)
                &&& bui.menu_state == MenuState::ChooseActor
            }
        },
    }
}

/// What a selection that ends a turn gives back: whether it found no child,
/// or why the turn failed.
pub open spec fn turn_result(rr: Result<(), ResolveError>, missed: bool) -> Result<bool, ResolveError> {
    match rr {
        Ok(_) => Ok(missed),
        Err(e) => Err(e),
    }
}


/// Whether some string of `v` holds the text of `s`.
fn contains_text(v: &Vec<String>, s: &String) -> (b: bool)
    ensures
        b == exists|k: int| 0 <= k < v@.len() && v@[k]@ == s@,
{
    let mut i: usize = 0;
    while i < v.len()
        invariant
            i <= v@.len(),
            forall|k: int| 0 <= k < i ==> v@[k]@ != s@,
        decreases v@.len() - i,
    {
        if v[i] == *s {
            return true;
        }
        i = i + 1;
    }
    false
}

impl MainState {
    /// Selects in the menu, shows the node reached and reads its label;
    /// also whether no child was selected.
    fn pick(&mut self) -> (r: (bool, String))
        requires
            old(self).wf(),
        ensures
            r.0 == !lands(old(self).curr_battle.action_menu),
            r.1@ == old(self).curr_battle.action_menu.menu@[landing(old(self).curr_battle.action_menu) as int].data,
            same_but_choice(*old(self), *final(self)),
            final(self).curr_battle.current_action == old(self).curr_battle.current_action,
            ui_at(
                old(self).curr_battle.action_menu,
                final(self).curr_battle.action_menu,
                landing(old(self).curr_battle.action_menu),
                landing_selection(old(self).curr_battle.action_menu),
            ),
            final(self).curr_battle.action_menu.menu_state == old(self).curr_battle.action_menu.menu_state,
            final(self).wf(),
    {
        let moved = self.curr_battle.action_menu.select();
        self.curr_battle.action_menu.load_menu();
        let curr_selection = self.curr_battle.action_menu.get_curr_data();
        (!moved, curr_selection)
    }

    /// Sends the menu back to its root and shows it.
    fn back_to_root(&mut self)
        requires
            old(self).wf(),
        ensures
            same_but_choice(*old(self), *final(self)),
            final(self).curr_battle.current_action == old(self).curr_battle.current_action,
            ui_at(
                old(self).curr_battle.action_menu,
                final(self).curr_battle.action_menu,
                old(self).curr_battle.action_menu.menu.root,
                old(self).curr_battle.action_menu.selected_box,
            ),
            final(self).curr_battle.action_menu.menu_state == old(self).curr_battle.action_menu.menu_state,
            final(self).wf(),
    {
        self.curr_battle.action_menu.reset();
        self.curr_battle.action_menu.load_menu();
    }

    /// The player selects in the menu: see `chose`.
    pub fn select_choice(&mut self) -> (r: Result<bool, ResolveError>)
        requires
            old(self).wf(),
        ensures
            chose(*old(self), *final(self), r),
            final(self).wf(),
    {
        let ghost a = *self;
        proof {
            reveal_strlit("Fight");
            reveal_strlit("Guard");
            reveal_strlit("Item");
            reveal_strlit("Flee");
            assert("Fight"@[0] == 'F' && "Guard"@[0] == 'G' && "Item"@[0] == 'I' && "Flee"@[0] == 'F');
            assert("Fight"@[1] == 'i' && "Flee"@[1] == 'l');
            assert("Fight"@ != "Guard"@ && "Item"@ != "Guard"@ && "Flee"@ != "Guard"@);
            assert("Item"@ != "Fight"@ && "Flee"@ != "Fight"@ && "Flee"@ != "Item"@);
        }
        let (missed, curr) = self.pick();
        match self.curr_battle.action_menu.menu_state {
            MenuState::ChooseActor => {
                match self.friendly_party.position_named(&curr) {
                    Some(i) => {
                        proof {
                            crate::action::lemma_first_named_unique(self.friendly_party.members(), curr@, i as int);
                        }
                        if self.friendly_party.member(i).action_points_charged() {
                            let _ = self.curr_battle.current_action.actor(curr);
                            self.curr_battle.action_menu.menu_state = MenuState::ChooseActionType;
                        } else {
                            self.back_to_root();
                        }
                    },
                    None => {},
                }
                assert(chose(a, *self, Ok::<bool, ResolveError>(missed)));
                Ok(missed)
            },
            MenuState::ChooseActionType => {
                if same_text(&curr, "Fight") {
                    let _ = self.curr_battle.current_action.action_type(ActionType::Fight);
                    self.curr_battle.action_menu.menu_state = MenuState::ChooseAbility;
                    assert(chose(a, *self, Ok::<bool, ResolveError>(missed)));
                    Ok(missed)
                } else if same_text(&curr, "Guard") {
                    let _ = self.curr_battle.current_action.action_type(ActionType::Guard);
                    self.back_to_root();
                    let ghost m = *self;
                    let rr = self.complete_turn();
                    self.curr_battle.action_menu.menu_state = MenuState::ChooseActor;
                    proof {
                        assert(ready_for_turn(a, m, m.curr_battle.current_action));
                        assert(turn_taken(m, *self, rr));
                        assert(chose(a, *self, turn_result(rr, missed)));
                    }
                    match rr {
                        Ok(()) => Ok(missed),
                        Err(e) => Err(e),
                    }
                } else if same_text(&curr, "Item") {
                    let _ = self.curr_battle.current_action.action_type(ActionType::Item);
                    self.curr_battle.action_menu.menu_state = MenuState::ChooseTarget;
                    assert(chose(a, *self, Ok::<bool, ResolveError>(missed)));
                    Ok(missed)
                } else if same_text(&curr, "Flee") {
                    let _ = self.curr_battle.current_action.action_type(ActionType::Flee);
                    self.back_to_root();
                    self.curr_battle.action_menu.menu_state = MenuState::ChooseActor;
                    assert(chose(a, *self, Ok::<bool, ResolveError>(missed)));
                    Ok(missed)
                } else {
                    assert(chose(a, *self, Ok::<bool, ResolveError>(missed)));
                    Ok(missed)
                }
            },
            MenuState::ChooseAbility => {
                if contains_text(&self.player_abilities, &curr) {
                    let _ = self.curr_battle.current_action.ability(curr);
                }
                self.curr_battle.action_menu.menu_state = MenuState::ChooseTarget;
                assert(chose(a, *self, Ok::<bool, ResolveError>(missed)));
                Ok(missed)
            },
            MenuState::ChooseTarget => {
                if contains_text(&self.curr_battle.character_names, &curr) {
                    let _ = self.curr_battle.current_action.target(curr);
                }
                let ghost q = self.curr_battle.current_action;
                self.back_to_root();
                let ghost m = *self;
                let rr = self.complete_turn();
                self.curr_battle.action_menu.menu_state = MenuState::ChooseActor;
                let ghost t = *self;
                self.cleanup_dead_characters();
                proof {
                    assert(ready_for_turn(a, m, q));
                    assert(turn_taken(m, t, rr));
                    assert(cleaned_up(t, *self));
                    assert(chose(a, *self, turn_result(rr, missed)));
                }
                match rr {
                    Ok(()) => Ok(missed),
                    Err(e) => Err(e),
                }
            },
        }
    }
}


/// The choice one step back from `st`.
pub open spec fn previous_choice(st: MenuState) -> MenuState {
    match st {
        MenuState::ChooseTarget => MenuState::ChooseAbility,
        MenuState::ChooseAbility => MenuState::ChooseActionType,
        MenuState::ChooseActionType => MenuState::ChooseActor,
        MenuState::ChooseActor => MenuState::ChooseActor,
    }
}

/// The order in which the choices of a turn are made: actor, action type,
/// ability, target.
pub open spec fn choice_rank(st: MenuState) -> int {
    match st {
        MenuState::ChooseActor => 0,
        MenuState::ChooseActionType => 1,
        MenuState::ChooseAbility => 2,
        MenuState::ChooseTarget => 3,
    }
}

/// Going back in the battle menu takes the choice being made exactly one step
/// back in the order actor, action type, ability, target; at the actor choice
/// it stays there.
pub proof fn lemma_back_one_step(a: MainState, b: MainState)
    requires
        went_back(a, b),
    ensures
        a.curr_battle.action_menu.menu_state != MenuState::ChooseActor ==> choice_rank(b.curr_battle.action_menu.menu_state)
            == choice_rank(a.curr_battle.action_menu.menu_state) - 1,
        a.curr_battle.action_menu.menu_state == MenuState::ChooseActor ==> b.curr_battle.action_menu.menu_state
            == MenuState::ChooseActor,
{
}

/// Whether going back takes the game from `a` to `b`: the menu moves up to
/// the parent of its node and the choice goes one step back.
pub open spec fn went_back(a: MainState, b: MainState) -> bool {
    let ui = a.curr_battle.action_menu;
    &&& same_but_choice(a, b)
    &&& b.curr_battle.current_action == a.curr_battle.current_action
    &&& ui_at(ui, b.curr_battle.action_menu, ui.menu@[ui.curr_node as int].parent, ui.selected_box)
    &&& b.curr_battle.action_menu.menu_state == previous_choice(ui.menu_state)
}

/// Whether the selection of `ui` can move by `diff` within the bounds of an `i32`.
pub open spec fn can_move(ui: Ui, diff: i32) -> bool {
    &&& i32::MIN <= ui.selected_box + diff <= i32::MAX
    &&& ui.text_boxes@.len() <= i32::MAX
}

/// Whether `b` is `a` with the selection moved by `diff` where it can move,
/// and the lines on screen shown again.
pub open spec fn shifted(a: MainState, b: MainState, diff: i32) -> bool {
    let ui = a.curr_battle.action_menu;
    let sel = if can_move(ui, diff) {
        crate::ui::moved_selection(ui.selected_box, diff, ui.text_boxes@.len() as int)
    } else {
        ui.selected_box
    };
    &&& same_but_choice(a, b)
    &&& b.curr_battle.current_action == a.curr_battle.current_action
    &&& ui_at(ui, b.curr_battle.action_menu, ui.curr_node, sel)
    &&& b.curr_battle.action_menu.menu_state == ui.menu_state
}

/// Whether the keys for moving the selection take the game from `a` to `b`:
/// down moves it one line down, then up one line up.
pub open spec fn navigated(a: MainState, b: MainState, down_pressed: bool, up_pressed: bool) -> bool {
    &&& !down_pressed && !up_pressed ==> b == a
    &&& down_pressed && !up_pressed ==> shifted(a, b, 1)
    &&& !down_pressed && up_pressed ==> shifted(a, b, -1i32)
    &&& down_pressed && up_pressed ==> exists|m: MainState| #[trigger] shifted(a, m, 1) && shifted(m, b, -1i32)
}

/// Whether the keys for choosing take the game from `a` to `b` with result
/// `r`: selecting goes as `chose` says, and then going back as `went_back`
/// says, unless the selection failed.
pub open spec fn selected(a: MainState, b: MainState, select_pressed: bool, back_pressed: bool, r: Result<bool, ResolveError>) -> bool {
    &&& !select_pressed && !back_pressed ==> b == a && r == Ok::<bool, ResolveError>(false)
    &&& !select_pressed && back_pressed ==> went_back(a, b) && r == Ok::<bool, ResolveError>(false)
    &&& select_pressed ==> exists|m: MainState, r1: Result<bool, ResolveError>| {
        &&& #[trigger] chose(a, m, r1)
        &&& (r1 matches Err(e) ==> r == Err::<bool, ResolveError>(e) && b == m)
        &&& (r1 matches Ok(missed) ==> {
            &&& r == Ok::<bool, ResolveError>(missed)
            &&& (back_pressed ==> went_back(m, b))
            &&& (!back_pressed ==> b == m)
        })
    }
}

impl MainState {
    /// The player goes back one choice: see `went_back`.
    pub fn go_back_choice(&mut self)
        requires
            old(self).wf(),
        ensures
            went_back(*old(self), *final(self)),
            final(self).wf(),
    {
        self.curr_battle.action_menu.go_back();
        self.curr_battle.action_menu.load_menu();
        let next = match self.curr_battle.action_menu.menu_state {
            MenuState::ChooseTarget => MenuState::ChooseAbility,
            MenuState::ChooseAbility => MenuState::ChooseActionType,
            MenuState::ChooseActionType => MenuState::ChooseActor,
            MenuState::ChooseActor => MenuState::ChooseActor,
        };
        self.curr_battle.action_menu.menu_state = next;
    }

    /// Moves the selection by `diff` where it can move, and shows the lines again.
    fn shift_selection(&mut self, diff: i32)
        requires
            old(self).wf(),
        ensures
            shifted(*old(self), *final(self), diff),
            final(self).wf(),
    {
        let ui = &self.curr_battle.action_menu;
        let lines = ui.text_boxes.len();
        let fits = lines <= 2147483647usize && match ui.selected_box.checked_add(diff) {
            Some(_) => true,
            None => false,
        };
        if fits {
            self.curr_battle.action_menu.change_selection(diff);
        }
        self.curr_battle.action_menu.load_menu();
    }

    /// Moves the selection down and then up, for the keys pressed.
    pub fn navigate_menu(&mut self, down_pressed: bool, up_pressed: bool)
        requires
            old(self).wf(),
        ensures
            navigated(*old(self), *final(self), down_pressed, up_pressed),
            final(self).wf(),
    {
        let ghost a = *self;
        if down_pressed {
            self.shift_selection(1);
        }
        let ghost m = *self;
        if up_pressed {
            self.shift_selection(-1);
        }
        proof {
            if down_pressed && up_pressed {
                assert(shifted(a, m, 1) && shifted(m, *self, -1i32));
            }
        }
    }

    /// The player's keys for the menu: selecting, then going back.
    pub fn select_player_action(&mut self, select_pressed: bool, back_pressed: bool) -> (r: Result<bool, ResolveError>)
        requires
            old(self).wf(),
        ensures
            selected(*old(self), *final(self), select_pressed, back_pressed, r),
            final(self).wf(),
    {
        let ghost a = *self;
        let mut missed = false;
        if select_pressed {
            let r1 = self.select_choice();
            let ghost m = *self;
            match r1 {
                Err(e) => {
                    assert(chose(a, m, r1));
                    return Err(e);
                },
                Ok(b) => {
                    missed = b;
                },
            }
            if back_pressed {
                self.go_back_choice();
            }
            assert(chose(a, m, r1));
        } else if back_pressed {
            self.go_back_choice();
        }
        Ok(missed)
    }
}


/// Why an enemy could not act.
#[derive(Clone, Copy, Debug, PartialEq, Eq, Structural)]
pub enum EnemyError {
    /// The ability picked is not one of the game's abilities.
    AbilityNotFound,
    /// The enemy has no ability to pick; its action points are spent first.
    NoAbilities,
    /// There is no one to aim at.
    NoTarget,
    /// The action could not be carried out.
    Resolve(ResolveError),
}

/// Whether `i` is the position of the first member of `s` whose action points are full.
pub open spec fn is_first_charged(s: Seq<(CharacterId, Character)>, i: int) -> bool {
    &&& 0 <= i < s.len()
    &&& s[i].1.action_points == crate::characters::MAX_ACTION_POINTS
    &&& forall|j: int| 0 <= j < i ==> s[j].1.action_points != crate::characters::MAX_ACTION_POINTS
}

/// Whether some member of `s` has full action points.
pub open spec fn has_charged(s: Seq<(CharacterId, Character)>) -> bool {
    exists|i: int| 0 <= i < s.len() && s[i].1.action_points == crate::characters::MAX_ACTION_POINTS
}

/// The attack that enemy `i` makes with ability `ab` on target `t`.
pub open spec fn enemy_attack(a: MainState, i: int, ab: Seq<char>, t: String) -> Action {
    Action {
        action_type: ActionType::Fight,
        actor: a.curr_battle.enemy_party.members()[i].1.name,
        target: Some(t),
        ability: Some(a.abilities@[first_ability(a.abilities@, ab)]),
    }
}

/// Whether `b` is `a` but for the parties and the messages.
pub open spec fn only_fight_changed(a: MainState, b: MainState) -> bool {
    &&& same_but_fight(a, b)
    &&& b.curr_battle.current_action == a.curr_battle.current_action
    &&& b.curr_battle.action_menu.menu_state == a.curr_battle.action_menu.menu_state
}

/// Whether enemy `i`'s attack with ability `ab` on `t` takes the game from
/// `a` to `b` with result `r`: the attack is carried out, the enemy's party
/// acting and the player's aimed at, and then the dead are cleaned up; where
/// it cannot be carried out, `r` says why and nothing changes.
pub open spec fn enemy_turn(a: MainState, b: MainState, i: int, ab: Seq<char>, t: String, r: Result<(), EnemyError>) -> bool {
    let act = enemy_attack(a, i, ab, t);
    let ep0 = a.curr_battle.enemy_party.members();
    let fp0 = a.friendly_party.members();
    let d0 = a.curr_battle.dialogue_box@;
    match act.resolve_error(ep0, fp0) {
        Some(e) => {
            &&& r == Err::<(), EnemyError>(EnemyError::Resolve(e))
            &&& only_fight_changed(a, b)
            &&& b.curr_battle.enemy_party.members() == ep0
            &&& b.friendly_party.members() == fp0
            &&& b.curr_battle.dialogue_box@ == d0
        },
        None => {
            &&& r == Ok::<(), EnemyError>(())
            &&& b.curr_battle.action_menu.menu_state == a.curr_battle.action_menu.menu_state
            &&& exists|m: MainState| {
                &&& only_fight_changed(a, m)
                &&& #[trigger] act.effect(
                    ep0,
                    fp0,
                    d0,
                    m.curr_battle.enemy_party.members(),
                    m.friendly_party.members(),
                    m.curr_battle.dialogue_box@,
                )
                &&& cleaned_up(m, b)
            }
        },
    }
}

/// Who an enemy's ability named `ab` may aim at: for damage and status, the
/// members of the player's party; for heals and buffs, the enemies.
pub open spec fn target_pool(a: MainState, ab: Seq<char>) -> Seq<Seq<char>> {
    match a.abilities@[first_ability(a.abilities@, ab)].ability_type {
        AbilityType::Damage | AbilityType::Status => crate::characters::member_names(a.friendly_party.members()),
        AbilityType::Heal | AbilityType::Buff => crate::characters::member_names(a.curr_battle.enemy_party.members()),
    }
}

/// An enemy's heal or buff aims at a member of the enemies' own party, its
/// damage or status ability at a member of the player's party; `i` is the
/// first known ability with that name.
pub proof fn lemma_enemy_pool_by_type(a: MainState, ab: Seq<char>, i: int)
    requires
        is_first_ability(a.abilities@, ab, i),
    ensures
        (a.abilities@[i].ability_type == AbilityType::Heal || a.abilities@[i].ability_type == AbilityType::Buff)
            ==> target_pool(a, ab) == crate::characters::member_names(a.curr_battle.enemy_party.members()),
        (a.abilities@[i].ability_type == AbilityType::Damage || a.abilities@[i].ability_type == AbilityType::Status)
            ==> target_pool(a, ab) == crate::characters::member_names(a.friendly_party.members()),
{
    lemma_first_ability_unique(a.abilities@, ab, i);
}

/// Whether the enemies' move takes the game from `a` to `b` with result `r`.
/// Where no enemy's action points are full, nothing happens. Otherwise the
/// first such enemy spends its points and picks one of its abilities at
/// random; an unknown ability or none at all stops it there. A damage or
/// status ability aims at a random member of the player's party, a heal or a
/// buff at a random enemy, and the attack goes as `enemy_turn` says.
pub open spec fn enemies_moved(a: MainState, b: MainState, r: Result<(), EnemyError>) -> bool {
    let ep0 = a.curr_battle.enemy_party.members();
    if !has_charged(ep0) {
        &&& b == a
        &&& r == Ok::<(), EnemyError>(())
    } else {
        exists|i: int, m: MainState| {
            &&& #[trigger] is_first_charged(ep0, i)
            &&& #[trigger] only_fight_changed(a, m)
            &&& m.curr_battle.enemy_party.members() == points_spent(ep0, i)
            &&& m.friendly_party == a.friendly_party
            &&& m.curr_battle.dialogue_box == a.curr_battle.dialogue_box
            &&& if ep0[i].1.abilities@.len() == 0 {
                &&& r == Err::<(), EnemyError>(EnemyError::NoAbilities)
                &&& b == m
            } else {
                exists|ab: Seq<char>| {
                    &&& #[trigger] texts(ep0[i].1.abilities@).contains(ab)
                    &&& if !knows_ability(a.abilities@, ab) {
                        &&& r == Err::<(), EnemyError>(EnemyError::AbilityNotFound)
                        &&& b == m
                    } else {
                        let pool = target_pool(a, ab);
                        if pool.len() == 0 {
                            &&& r == Err::<(), EnemyError>(EnemyError::NoTarget)
                            &&& b == m
                        } else {
                            exists|t: String| {
                                &&& #[trigger] target_pool(a, ab).contains(t@)
                                &&& enemy_turn(m, b, i, ab, t, r)
                            }
                        }
                    }
                }
            }
        }
    }
}

impl MainState {
    /// Enemy `i` attacks with the ability named `ab` the character named `t`:
    /// see `enemy_turn`.
    pub fn enemy_attacks(&mut self, i: usize, ab: String, t: String) -> (r: Result<(), EnemyError>)
        requires
            old(self).wf(),
            i < old(self).curr_battle.enemy_party.members().len(),
            knows_ability(old(self).abilities@, ab@),
        ensures
            enemy_turn(*old(self), *final(self), i as int, ab@, t, r),
            final(self).wf(),
    {
        let ghost a = *self;
        let actor = self.curr_battle.enemy_party.member(i).name.clone();
        let mut pending = PendingAction::new();
        let _ = pending.actor(actor);
        let _ = pending.action_type(ActionType::Fight);
        let _ = pending.ability(ab);
        let _ = pending.target(t);
        let action = pending.build(&self.abilities);
        proof {
            let n = ab@;
            let k = choose|k: int| is_first_ability(self.abilities@, n, k) && action.ability == Some(self.abilities@[k]);
            lemma_first_ability_unique(self.abilities@, n, k);
            assert(action == enemy_attack(a, i as int, ab@, t));
        }
        let ghost ep0 = self.curr_battle.enemy_party.members();
        let ghost fp0 = self.friendly_party.members();
        let ghost d0 = self.curr_battle.dialogue_box@;
        let r = action.try_resolve(&mut self.curr_battle.enemy_party, &mut self.friendly_party, &mut self.curr_battle.dialogue_box);
        match r {
            Err(e) => {
                proof {
                    crate::characters::lemma_same_roles_wf(ep0, self.curr_battle.enemy_party.members());
                    crate::characters::lemma_same_roles_wf(fp0, self.friendly_party.members());
                    assert(same_roles(fp0, self.friendly_party.members()));
                }
                assert(abilities_known(self.friendly_party.members(), self.abilities@));
                Err(EnemyError::Resolve(e))
            },
            Ok(()) => {
                proof {
                    crate::action::lemma_effect_same_roles(
                        action,
                        ep0,
                        fp0,
                        d0,
                        self.curr_battle.enemy_party.members(),
                        self.friendly_party.members(),
                        self.curr_battle.dialogue_box@,
                    );
                    crate::characters::lemma_same_roles_wf(ep0, self.curr_battle.enemy_party.members());
                    crate::characters::lemma_same_roles_wf(fp0, self.friendly_party.members());
                    let fp1 = self.friendly_party.members();
                    assert forall|x: int, k: int| 0 <= x < fp1.len() && 0 <= k < fp1[x].1.abilities@.len()
                        implies knows_ability(self.abilities@, #[trigger] fp1[x].1.abilities@[k]@) by {
                        assert(fp1[x].1.abilities == fp0[x].1.abilities);
                        assert(knows_ability(self.abilities@, fp0[x].1.abilities@[k]@));
                    }
                }
                let ghost m = *self;
                self.cleanup_dead_characters();
                proof {
                    assert(only_fight_changed(a, m));
                    assert(action.effect(
                        ep0,
                        fp0,
                        d0,
                        m.curr_battle.enemy_party.members(),
                        m.friendly_party.members(),
                        m.curr_battle.dialogue_box@,
                    ));
                    assert(cleaned_up(m, *self));
                }
                Ok(())
            },
        }
    }
}


/// The position of the first ability named `name`, if there is one.
fn find_ability(abilities: &Vec<Ability>, name: &String) -> (r: Option<usize>)
    ensures
        r is None <==> !knows_ability(abilities@, name@),
        r matches Some(i) ==> i as int == first_ability(abilities@, name@) && i < abilities@.len(),
{
    let mut i: usize = 0;
    while i < abilities.len()
        invariant
            i <= abilities.len(),
            forall|j: int| 0 <= j < i ==> abilities@[j].name@ != name@,
        decreases abilities.len() - i,
    {
        if abilities[i].name == *name {
            proof {
                assert(is_first_ability(abilities@, name@, i as int));
                lemma_first_ability_unique(abilities@, name@, i as int);
            }
            return Some(i);
        }
        i = i + 1;
    }
    None
}

impl MainState {
    /// The position of the first enemy whose action points are full, if any.
    fn first_charged_enemy(&self) -> (r: Option<usize>)
        ensures
            r is None <==> !has_charged(self.curr_battle.enemy_party.members()),
            r matches Some(i) ==> is_first_charged(self.curr_battle.enemy_party.members(), i as int),
    {
        let party = &self.curr_battle.enemy_party;
        let n = party.len();
        let mut i: usize = 0;
        while i < n
            invariant
                n == party.members().len(),
                party.members() == self.curr_battle.enemy_party.members(),
                i <= n,
                forall|j: int| 0 <= j < i ==> party.members()[j].1.action_points != crate::characters::MAX_ACTION_POINTS,
            decreases n - i,
        {
            if party.member(i).action_points_charged() {
                return Some(i);
            }
            i = i + 1;
        }
        None
    }

    /// The enemies' move: see `enemies_moved`.
    pub fn enemy_action(&mut self) -> (r: Result<(), EnemyError>)
        requires
            old(self).wf(),
        ensures
            enemies_moved(*old(self), *final(self), r),
            final(self).wf(),
    {
        let ghost a = *self;
        let ghost ep0 = self.curr_battle.enemy_party.members();
        let i = match self.first_charged_enemy() {
            None => {
                return Ok(());
            },
            Some(i) => i,
        };
        let ch = self.curr_battle.enemy_party.member_mut(i);
        ch.use_action_points();
        proof {
            assert(self.curr_battle.enemy_party.members() =~= points_spent(ep0, i as int));
            crate::characters::lemma_same_roles_wf(ep0, self.curr_battle.enemy_party.members());
        }
        let ghost m = *self;
        assert(only_fight_changed(a, m));
        let picked = pick_name(&self.curr_battle.enemy_party.member(i).abilities);
        let ab = match picked {
            None => {
                return Err(EnemyError::NoAbilities);
            },
            Some(x) => x.clone(),
        };
        let ghost hab = texts(ep0[i as int].1.abilities@);
        proof {
            let k = choose|k: int| 0 <= k < ep0[i as int].1.abilities@.len() && ep0[i as int].1.abilities@[k] == ab;
            assert(hab[k] == ab@);
            assert(hab.contains(ab@));
        }
        let pool = match self.enemy_targets(&ab) {
            Err(e) => {
                return Err(e);
            },
            Ok(v) => v,
        };
        proof {
            assert(crate::characters::member_names(points_spent(ep0, i as int)) =~= crate::characters::member_names(ep0));
            assert(texts(pool@) == target_pool(a, ab@));
        }
        let drawn = match pick_name(&pool) {
            None => None,
            Some(x) => Some(x.clone()),
        };
        let ghost dd = drawn;
        proof {
            if dd is Some {
                let t = dd->0;
                let k = choose|k: int| 0 <= k < pool@.len() && pool@[k] == t;
                assert(texts(pool@)[k] == t@);
                assert(texts(pool@).contains(t@));
            }
        }
        let r = self.enemy_strikes(i, ab, drawn);
        proof {
            assert(is_first_charged(ep0, i as int));
            assert(only_fight_changed(a, m));
            assert(hab.contains(ab@));
            if dd is Some {
                assert(enemy_turn(m, *self, i as int, ab@, dd->0, r));
            }
        }
        r
    }

    /// Who an enemy's ability named `ab` may aim at: the player's party for a
    /// damage or status ability, the enemies for a heal or a buff; an unknown
    /// ability is an error.
    pub fn enemy_targets(&self, ab: &String) -> (r: Result<Vec<String>, EnemyError>)
        ensures
            r is Err <==> !knows_ability(self.abilities@, ab@),
            r matches Err(e) ==> e == EnemyError::AbilityNotFound,
            r matches Ok(pool) ==> texts(pool@) == target_pool(*self, ab@),
    {
        let ai = match find_ability(&self.abilities, ab) {
            None => {
                return Err(EnemyError::AbilityNotFound);
            },
            Some(j) => j,
        };
        let pool = match self.abilities[ai].ability_type {
            AbilityType::Damage | AbilityType::Status => names_of(&self.friendly_party),
            _ => names_of(&self.curr_battle.enemy_party),
        };
        Ok(pool)
    }

    /// Enemy `i` attacks with the known ability named `ab` the target drawn,
    /// as `enemy_turn` says; with no target drawn, because there was none to
    /// draw from, nothing happens and the move fails with `NoTarget`.
    pub fn enemy_strikes(&mut self, i: usize, ab: String, target: Option<String>) -> (r: Result<(), EnemyError>)
        requires
            old(self).wf(),
            i < old(self).curr_battle.enemy_party.members().len(),
            knows_ability(old(self).abilities@, ab@),
        ensures
            final(self).wf(),
            target is None ==> r == Err::<(), EnemyError>(EnemyError::NoTarget) && *final(self) == *old(self),
            target matches Some(t) ==> enemy_turn(*old(self), *final(self), i as int, ab@, t, r),
    {
        match target {
            None => Err(EnemyError::NoTarget),
            Some(t) => self.enemy_attacks(i, ab, t),
        }
    }
}


/// The keys pressed in one frame.
#[derive(Clone, Copy, Debug, PartialEq, Eq, Structural)]
pub struct Keys {
    pub up: bool,
    pub down: bool,
    pub select: bool,
    pub back: bool,
    pub confirm: bool,
}

/// Why a frame of the game stopped.
#[derive(Clone, Copy, Debug, PartialEq, Eq, Structural)]
pub enum TickError {
    /// Charging some character's action points would overflow.
    Overflow,
    /// The player's action could not be carried out.
    Player(ResolveError),
}

/// What a frame of the game reports: whether a selection found no child, and
/// how the enemies' move went.
#[derive(Clone, Copy, Debug)]
pub struct Tick {
    pub missed_selection: bool,
    pub enemy_result: Result<(), EnemyError>,
}

/// The pairs after every member charges its action points.
pub open spec fn all_ticked(s: Seq<(CharacterId, Character)>, t: Seq<(CharacterId, Character)>) -> bool {
    &&& t.len() == s.len()
    &&& forall|i: int| 0 <= i < s.len() ==> #[trigger] t[i] == (
        s[i].0,
        Character { action_points: s[i].1.points_after_tick() as u32, ..s[i].1 },
    )
}

/// Whether every member of `s` can charge without overflow.
pub open spec fn can_tick_all(s: Seq<(CharacterId, Character)>) -> bool {
    forall|i: int| 0 <= i < s.len() ==> (#[trigger] s[i]).1.can_tick()
}

/// The phase after a frame of battle: lost when the player's party is empty,
/// else won when the enemies' party is empty.
pub open spec fn after_battle(b: MainState) -> GameState {
    if b.friendly_party.members().len() == 0 {
        GameState::LoseState
    } else if b.curr_battle.enemy_party.members().len() == 0 {
        GameState::WinState
    } else {
        GameState::BattleState
    }
}

/// Whether a frame of battle with keys `k` takes the game from `a` to `b`
/// with result `r`: both parties charge, the player moves the selection and
/// chooses, the enemies move, and the battle is won or lost when a party is
/// empty. Where charging would overflow, nothing changes; where the player's
/// action fails, the frame stops there.
pub open spec fn battle_frame(a: MainState, b: MainState, k: Keys, r: Result<Tick, TickError>) -> bool {
    if !can_tick_all(a.friendly_party.members()) || !can_tick_all(a.curr_battle.enemy_party.members()) {
        b == a && r == Err::<Tick, TickError>(TickError::Overflow)
    } else {
        exists|m1: MainState, m2: MainState, m3: MainState, r3: Result<bool, ResolveError>| {
            &&& #[trigger] only_fight_changed(a, m1)
            &&& all_ticked(a.friendly_party.members(), m1.friendly_party.members())
            &&& all_ticked(a.curr_battle.enemy_party.members(), m1.curr_battle.enemy_party.members())
            &&& m1.curr_battle.dialogue_box == a.curr_battle.dialogue_box
            &&& #[trigger] navigated(m1, m2, k.down, k.up)
            &&& #[trigger] selected(m2, m3, k.select, k.back, r3)
            &&& (r3 matches Err(e) ==> b == m3 && r == Err::<Tick, TickError>(TickError::Player(e)))
            &&& (r3 matches Ok(missed) ==> exists|m4: MainState, er: Result<(), EnemyError>| {
                &&& #[trigger] enemies_moved(m3, m4, er)
                &&& b == (MainState { game_state: after_battle(m4), ..m4 })
                &&& r == Ok::<Tick, TickError>(Tick { missed_selection: missed, enemy_result: er })
            })
        }
    }
}

/// Whether a frame with keys `k` takes the game from `a` to `b` with result
/// `r`. In battle, as `battle_frame` says. After a won battle, confirming
/// starts the next battle, or, with no enemies left, says the game is beaten.
/// Otherwise nothing happens.
pub open spec fn framed(a: MainState, b: MainState, k: Keys, r: Result<Tick, TickError>) -> bool {
    let quiet = Ok::<Tick, TickError>(Tick { missed_selection: false, enemy_result: Ok(()) });
    match a.game_state {
        GameState::BattleState => battle_frame(a, b, k, r),
        GameState::WinState => {
            &&& r == quiet
            &&& if !k.confirm {
                b == a
            } else if a.all_enemies@.len() == 0 {
                &&& b.win_message@ == "Nevermind, it looks like you have no more enemies. You beat the game!"@
                &&& b == (MainState { win_message: b.win_message, ..a })
            } else {
                &&& b.all_enemies@ == a.all_enemies@.drop_first()
                &&& fresh_battle(b.curr_battle, a.friendly_party.members(), a.all_enemies@[0]@, a.abilities@)
                &&& b == (MainState {
                    game_state: GameState::BattleState,
                    curr_battle: b.curr_battle,
                    all_enemies: b.all_enemies,
                    ..a
                })
            }
        },
        _ => b == a && r == quiet,
    }
}

impl MainState {
    /// One frame of the game with the keys pressed: see `framed`.
    pub fn update(&mut self, keys: Keys) -> (r: Result<Tick, TickError>)
        requires
            old(self).wf(),
        ensures
            framed(*old(self), *final(self), keys, r),
            final(self).wf(),
    {
        let ghost a = *self;
        let quiet = Tick { missed_selection: false, enemy_result: Ok(()) };
        match self.game_state {
            GameState::BattleState => {
                if !self.friendly_party.can_tick_all() || !self.curr_battle.enemy_party.can_tick_all() {
                    return Err(TickError::Overflow);
                }
                let ghost fp0 = self.friendly_party.members();
                let ghost ep0 = self.curr_battle.enemy_party.members();
                self.friendly_party.update_action_points();
                self.curr_battle.enemy_party.update_action_points();
                proof {
                    assert(same_roles(fp0, self.friendly_party.members()));
                    assert(same_roles(ep0, self.curr_battle.enemy_party.members()));
                    crate::characters::lemma_same_roles_wf(fp0, self.friendly_party.members());
                    crate::characters::lemma_same_roles_wf(ep0, self.curr_battle.enemy_party.members());
                    let fp1 = self.friendly_party.members();
                    assert forall|x: int, j: int| 0 <= x < fp1.len() && 0 <= j < fp1[x].1.abilities@.len()
                        implies knows_ability(self.abilities@, #[trigger] fp1[x].1.abilities@[j]@) by {
                        assert(fp1[x].1.abilities == fp0[x].1.abilities);
                        assert(knows_ability(self.abilities@, fp0[x].1.abilities@[j]@));
                    }
                }
                let ghost m1 = *self;
                assert(only_fight_changed(a, m1));
                self.navigate_menu(keys.down, keys.up);
                let ghost m2 = *self;
                let r3 = self.select_player_action(keys.select, keys.back);
                let ghost m3 = *self;
                let missed = match r3 {
                    Err(e) => {
                        assert(navigated(m1, m2, keys.down, keys.up));
                        assert(selected(m2, m3, keys.select, keys.back, r3));
                        return Err(TickError::Player(e));
                    },
                    Ok(missed) => missed,
                };
                let er = self.enemy_action();
                let ghost m4 = *self;
                if self.curr_battle.enemy_party.is_empty() {
                    self.game_state = GameState::WinState;
                }
                if self.friendly_party.is_empty() {
                    self.game_state = GameState::LoseState;
                }
                proof {
                    assert(navigated(m1, m2, keys.down, keys.up));
                    assert(selected(m2, m3, keys.select, keys.back, r3));
                    assert(enemies_moved(m3, m4, er));
                    assert(*self == (MainState { game_state: after_battle(m4), ..m4 }));
                }
                Ok(Tick { missed_selection: missed, enemy_result: er })
            },
            GameState::WinState => {
                if keys.confirm {
                    if self.all_enemies.len() == 0 {
                        self.win_message = String::from_str("Nevermind, it looks like you have no more enemies. You beat the game!");
                    } else {
                        self.game_state = GameState::BattleState;
                        self.load_next_battle();
                    }
                }
                Ok(quiet)
            },
            _ => Ok(quiet),
        }
    }

    pub fn friendly_party_died(&self) -> (b: bool)
        ensures
            b == (self.friendly_party.members().len() == 0),
    {
        self.friendly_party.is_empty()
    }

    pub fn enemy_party_died(&self) -> (b: bool)
        ensures
            b == (self.curr_battle.enemy_party.members().len() == 0),
    {
        self.curr_battle.enemy_party.is_empty()
    }
}


impl Character {
    /// Whether every ability of the character is one of `abilities`.
    pub fn is_valid(&self, abilities: &Vec<Ability>) -> (b: bool)
        ensures
            b == forall|k: int| 0 <= k < self.abilities@.len() ==> knows_ability(abilities@, #[trigger] self.abilities@[k]@),
    {
        let mut k: usize = 0;
        while k < self.abilities.len()
            invariant
                k <= self.abilities@.len(),
                forall|j: int| 0 <= j < k ==> knows_ability(abilities@, #[trigger] self.abilities@[j]@),
            decreases self.abilities@.len() - k,
        {
            if find_ability(abilities, &self.abilities[k]).is_none() {
                return false;
            }
            k = k + 1;
        }
        true
    }
}

impl Party {
    /// Whether every ability of every member is one of `abilities`.
    pub fn is_valid(&self, abilities: &Vec<Ability>) -> (b: bool)
        ensures
            b == abilities_known(self.members(), abilities@),
    {
        let n = self.len();
        let mut i: usize = 0;
        while i < n
            invariant
                n == self.members().len(),
                i <= n,
                forall|x: int, k: int| 0 <= x < i && 0 <= k < self.members()[x].1.abilities@.len()
                    ==> knows_ability(abilities@, #[trigger] self.members()[x].1.abilities@[k]@),
            decreases n - i,
        {
            if !self.member(i).is_valid(abilities) {
                return false;
            }
            i = i + 1;
        }
        true
    }
}

} // verus!
