//! A second battle menu, kept in a `SlotMap` of the `slotmap` crate: a tree
//! from the character to choose down to the target, with a cursor that moves
//! through it. Nodes name each other by their keys, as the `u64` that
//! `KeyData::as_ffi` gives.
use vstd::prelude::*;
use slotmap::{DefaultKey, Key, KeyData, SlotMap};
use crate::text::same_text;
use crate::state::Keys;
use crate::ui::MenuEntry;

verus! {

/// What choosing a node leads to.
#[derive(Clone, Copy, Debug, PartialEq, Eq, Structural)]
pub enum MenuNodeKind {
    CharacterSelect,
    ActionSelect,
    AbilitySelect,
    ItemSelect,
    TargetSelect,
}

#[derive(Debug)]
pub struct MenuNode {
    pub kind: MenuNodeKind,
    pub label: String,
    pub parent: Option<u64>,
    pub children: Vec<u64>,
}

/// The menu's nodes, in a `SlotMap` of the `slotmap` crate.
#[verifier::external_body]
pub struct MenuSlots {
    nodes: SlotMap<DefaultKey, MenuNode>,
}

/// The nodes that a `SlotMap` holds, by the `as_ffi` value of their keys.
pub uninterp spec fn menu_slots(m: MenuSlots) -> Map<u64, MenuNode>;

/// The most nodes a `SlotMap` holds: `insert` panics on a full one.
pub open spec fn slot_capacity() -> nat {
    4294967294
}

/// `SlotMap::with_key`: a new map holds no node.
#[verifier::external_body]
pub(crate) fn slots_new() -> (m: MenuSlots)
    ensures
        menu_slots(m).dom() == Set::<u64>::empty(),
{
    MenuSlots { nodes: SlotMap::with_key() }
}

/// `SlotMap::insert`: the node goes in under a key that no node of the map
/// has, given back as its `as_ffi` value. The map must hold fewer than
/// `slot_capacity()` nodes: `insert` panics on a full map.
#[verifier::external_body]
pub(crate) fn slots_insert(m: &mut MenuSlots, node: MenuNode) -> (k: u64)
    requires
        menu_slots(*old(m)).dom().finite(),
        menu_slots(*old(m)).dom().len() < slot_capacity(),
    ensures
        !menu_slots(*old(m)).dom().contains(k),
        menu_slots(*final(m)) == menu_slots(*old(m)).insert(k, node),
{
    m.nodes.insert(node).data().as_ffi()
}

/// `SlotMap::get` on the key that `KeyData::from_ffi` makes of `k`, for a key
/// the map holds: its node. `from_ffi` gives back the key whose `as_ffi` was `k`.
#[verifier::external_body]
pub(crate) fn slots_get(m: &MenuSlots, k: u64) -> (r: Option<&MenuNode>)
    requires
        menu_slots(*m).dom().contains(k),
    ensures
        r is Some,
        r matches Some(v) ==> *v == menu_slots(*m)[k],
{
    m.nodes.get(KeyData::from_ffi(k).into())
}

/// `SlotMap::get_mut` on the key that `KeyData::from_ffi` makes of `k`, for a
/// key the map holds: its node, to be changed in place; the map then holds the
/// changed node under `k` and is otherwise as it was.
#[verifier::external_body]
pub(crate) fn slots_get_mut(m: &mut MenuSlots, k: u64) -> (r: Option<&mut MenuNode>)
    requires
        menu_slots(*old(m)).dom().contains(k),
    ensures
        r is Some,
        *r->0 == menu_slots(*old(m))[k],
        menu_slots(*final(m)) == menu_slots(*old(m)).insert(k, *final(r->0)),
{
    m.nodes.get_mut(KeyData::from_ffi(k).into())
}


/// Whether `b` records, for each node of `m`, how many nodes `m` held when the
/// node went in.
pub open spec fn born_wf(m: Map<u64, MenuNode>, b: Map<u64, nat>) -> bool {
    &&& m.dom().finite()
    &&& b.dom() == m.dom()
    &&& forall|x: u64| #[trigger] b.dom().contains(x) ==> b[x] < m.dom().len()
}

/// Whether node `k` went in while the map held from `lo` up to `hi` nodes.
pub open spec fn in_window(b: Map<u64, nat>, lo: nat, hi: nat, k: u64) -> bool {
    &&& b.dom().contains(k)
    &&& lo <= b[k]
    &&& b[k] < hi
}

/// A record in which every node went in first: for statements that do not
/// care when nodes went in.
pub open spec fn any_time() -> Map<u64, nat> {
    Map::new(|x: u64| true, |x: u64| 0nat)
}

/// Whether every node of `m1` that went in between `lo` and `hi` is in `m2`
/// unchanged and recorded alike.
pub open spec fn agree(m1: Map<u64, MenuNode>, b1: Map<u64, nat>, m2: Map<u64, MenuNode>, b2: Map<u64, nat>, lo: nat, hi: nat) -> bool {
    forall|x: u64| #[trigger] in_window(b1, lo, hi, x) ==> {
        &&& m2.dom().contains(x)
        &&& m1.dom().contains(x)
        &&& m2[x] == m1[x]
        &&& b2.dom().contains(x)
        &&& b2[x] == b1[x]
    }
}

/// Whether `n` is `o` with `child` added last to its children.
pub open spec fn pushed(o: MenuNode, n: MenuNode, child: u64) -> bool {
    &&& n.kind == o.kind
    &&& n.label == o.label
    &&& n.parent == o.parent
    &&& n.children@ == o.children@.push(child)
}

/// Whether `m` has at `k` a target labelled `label` under `parent`, which
/// went in within the window.
pub open spec fn is_target(m: Map<u64, MenuNode>, b: Map<u64, nat>, lo: nat, hi: nat, k: u64, label: Seq<char>, parent: u64) -> bool {
    &&& in_window(b, lo, hi, k)
    &&& m.dom().contains(k)
    &&& m[k].kind == MenuNodeKind::TargetSelect
    &&& m[k].label@ == label
    &&& m[k].parent == Some(parent)
    &&& m[k].children@.len() == 0
}

/// Whether `m` has at `k` an ability or an item (`kind`) labelled `label`
/// under `parent`, with one target for each of `enemies`, all within the window.
pub open spec fn is_choice(
    m: Map<u64, MenuNode>,
    b: Map<u64, nat>,
    lo: nat,
    hi: nat,
    k: u64,
    kind: MenuNodeKind,
    label: Seq<char>,
    parent: u64,
    enemies: Seq<Seq<char>>,
) -> bool {
    &&& in_window(b, lo, hi, k)
    &&& m.dom().contains(k)
    &&& m[k].kind == kind
    &&& m[k].label@ == label
    &&& m[k].parent == Some(parent)
    &&& m[k].children@.len() == enemies.len()
    &&& forall|e: int| 0 <= e < enemies.len() ==> is_target(m, b, lo, hi, #[trigger] m[k].children@[e], enemies[e], k)
}

/// Whether `m` has at `k` the action labelled `label` under `parent`: "Fight"
/// leads to the abilities, "Item" to the items, each with its targets, and
/// the others lead nowhere; all within the window.
pub open spec fn is_action(
    m: Map<u64, MenuNode>,
    b: Map<u64, nat>,
    lo: nat,
    hi: nat,
    k: u64,
    label: Seq<char>,
    parent: u64,
    abilities: Seq<Seq<char>>,
    items: Seq<Seq<char>>,
    enemies: Seq<Seq<char>>,
) -> bool {
    &&& in_window(b, lo, hi, k)
    &&& m.dom().contains(k)
    &&& m[k].kind == MenuNodeKind::ActionSelect
    &&& m[k].label@ == label
    &&& m[k].parent == Some(parent)
    &&& if label == "Fight"@ {
        &&& m[k].children@.len() == abilities.len()
        &&& forall|a: int| 0 <= a < abilities.len() ==> is_choice(m, b, lo, hi, #[trigger] m[k].children@[a], MenuNodeKind::AbilitySelect, abilities[a], k, enemies)
    } else if label == "Item"@ {
        &&& m[k].children@.len() == items.len()
        &&& forall|a: int| 0 <= a < items.len() ==> is_choice(m, b, lo, hi, #[trigger] m[k].children@[a], MenuNodeKind::ItemSelect, items[a], k, enemies)
    } else {
        m[k].children@.len() == 0
    }
}

/// The label of a character's action at position `i`.
pub open spec fn action_label(i: int) -> Seq<char> {
    if i == 0 {
        "Fight"@
    } else if i == 1 {
        "Guard"@
    } else if i == 2 {
        "Item"@
    } else {
        "Flee"@
    }
}

/// Whether `m` has at `k` the character `name` under `root`, with its four
/// actions in order, all within the window.
pub open spec fn is_character(
    m: Map<u64, MenuNode>,
    b: Map<u64, nat>,
    lo: nat,
    hi: nat,
    k: u64,
    name: Seq<char>,
    root: u64,
    abilities: Seq<Seq<char>>,
    items: Seq<Seq<char>>,
    enemies: Seq<Seq<char>>,
) -> bool {
    &&& in_window(b, lo, hi, k)
    &&& m.dom().contains(k)
    &&& m[k].kind == MenuNodeKind::ActionSelect
    &&& m[k].label@ == name
    &&& m[k].parent == Some(root)
    &&& m[k].children@.len() == 4
    &&& forall|i: int| 0 <= i < 4 ==> is_action(m, b, lo, hi, #[trigger] m[k].children@[i], action_label(i), k, abilities, items, enemies)
}

/// Whether `m` is the menu with root `root`, "Choose Character", over one
/// node for each of `characters`.
pub open spec fn is_menu(
    m: Map<u64, MenuNode>,
    root: u64,
    characters: Seq<Seq<char>>,
    abilities: Seq<Seq<char>>,
    items: Seq<Seq<char>>,
    enemies: Seq<Seq<char>>,
) -> bool {
    &&& m.dom().contains(root)
    &&& m[root].kind == MenuNodeKind::CharacterSelect
    &&& m[root].label@ == "Choose Character"@
    &&& m[root].parent is None
    &&& m[root].children@.len() == characters.len()
    &&& forall|c: int| 0 <= c < characters.len() ==> is_character(m, any_time(), 0, 1, #[trigger] m[root].children@[c], characters[c], root, abilities, items, enemies)
}

/// How many nodes an ability or an item makes, with its targets.
pub open spec fn choice_size(enemies: nat) -> nat {
    1 + enemies
}

/// How many nodes an action makes.
pub open spec fn action_size(label: Seq<char>, abilities: nat, items: nat, enemies: nat) -> nat {
    if label == "Fight"@ {
        1 + abilities * choice_size(enemies)
    } else if label == "Item"@ {
        1 + items * choice_size(enemies)
    } else {
        1
    }
}

/// How many nodes a character makes, with its actions.
pub open spec fn character_size(abilities: nat, items: nat, enemies: nat) -> nat {
    5 + abilities * choice_size(enemies) + items * choice_size(enemies)
}

/// How many nodes the menu makes.
pub open spec fn menu_size(characters: nat, abilities: nat, items: nat, enemies: nat) -> nat {
    1 + characters * character_size(abilities, items, enemies)
}

/// The texts of some strings.
pub open spec fn labels(v: Seq<String>) -> Seq<Seq<char>> {
    v.map_values(|s: String| s@)
}

/// A target is one whatever changes outside its window.
proof fn lemma_target_frame(m1: Map<u64, MenuNode>, b1: Map<u64, nat>, m2: Map<u64, MenuNode>, b2: Map<u64, nat>, lo: nat, hi: nat, k: u64, label: Seq<char>, parent: u64)
    requires
        is_target(m1, b1, lo, hi, k, label, parent),
        agree(m1, b1, m2, b2, lo, hi),
    ensures
        is_target(m2, b2, lo, hi, k, label, parent),
{
    assert(in_window(b1, lo, hi, k));
}

/// A choice is one whatever changes outside its window.
proof fn lemma_choice_frame(
    m1: Map<u64, MenuNode>,
    b1: Map<u64, nat>,
    m2: Map<u64, MenuNode>,
    b2: Map<u64, nat>,
    lo: nat,
    hi: nat,
    k: u64,
    kind: MenuNodeKind,
    label: Seq<char>,
    parent: u64,
    enemies: Seq<Seq<char>>,
)
    requires
        is_choice(m1, b1, lo, hi, k, kind, label, parent, enemies),
        agree(m1, b1, m2, b2, lo, hi),
    ensures
        is_choice(m2, b2, lo, hi, k, kind, label, parent, enemies),
{
    assert(in_window(b1, lo, hi, k));
    assert forall|e: int| 0 <= e < enemies.len() implies is_target(m2, b2, lo, hi, #[trigger] m2[k].children@[e], enemies[e], k) by {
        lemma_target_frame(m1, b1, m2, b2, lo, hi, m1[k].children@[e], enemies[e], k);
    }
}

/// An action is one whatever changes outside its window.
proof fn lemma_action_frame(
    m1: Map<u64, MenuNode>,
    b1: Map<u64, nat>,
    m2: Map<u64, MenuNode>,
    b2: Map<u64, nat>,
    lo: nat,
    hi: nat,
    k: u64,
    label: Seq<char>,
    parent: u64,
    abilities: Seq<Seq<char>>,
    items: Seq<Seq<char>>,
    enemies: Seq<Seq<char>>,
)
    requires
        is_action(m1, b1, lo, hi, k, label, parent, abilities, items, enemies),
        agree(m1, b1, m2, b2, lo, hi),
    ensures
        is_action(m2, b2, lo, hi, k, label, parent, abilities, items, enemies),
{
    assert(in_window(b1, lo, hi, k));
    if label == "Fight"@ {
        assert forall|a: int| 0 <= a < abilities.len() implies is_choice(m2, b2, lo, hi, #[trigger] m2[k].children@[a], MenuNodeKind::AbilitySelect, abilities[a], k, enemies) by {
            lemma_choice_frame(m1, b1, m2, b2, lo, hi, m1[k].children@[a], MenuNodeKind::AbilitySelect, abilities[a], k, enemies);
        }
    } else if label == "Item"@ {
        assert forall|a: int| 0 <= a < items.len() implies is_choice(m2, b2, lo, hi, #[trigger] m2[k].children@[a], MenuNodeKind::ItemSelect, items[a], k, enemies) by {
            lemma_choice_frame(m1, b1, m2, b2, lo, hi, m1[k].children@[a], MenuNodeKind::ItemSelect, items[a], k, enemies);
        }
    }
}

/// A character is one whatever changes outside its window.
proof fn lemma_character_frame(
    m1: Map<u64, MenuNode>,
    b1: Map<u64, nat>,
    m2: Map<u64, MenuNode>,
    b2: Map<u64, nat>,
    lo: nat,
    hi: nat,
    k: u64,
    name: Seq<char>,
    root: u64,
    abilities: Seq<Seq<char>>,
    items: Seq<Seq<char>>,
    enemies: Seq<Seq<char>>,
)
    requires
        is_character(m1, b1, lo, hi, k, name, root, abilities, items, enemies),
        agree(m1, b1, m2, b2, lo, hi),
    ensures
        is_character(m2, b2, lo, hi, k, name, root, abilities, items, enemies),
{
    assert(in_window(b1, lo, hi, k));
    assert forall|i: int| 0 <= i < 4 implies is_action(m2, b2, lo, hi, #[trigger] m2[k].children@[i], action_label(i), k, abilities, items, enemies) by {
        lemma_action_frame(m1, b1, m2, b2, lo, hi, m1[k].children@[i], action_label(i), k, abilities, items, enemies);
    }
}

/// A target within a window is one within any window around it.
proof fn lemma_target_widen(m: Map<u64, MenuNode>, b: Map<u64, nat>, lo: nat, hi: nat, b2: Map<u64, nat>, lo2: nat, hi2: nat, k: u64, label: Seq<char>, parent: u64)
    requires
        is_target(m, b, lo, hi, k, label, parent),
        b2 == b && lo2 <= lo && hi <= hi2 || b2 == any_time() && lo2 == 0 && hi2 == 1,
    ensures
        is_target(m, b2, lo2, hi2, k, label, parent),
{
}

/// A choice within a window is one within any window around it.
proof fn lemma_choice_widen(
    m: Map<u64, MenuNode>,
    b: Map<u64, nat>,
    lo: nat,
    hi: nat,
    b2: Map<u64, nat>,
    lo2: nat,
    hi2: nat,
    k: u64,
    kind: MenuNodeKind,
    label: Seq<char>,
    parent: u64,
    enemies: Seq<Seq<char>>,
)
    requires
        is_choice(m, b, lo, hi, k, kind, label, parent, enemies),
        b2 == b && lo2 <= lo && hi <= hi2 || b2 == any_time() && lo2 == 0 && hi2 == 1,
    ensures
        is_choice(m, b2, lo2, hi2, k, kind, label, parent, enemies),
{
    assert forall|e: int| 0 <= e < enemies.len() implies is_target(m, b2, lo2, hi2, #[trigger] m[k].children@[e], enemies[e], k) by {
        lemma_target_widen(m, b, lo, hi, b2, lo2, hi2, m[k].children@[e], enemies[e], k);
    }
}

/// An action within a window is one within any window around it.
proof fn lemma_action_widen(
    m: Map<u64, MenuNode>,
    b: Map<u64, nat>,
    lo: nat,
    hi: nat,
    b2: Map<u64, nat>,
    lo2: nat,
    hi2: nat,
    k: u64,
    label: Seq<char>,
    parent: u64,
    abilities: Seq<Seq<char>>,
    items: Seq<Seq<char>>,
    enemies: Seq<Seq<char>>,
)
    requires
        is_action(m, b, lo, hi, k, label, parent, abilities, items, enemies),
        b2 == b && lo2 <= lo && hi <= hi2 || b2 == any_time() && lo2 == 0 && hi2 == 1,
    ensures
        is_action(m, b2, lo2, hi2, k, label, parent, abilities, items, enemies),
{
    if label == "Fight"@ {
        assert forall|a: int| 0 <= a < abilities.len() implies is_choice(m, b2, lo2, hi2, #[trigger] m[k].children@[a], MenuNodeKind::AbilitySelect, abilities[a], k, enemies) by {
            lemma_choice_widen(m, b, lo, hi, b2, lo2, hi2, m[k].children@[a], MenuNodeKind::AbilitySelect, abilities[a], k, enemies);
        }
    } else if label == "Item"@ {
        assert forall|a: int| 0 <= a < items.len() implies is_choice(m, b2, lo2, hi2, #[trigger] m[k].children@[a], MenuNodeKind::ItemSelect, items[a], k, enemies) by {
            lemma_choice_widen(m, b, lo, hi, b2, lo2, hi2, m[k].children@[a], MenuNodeKind::ItemSelect, items[a], k, enemies);
        }
    }
}

/// A character within a window is one within any window around it.
proof fn lemma_character_widen(
    m: Map<u64, MenuNode>,
    b: Map<u64, nat>,
    lo: nat,
    hi: nat,
    b2: Map<u64, nat>,
    lo2: nat,
    hi2: nat,
    k: u64,
    name: Seq<char>,
    root: u64,
    abilities: Seq<Seq<char>>,
    items: Seq<Seq<char>>,
    enemies: Seq<Seq<char>>,
)
    requires
        is_character(m, b, lo, hi, k, name, root, abilities, items, enemies),
        b2 == b && lo2 <= lo && hi <= hi2 || b2 == any_time() && lo2 == 0 && hi2 == 1,
    ensures
        is_character(m, b2, lo2, hi2, k, name, root, abilities, items, enemies),
{
    assert forall|i: int| 0 <= i < 4 implies is_action(m, b2, lo2, hi2, #[trigger] m[k].children@[i], action_label(i), k, abilities, items, enemies) by {
        lemma_action_widen(m, b, lo, hi, b2, lo2, hi2, m[k].children@[i], action_label(i), k, abilities, items, enemies);
    }
}


/// Whether every parent and child that a node of `m` names is a node of `m`.
pub open spec fn linked(m: Map<u64, MenuNode>) -> bool {
    forall|x: u64| #[trigger] m.dom().contains(x) ==> {
        &&& (m[x].parent matches Some(p) ==> m.dom().contains(p))
        &&& forall|i: int| 0 <= i < m[x].children@.len() ==> m.dom().contains(#[trigger] m[x].children@[i])
    }
}

/// Whether every node of `m1` but `p` is in `m2` unchanged, and every record
/// of `b1` is in `b2` unchanged.
pub open spec fn kept(m1: Map<u64, MenuNode>, b1: Map<u64, nat>, m2: Map<u64, MenuNode>, b2: Map<u64, nat>, p: u64) -> bool {
    &&& forall|x: u64| #[trigger] m1.dom().contains(x) && x != p ==> m2.dom().contains(x) && m2[x] == m1[x]
    &&& forall|x: u64| #[trigger] b1.dom().contains(x) ==> b2.dom().contains(x) && b2[x] == b1[x]
}

/// Whether `m2` comes from `m1` by new nodes and `child` added last to the
/// children of `p`, every other node staying as it was.
pub open spec fn grew(m1: Map<u64, MenuNode>, b1: Map<u64, nat>, m2: Map<u64, MenuNode>, b2: Map<u64, nat>, p: u64, child: u64) -> bool {
    &&& kept(m1, b1, m2, b2, p)
    &&& m1.dom().contains(p)
    &&& m2.dom().contains(p)
    &&& pushed(m1[p], m2[p], child)
}

/// What changes under a node that went in outside a window leaves the window
/// as it was.
proof fn lemma_kept_agree(m1: Map<u64, MenuNode>, b1: Map<u64, nat>, m2: Map<u64, MenuNode>, b2: Map<u64, nat>, p: u64, lo: nat, hi: nat)
    requires
        born_wf(m1, b1),
        kept(m1, b1, m2, b2, p),
        !in_window(b1, lo, hi, p),
    ensures
        agree(m1, b1, m2, b2, lo, hi),
{
    assert forall|x: u64| #[trigger] in_window(b1, lo, hi, x) implies {
        &&& m2.dom().contains(x)
        &&& m1.dom().contains(x)
        &&& m2[x] == m1[x]
        &&& b2.dom().contains(x)
        &&& b2[x] == b1[x]
    } by {
        assert(m1.dom().contains(x));
    }
}

/// Puts `node` in the map; the record notes how many nodes it held before.
fn add_node(m: &mut MenuSlots, Ghost(b): Ghost<Map<u64, nat>>, node: MenuNode) -> (r: (u64, Ghost<Map<u64, nat>>))
    requires
        born_wf(menu_slots(*old(m)), b),
        linked(menu_slots(*old(m))),
        menu_slots(*old(m)).dom().len() < slot_capacity(),
        node.parent matches Some(p) ==> menu_slots(*old(m)).dom().contains(p),
        node.children@.len() == 0,
    ensures
        !menu_slots(*old(m)).dom().contains(r.0),
        menu_slots(*final(m)) == menu_slots(*old(m)).insert(r.0, node),
        r.1@ == b.insert(r.0, menu_slots(*old(m)).dom().len()),
        born_wf(menu_slots(*final(m)), r.1@),
        linked(menu_slots(*final(m))),
        menu_slots(*final(m)).dom().len() == menu_slots(*old(m)).dom().len() + 1,
        kept(menu_slots(*old(m)), b, menu_slots(*final(m)), r.1@, r.0),
{
    let ghost m0 = menu_slots(*m);
    let ghost n0 = m0.dom().len();
    let ghost nd = node;
    let k = slots_insert(m, node);
    let ghost b2 = b.insert(k, n0);
    proof {
        let m1 = menu_slots(*m);
        assert(m1.dom() == m0.dom().insert(k));
        assert(m1.dom().len() == n0 + 1);
        assert(b2.dom() == m1.dom());
        assert forall|x: u64| #[trigger] m1.dom().contains(x) implies {
            &&& (m1[x].parent matches Some(p) ==> m1.dom().contains(p))
            &&& forall|i: int| 0 <= i < m1[x].children@.len() ==> m1.dom().contains(#[trigger] m1[x].children@[i])
        } by {
            if x != k {
                assert(m0.dom().contains(x));
                assert(m1[x] == m0[x]);
            }
        }
    }
    (k, Ghost(b2))
}

/// Adds `child` last to the children of node `p`.
fn attach(m: &mut MenuSlots, p: u64, child: u64)
    requires
        menu_slots(*old(m)).dom().contains(p),
        menu_slots(*old(m)).dom().contains(child),
        linked(menu_slots(*old(m))),
    ensures
        menu_slots(*final(m)) == menu_slots(*old(m)).insert(p, menu_slots(*final(m))[p]),
        pushed(menu_slots(*old(m))[p], menu_slots(*final(m))[p], child),
        linked(menu_slots(*final(m))),
{
    let ghost m0 = menu_slots(*m);
    let r = slots_get_mut(m, p);
    match r {
        Some(n) => {
            n.children.push(child);
        },
        None => {},
    }
    proof {
        let m1 = menu_slots(*m);
        assert(m1.dom() == m0.dom());
        assert forall|x: u64| #[trigger] m1.dom().contains(x) implies {
            &&& (m1[x].parent matches Some(q) ==> m1.dom().contains(q))
            &&& forall|i: int| 0 <= i < m1[x].children@.len() ==> m1.dom().contains(#[trigger] m1[x].children@[i])
        } by {
            assert(m0.dom().contains(x));
            if x == p {
                assert forall|i: int| 0 <= i < m1[x].children@.len() implies m1.dom().contains(#[trigger] m1[x].children@[i]) by {
                    if i < m0[p].children@.len() {
                        assert(m1[x].children@[i] == m0[p].children@[i]);
                    }
                }
            }
        }
    }
}

/// Whether, in `m` with records `b`, every node's parent went in before it
/// and lists it once among its children, and every child names as parent the
/// node that lists it.
#[verifier::opaque]
pub open spec fn links_ok(m: Map<u64, MenuNode>, b: Map<u64, nat>) -> bool {
    &&& forall|k: u64| #[trigger] m.dom().contains(k) ==> (m[k].parent matches Some(p) ==> {
        &&& m.dom().contains(p)
        &&& b[p] < b[k]
        &&& m[p].children@.contains(k)
    })
    &&& forall|k: u64, i: int| m.dom().contains(k) && 0 <= i < m[k].children@.len()
        ==> m[#[trigger] m[k].children@[i]].parent == Some(k)
    &&& forall|k: u64| #[trigger] m.dom().contains(k) ==> m[k].children@.no_duplicates()
}

/// Whether every node of `m2` without a parent was already in `m1`, without one.
#[verifier::opaque]
pub open spec fn orphans_kept(m1: Map<u64, MenuNode>, m2: Map<u64, MenuNode>) -> bool {
    forall|k: u64| #[trigger] m2.dom().contains(k) && m2[k].parent is None ==> m1.dom().contains(k) && m1[k].parent is None
}

/// Whether the nodes of `m` form one tree under `root`: the root has no
/// parent, every other node has one, which lists it once among its children,
/// every child names as parent the node that lists it, and some ranking puts
/// every parent before its children, so that following parents from any node
/// ends at the root.
pub open spec fn menu_tree(m: Map<u64, MenuNode>, root: u64) -> bool {
    &&& m.dom().contains(root)
    &&& m[root].parent is None
    &&& forall|k: u64| #[trigger] m.dom().contains(k) && k != root ==> m[k].parent is Some
    &&& forall|k: u64| #[trigger] m.dom().contains(k) ==> (m[k].parent matches Some(p) ==> m[p].children@.contains(k))
    &&& forall|k: u64, i: int| m.dom().contains(k) && 0 <= i < m[k].children@.len()
        ==> m[#[trigger] m[k].children@[i]].parent == Some(k)
    &&& forall|k: u64| #[trigger] m.dom().contains(k) ==> m[k].children@.no_duplicates()
    &&& exists|rank: Map<u64, nat>| #[trigger] ranked(m, rank)
}

/// Whether `rank` puts every parent of a node of `m` before the node.
pub open spec fn ranked(m: Map<u64, MenuNode>, rank: Map<u64, nat>) -> bool {
    forall|k: u64| #[trigger] m.dom().contains(k) ==> (m[k].parent matches Some(p) ==> rank[p] < rank[k])
}

/// Nodes without a parent stay the ones that were there first.
proof fn lemma_orphans_trans(m0: Map<u64, MenuNode>, m1: Map<u64, MenuNode>, m2: Map<u64, MenuNode>)
    requires
        orphans_kept(m0, m1),
        orphans_kept(m1, m2),
    ensures
        orphans_kept(m0, m2),
{
    reveal(orphans_kept);
}

/// No node is added: no new node lacks a parent.
proof fn lemma_orphans_same(m: Map<u64, MenuNode>)
    ensures
        orphans_kept(m, m),
{
    reveal(orphans_kept);
}

/// A node that joins under `p`, and is then listed last among the children
/// of `p`, keeps the links in order.
proof fn lemma_join_links(
    m0: Map<u64, MenuNode>,
    b: Map<u64, nat>,
    b1: Map<u64, nat>,
    m2: Map<u64, MenuNode>,
    p: u64,
    k: u64,
    node: MenuNode,
)
    requires
        born_wf(m0, b),
        linked(m0),
        links_ok(m0, b),
        m0.dom().contains(p),
        !m0.dom().contains(k),
        node.parent == Some(p),
        node.children@.len() == 0,
        b1 == b.insert(k, m0.dom().len()),
        m2 == m0.insert(k, node).insert(p, m2[p]),
        pushed(m0.insert(k, node)[p], m2[p], k),
    ensures
        links_ok(m2, b1),
        orphans_kept(m0, m2),
{
    reveal(links_ok);
    reveal(orphans_kept);
    let m1 = m0.insert(k, node);
    assert(m1[p] == m0[p]);
    assert forall|x: u64| #[trigger] m2.dom().contains(x) implies (m2[x].parent matches Some(q) ==> {
        &&& m2.dom().contains(q)
        &&& b1[q] < b1[x]
        &&& m2[q].children@.contains(x)
    }) by {
        if x == k {
            assert(m2[k] == node);
            assert(m2[p].children@.last() == k);
        } else if x == p {
            if let Some(q) = m0[p].parent {
                assert(m0.dom().contains(q) && b[q] < b[p]);
                assert(q != p);
                assert(q != k);
                assert(m2[q] == m0[q]);
            }
        } else {
            assert(m0.dom().contains(x));
            assert(m2[x] == m0[x]);
            if let Some(q) = m0[x].parent {
                assert(m0[q].children@.contains(x));
                let j = choose|j: int| 0 <= j < m0[q].children@.len() && m0[q].children@[j] == x;
                if q == p {
                    assert(m2[p].children@[j] == x);
                } else {
                    assert(q != k);
                    assert(m2[q] == m0[q]);
                }
            }
        }
    }
    assert forall|x: u64, i: int| m2.dom().contains(x) && 0 <= i < m2[x].children@.len()
        implies m2[#[trigger] m2[x].children@[i]].parent == Some(x) by {
        if x == k {
            assert(m2[k] == node);
        } else {
            assert(m0.dom().contains(x));
            let c = m2[x].children@[i];
            if x == p && i == m0[p].children@.len() {
                assert(c == k);
                assert(m2[k] == node);
            } else {
                if x == p {
                    assert(c == m0[p].children@[i]);
                } else {
                    assert(m2[x] == m0[x]);
                }
                assert(m0.dom().contains(c));
                assert(m0[c].parent == Some(x));
                assert(c != k);
                if c == p {
                    assert(m2[p].parent == m0[p].parent);
                } else {
                    assert(m2[c] == m0[c]);
                }
            }
        }
    }
    assert forall|x: u64| #[trigger] m2.dom().contains(x) implies m2[x].children@.no_duplicates() by {
        if x == k {
            assert(m2[k] == node);
        } else if x == p {
            let old_kids = m0[p].children@;
            assert(m2[p].children@ == old_kids.push(k));
            assert forall|i: int, j: int| 0 <= i < old_kids.len() + 1 && 0 <= j < old_kids.len() + 1 && i != j
                implies m2[p].children@[i] != m2[p].children@[j] by {
                if i < old_kids.len() {
                    assert(m0.dom().contains(old_kids[i]));
                }
                if j < old_kids.len() {
                    assert(m0.dom().contains(old_kids[j]));
                }
            }
        } else {
            assert(m2[x] == m0[x]);
        }
    }
    assert forall|x: u64| #[trigger] m2.dom().contains(x) && m2[x].parent is None implies m0.dom().contains(x) && m0[x].parent is None by {
        if x == k {
            assert(m2[k] == node);
        } else if x == p {
            assert(m2[p].parent == m0[p].parent);
        } else {
            assert(m2[x] == m0[x]);
        }
    }
}

/// Adds a target labelled `label` under `parent`.
fn add_target(m: &mut MenuSlots, Ghost(b): Ghost<Map<u64, nat>>, parent: u64, label: &String) -> (r: (u64, Ghost<Map<u64, nat>>))
    requires
        born_wf(menu_slots(*old(m)), b),
        links_ok(menu_slots(*old(m)), b),
        linked(menu_slots(*old(m))),
        menu_slots(*old(m)).dom().contains(parent),
        menu_slots(*old(m)).dom().len() < slot_capacity(),
    ensures
        born_wf(menu_slots(*final(m)), r.1@),
        links_ok(menu_slots(*final(m)), r.1@),
        orphans_kept(menu_slots(*old(m)), menu_slots(*final(m))),
        linked(menu_slots(*final(m))),
        menu_slots(*final(m)).dom().len() == menu_slots(*old(m)).dom().len() + 1,
        is_target(menu_slots(*final(m)), r.1@, menu_slots(*old(m)).dom().len(), menu_slots(*old(m)).dom().len() + 1, r.0, label@, parent),
        grew(menu_slots(*old(m)), b, menu_slots(*final(m)), r.1@, parent, r.0),
{
    let ghost m0 = menu_slots(*m);
    let node = MenuNode { kind: MenuNodeKind::TargetSelect, label: label.clone(), parent: Some(parent), children: Vec::new() };
    let ghost nd = node;
    let (k, Ghost(b1)) = add_node(m, Ghost(b), node);
    let ghost m1 = menu_slots(*m);
    attach(m, parent, k);
    proof {
        let m2 = menu_slots(*m);
        lemma_join_links(m0, b, b1, m2, parent, k, nd);
        assert(m2[k] == m1[k]);
        assert forall|x: u64| #[trigger] m0.dom().contains(x) && x != parent implies m2.dom().contains(x) && m2[x] == m0[x] by {
            assert(m1[x] == m0[x]);
        }
        assert(m2.dom() == m1.dom());
    }
    (k, Ghost(b1))
}

/// Adds an ability or an item (`kind`) labelled `label` under `parent`, with
/// one target under it for each of `enemies`.
fn add_choice(
    m: &mut MenuSlots,
    Ghost(b): Ghost<Map<u64, nat>>,
    parent: u64,
    kind: MenuNodeKind,
    label: &String,
    enemies: &[String],
) -> (r: (u64, Ghost<Map<u64, nat>>))
    requires
        born_wf(menu_slots(*old(m)), b),
        links_ok(menu_slots(*old(m)), b),
        linked(menu_slots(*old(m))),
        menu_slots(*old(m)).dom().contains(parent),
        menu_slots(*old(m)).dom().len() + choice_size(enemies@.len()) <= slot_capacity(),
    ensures
        born_wf(menu_slots(*final(m)), r.1@),
        links_ok(menu_slots(*final(m)), r.1@),
        orphans_kept(menu_slots(*old(m)), menu_slots(*final(m))),
        linked(menu_slots(*final(m))),
        menu_slots(*final(m)).dom().len() == menu_slots(*old(m)).dom().len() + choice_size(enemies@.len()),
        is_choice(
            menu_slots(*final(m)),
            r.1@,
            menu_slots(*old(m)).dom().len(),
            menu_slots(*old(m)).dom().len() + choice_size(enemies@.len()),
            r.0,
            kind,
            label@,
            parent,
            labels(enemies@),
        ),
        grew(menu_slots(*old(m)), b, menu_slots(*final(m)), r.1@, parent, r.0),
{
    let ghost m0 = menu_slots(*m);
    let ghost n0 = m0.dom().len();
    let node = MenuNode { kind, label: label.clone(), parent: Some(parent), children: Vec::new() };
    let ghost nd = node;
    let (k, Ghost(b1)) = add_node(m, Ghost(b), node);
    let ghost m1 = menu_slots(*m);
    attach(m, parent, k);
    let ghost m2 = menu_slots(*m);
    proof {
        lemma_join_links(m0, b, b1, m2, parent, k, nd);
        assert(m2[k] == m1[k]);
        assert(m2.dom() == m1.dom());
        assert forall|x: u64| #[trigger] m0.dom().contains(x) && x != parent implies m2.dom().contains(x) && m2[x] == m0[x] by {
            assert(m1[x] == m0[x]);
        }
    }
    let ghost mut bc = b1;
    let mut e: usize = 0;
    while e < enemies.len()
        invariant
            e <= enemies@.len(),
            n0 + 1 + enemies@.len() <= slot_capacity(),
            born_wf(menu_slots(*m), bc),
            linked(menu_slots(*m)),
            links_ok(menu_slots(*m), bc),
            orphans_kept(m0, menu_slots(*m)),
            menu_slots(*m).dom().len() == n0 + 1 + e,
            kept(m2, b1, menu_slots(*m), bc, k),
            grew(m0, b, m2, b1, parent, k),
            !m0.dom().contains(k),
            m2.dom().contains(k),
            b1.dom().contains(k),
            b1[k] == n0,
            menu_slots(*m).dom().contains(k),
            menu_slots(*m)[k].kind == kind,
            menu_slots(*m)[k].label@ == label@,
            menu_slots(*m)[k].parent == Some(parent),
            menu_slots(*m)[k].children@.len() == e,
            forall|j: int| 0 <= j < e ==> is_target(menu_slots(*m), bc, n0 + 1, (n0 + 1 + e) as nat, #[trigger] menu_slots(*m)[k].children@[j], enemies@[j]@, k),
        decreases enemies@.len() - e,
    {
        let ghost mp = menu_slots(*m);
        let ghost bp = bc;
        let (t, Ghost(bn)) = add_target(m, Ghost(bc), k, &enemies[e]);
        proof {
            let mn = menu_slots(*m);
            lemma_kept_agree(mp, bp, mn, bn, k, n0 + 1, (n0 + 1 + e) as nat);
            lemma_orphans_trans(m0, mp, mn);
            assert forall|j: int| 0 <= j < e + 1 implies is_target(mn, bn, n0 + 1, (n0 + 2 + e) as nat, #[trigger] mn[k].children@[j], enemies@[j]@, k) by {
                if j < e {
                    assert(mn[k].children@[j] == mp[k].children@[j]);
                    lemma_target_frame(mp, bp, mn, bn, n0 + 1, (n0 + 1 + e) as nat, mp[k].children@[j], enemies@[j]@, k);
                    lemma_target_widen(mn, bn, n0 + 1, (n0 + 1 + e) as nat, bn, n0 + 1, (n0 + 2 + e) as nat, mp[k].children@[j], enemies@[j]@, k);
                } else {
                    lemma_target_widen(mn, bn, (n0 + 1 + e) as nat, (n0 + 2 + e) as nat, bn, n0 + 1, (n0 + 2 + e) as nat, t, enemies@[j]@, k);
                }
            }
            bc = bn;
        }
        e = e + 1;
    }
    proof {
        let mf = menu_slots(*m);
        let en = labels(enemies@);
        assert forall|j: int| 0 <= j < en.len() implies is_target(mf, bc, n0, n0 + choice_size(enemies@.len()), #[trigger] mf[k].children@[j], en[j], k) by {
            lemma_target_widen(mf, bc, n0 + 1, (n0 + 1 + e) as nat, bc, n0, n0 + choice_size(enemies@.len()), mf[k].children@[j], enemies@[j]@, k);
        }
        assert(mf[parent] == m2[parent]);
    }
    (k, Ghost(bc))
}

/// One more block of `c` nodes after `a` blocks still fits in `n` blocks.
proof fn lemma_next_block(a: int, n: int, c: int)
    by (nonlinear_arith)
    requires
        0 <= a < n,
        0 <= c,
    ensures
        (a + 1) * c == a * c + c,
        a * c + c <= n * c,
        0 <= a * c,
{
}

/// Adds under node `k`, which has no children yet, one ability or item
/// (`kind`) for each of `names`, each with its targets.
fn add_choices(
    m: &mut MenuSlots,
    Ghost(b): Ghost<Map<u64, nat>>,
    k: u64,
    kind: MenuNodeKind,
    names: &[String],
    enemies: &[String],
) -> (r: Ghost<Map<u64, nat>>)
    requires
        born_wf(menu_slots(*old(m)), b),
        links_ok(menu_slots(*old(m)), b),
        linked(menu_slots(*old(m))),
        menu_slots(*old(m)).dom().contains(k),
        menu_slots(*old(m))[k].children@.len() == 0,
        menu_slots(*old(m)).dom().len() + names@.len() * choice_size(enemies@.len()) <= slot_capacity(),
    ensures
        born_wf(menu_slots(*final(m)), r@),
        links_ok(menu_slots(*final(m)), r@),
        orphans_kept(menu_slots(*old(m)), menu_slots(*final(m))),
        linked(menu_slots(*final(m))),
        menu_slots(*final(m)).dom().len() == menu_slots(*old(m)).dom().len() + names@.len() * choice_size(enemies@.len()),
        kept(menu_slots(*old(m)), b, menu_slots(*final(m)), r@, k),
        menu_slots(*final(m)).dom().contains(k),
        menu_slots(*final(m))[k].kind == menu_slots(*old(m))[k].kind,
        menu_slots(*final(m))[k].label == menu_slots(*old(m))[k].label,
        menu_slots(*final(m))[k].parent == menu_slots(*old(m))[k].parent,
        menu_slots(*final(m))[k].children@.len() == names@.len(),
        forall|j: int| 0 <= j < names@.len() ==> is_choice(
            menu_slots(*final(m)),
            r@,
            menu_slots(*old(m)).dom().len(),
            menu_slots(*old(m)).dom().len() + names@.len() * choice_size(enemies@.len()),
            #[trigger] menu_slots(*final(m))[k].children@[j],
            kind,
            names@[j]@,
            k,
            labels(enemies@),
        ),
{
    let ghost m0 = menu_slots(*m);
    let ghost n0 = m0.dom().len();
    let ghost c = choice_size(enemies@.len());
    let ghost mut bc = b;
    proof {
        lemma_orphans_same(m0);
    }
    let mut a: usize = 0;
    while a < names.len()
        invariant
            a <= names@.len(),
            n0 + names@.len() * c <= slot_capacity(),
            c == choice_size(enemies@.len()),
            born_wf(m0, b),
            born_wf(menu_slots(*m), bc),
            linked(menu_slots(*m)),
            links_ok(menu_slots(*m), bc),
            orphans_kept(m0, menu_slots(*m)),
            menu_slots(*m).dom().len() == n0 + a * c,
            kept(m0, b, menu_slots(*m), bc, k),
            m0.dom().contains(k),
            b[k] < n0,
            menu_slots(*m).dom().contains(k),
            menu_slots(*m)[k].kind == m0[k].kind,
            menu_slots(*m)[k].label == m0[k].label,
            menu_slots(*m)[k].parent == m0[k].parent,
            menu_slots(*m)[k].children@.len() == a,
            forall|j: int| 0 <= j < a ==> is_choice(menu_slots(*m), bc, n0, (n0 + a * c) as nat, #[trigger] menu_slots(*m)[k].children@[j], kind, names@[j]@, k, labels(enemies@)),
        decreases names@.len() - a,
    {
        proof {
            lemma_next_block(a as int, names@.len() as int, c as int);
        }
        let ghost mp = menu_slots(*m);
        let ghost bp = bc;
        let ghost lo = (n0 + a * c) as nat;
        let (t, Ghost(bn)) = add_choice(m, Ghost(bc), k, kind, &names[a], enemies);
        proof {
            let mn = menu_slots(*m);
            let hi = (n0 + (a + 1) * c) as nat;
            assert(bp[k] == b[k]);
            lemma_kept_agree(mp, bp, mn, bn, k, n0, lo);
            lemma_orphans_trans(m0, mp, mn);
            assert forall|j: int| 0 <= j < a + 1 implies is_choice(mn, bn, n0, hi, #[trigger] mn[k].children@[j], kind, names@[j]@, k, labels(enemies@)) by {
                if j < a {
                    assert(mn[k].children@[j] == mp[k].children@[j]);
                    lemma_choice_frame(mp, bp, mn, bn, n0, lo, mp[k].children@[j], kind, names@[j]@, k, labels(enemies@));
                    lemma_choice_widen(mn, bn, n0, lo, bn, n0, hi, mp[k].children@[j], kind, names@[j]@, k, labels(enemies@));
                } else {
                    lemma_choice_widen(mn, bn, lo, hi, bn, n0, hi, t, kind, names@[j]@, k, labels(enemies@));
                }
            }
            bc = bn;
        }
        a = a + 1;
    }
    Ghost(bc)
}

/// Adds the action `label` under `parent`: under "Fight" the abilities and
/// under "Item" the items, each with its targets; under the others nothing.
fn add_action(
    m: &mut MenuSlots,
    Ghost(b): Ghost<Map<u64, nat>>,
    parent: u64,
    label: &String,
    abilities: &[String],
    items: &[String],
    enemies: &[String],
) -> (r: (u64, Ghost<Map<u64, nat>>))
    requires
        born_wf(menu_slots(*old(m)), b),
        links_ok(menu_slots(*old(m)), b),
        linked(menu_slots(*old(m))),
        menu_slots(*old(m)).dom().contains(parent),
        menu_slots(*old(m)).dom().len() + action_size(label@, abilities@.len(), items@.len(), enemies@.len()) <= slot_capacity(),
    ensures
        born_wf(menu_slots(*final(m)), r.1@),
        links_ok(menu_slots(*final(m)), r.1@),
        orphans_kept(menu_slots(*old(m)), menu_slots(*final(m))),
        linked(menu_slots(*final(m))),
        menu_slots(*final(m)).dom().len() == menu_slots(*old(m)).dom().len() + action_size(label@, abilities@.len(), items@.len(), enemies@.len()),
        is_action(
            menu_slots(*final(m)),
            r.1@,
            menu_slots(*old(m)).dom().len(),
            menu_slots(*old(m)).dom().len() + action_size(label@, abilities@.len(), items@.len(), enemies@.len()),
            r.0,
            label@,
            parent,
            labels(abilities@),
            labels(items@),
            labels(enemies@),
        ),
        grew(menu_slots(*old(m)), b, menu_slots(*final(m)), r.1@, parent, r.0),
{
    let ghost m0 = menu_slots(*m);
    let ghost n0 = m0.dom().len();
    let ghost size = action_size(label@, abilities@.len(), items@.len(), enemies@.len());
    let node = MenuNode { kind: MenuNodeKind::ActionSelect, label: label.clone(), parent: Some(parent), children: Vec::new() };
    let ghost nd = node;
    let (k, Ghost(b1)) = add_node(m, Ghost(b), node);
    let ghost m1 = menu_slots(*m);
    attach(m, parent, k);
    let ghost m2 = menu_slots(*m);
    proof {
        lemma_join_links(m0, b, b1, m2, parent, k, nd);
        assert(m2[k] == m1[k]);
        assert(m2.dom() == m1.dom());
        assert forall|x: u64| #[trigger] m0.dom().contains(x) && x != parent implies m2.dom().contains(x) && m2[x] == m0[x] by {
            assert(m1[x] == m0[x]);
        }
    }
    let ghost mut bc = b1;
    if same_text(label, "Fight") {
        let Ghost(bn) = add_choices(m, Ghost(b1), k, MenuNodeKind::AbilitySelect, abilities, enemies);
        proof {
            let mf = menu_slots(*m);
            lemma_orphans_trans(m0, m2, mf);
            let ab = labels(abilities@);
            assert forall|a: int| 0 <= a < ab.len() implies is_choice(mf, bn, n0, n0 + size, #[trigger] mf[k].children@[a], MenuNodeKind::AbilitySelect, ab[a], k, labels(enemies@)) by {
                lemma_choice_widen(mf, bn, n0 + 1, n0 + size, bn, n0, n0 + size, mf[k].children@[a], MenuNodeKind::AbilitySelect, abilities@[a]@, k, labels(enemies@));
            }
            assert(mf[parent] == m2[parent]);
            bc = bn;
        }
    } else if same_text(label, "Item") {
        let Ghost(bn) = add_choices(m, Ghost(b1), k, MenuNodeKind::ItemSelect, items, enemies);
        proof {
            let mf = menu_slots(*m);
            lemma_orphans_trans(m0, m2, mf);
            let it = labels(items@);
            assert forall|a: int| 0 <= a < it.len() implies is_choice(mf, bn, n0, n0 + size, #[trigger] mf[k].children@[a], MenuNodeKind::ItemSelect, it[a], k, labels(enemies@)) by {
                lemma_choice_widen(mf, bn, n0 + 1, n0 + size, bn, n0, n0 + size, mf[k].children@[a], MenuNodeKind::ItemSelect, items@[a]@, k, labels(enemies@));
            }
            assert(mf[parent] == m2[parent]);
            bc = bn;
        }
    }
    proof {
        let mf = menu_slots(*m);
        assert(b1.dom().contains(k));
        assert(bc[k] == n0);
    }
    (k, Ghost(bc))
}

/// How many nodes a character's first `n` actions make.
pub open spec fn actions_size(n: int, abilities: nat, items: nat, enemies: nat) -> nat
    decreases n,
{
    if n <= 0 {
        0
    } else {
        actions_size(n - 1, abilities, items, enemies) + action_size(action_label(n - 1), abilities, items, enemies)
    }
}

/// The first actions make no more nodes than more of them.
proof fn lemma_actions_size_grows(i: int, j: int, abilities: nat, items: nat, enemies: nat)
    requires
        0 <= i <= j,
    ensures
        actions_size(i, abilities, items, enemies) <= actions_size(j, abilities, items, enemies),
    decreases j,
{
    if i < j {
        lemma_actions_size_grows(i, j - 1, abilities, items, enemies);
    }
}

/// A character with its four actions makes `character_size` nodes.
proof fn lemma_character_size(abilities: nat, items: nat, enemies: nat)
    ensures
        1 + actions_size(4, abilities, items, enemies) == character_size(abilities, items, enemies),
{
    reveal_with_fuel(actions_size, 5);
    reveal_strlit("Fight");
    reveal_strlit("Guard");
    reveal_strlit("Item");
    reveal_strlit("Flee");
    assert("Guard"@[0] != "Fight"@[0]);
    assert("Item"@.len() != "Fight"@.len());
    assert("Flee"@.len() != "Fight"@.len());
    assert("Guard"@.len() != "Item"@.len());
    assert("Flee"@[1] != "Item"@[1]);
}

/// The label of a character's action at position `i`.
fn action_name(i: usize) -> (r: &'static str)
    requires
        i < 4,
    ensures
        r@ == action_label(i as int),
{
    if i == 0 {
        "Fight"
    } else if i == 1 {
        "Guard"
    } else if i == 2 {
        "Item"
    } else {
        "Flee"
    }
}

/// Adds the character `name` under `root`, with its actions "Fight",
/// "Guard", "Item" and "Flee" in that order.
fn add_character(
    m: &mut MenuSlots,
    Ghost(b): Ghost<Map<u64, nat>>,
    root: u64,
    name: &String,
    abilities: &[String],
    items: &[String],
    enemies: &[String],
) -> (r: (u64, Ghost<Map<u64, nat>>))
    requires
        born_wf(menu_slots(*old(m)), b),
        links_ok(menu_slots(*old(m)), b),
        linked(menu_slots(*old(m))),
        menu_slots(*old(m)).dom().contains(root),
        menu_slots(*old(m)).dom().len() + character_size(abilities@.len(), items@.len(), enemies@.len()) <= slot_capacity(),
    ensures
        born_wf(menu_slots(*final(m)), r.1@),
        links_ok(menu_slots(*final(m)), r.1@),
        orphans_kept(menu_slots(*old(m)), menu_slots(*final(m))),
        linked(menu_slots(*final(m))),
        menu_slots(*final(m)).dom().len() == menu_slots(*old(m)).dom().len() + character_size(abilities@.len(), items@.len(), enemies@.len()),
        is_character(
            menu_slots(*final(m)),
            r.1@,
            menu_slots(*old(m)).dom().len(),
            menu_slots(*old(m)).dom().len() + character_size(abilities@.len(), items@.len(), enemies@.len()),
            r.0,
            name@,
            root,
            labels(abilities@),
            labels(items@),
            labels(enemies@),
        ),
        grew(menu_slots(*old(m)), b, menu_slots(*final(m)), r.1@, root, r.0),
{
    let ghost m0 = menu_slots(*m);
    let ghost n0 = m0.dom().len();
    let ghost na = abilities@.len();
    let ghost ni = items@.len();
    let ghost ne = enemies@.len();
    let ghost ab = labels(abilities@);
    let ghost it = labels(items@);
    let ghost en = labels(enemies@);
    proof {
        lemma_character_size(na, ni, ne);
    }
    let node = MenuNode { kind: MenuNodeKind::ActionSelect, label: name.clone(), parent: Some(root), children: Vec::new() };
    let ghost nd = node;
    let (k, Ghost(b1)) = add_node(m, Ghost(b), node);
    let ghost m1 = menu_slots(*m);
    attach(m, root, k);
    let ghost m2 = menu_slots(*m);
    proof {
        lemma_join_links(m0, b, b1, m2, root, k, nd);
        assert(m2[k] == m1[k]);
        assert(m2.dom() == m1.dom());
        assert forall|x: u64| #[trigger] m0.dom().contains(x) && x != root implies m2.dom().contains(x) && m2[x] == m0[x] by {
            assert(m1[x] == m0[x]);
        }
        assert(b1.dom().contains(k));
    }
    let ghost mut bc = b1;
    let mut i: usize = 0;
    while i < 4
        invariant
            i <= 4,
            n0 + 1 + actions_size(4, na, ni, ne) <= slot_capacity(),
            na == abilities@.len(),
            ni == items@.len(),
            ne == enemies@.len(),
            ab == labels(abilities@),
            it == labels(items@),
            en == labels(enemies@),
            born_wf(menu_slots(*m), bc),
            linked(menu_slots(*m)),
            links_ok(menu_slots(*m), bc),
            orphans_kept(m0, menu_slots(*m)),
            menu_slots(*m).dom().len() == n0 + 1 + actions_size(i as int, na, ni, ne),
            kept(m2, b1, menu_slots(*m), bc, k),
            grew(m0, b, m2, b1, root, k),
            !m0.dom().contains(k),
            m2.dom().contains(k),
            b1.dom().contains(k),
            b1[k] == n0,
            menu_slots(*m).dom().contains(k),
            menu_slots(*m)[k].kind == MenuNodeKind::ActionSelect,
            menu_slots(*m)[k].label@ == name@,
            menu_slots(*m)[k].parent == Some(root),
            menu_slots(*m)[k].children@.len() == i,
            forall|j: int| 0 <= j < i ==> is_action(
                menu_slots(*m),
                bc,
                n0 + 1,
                n0 + 1 + actions_size(i as int, na, ni, ne),
                #[trigger] menu_slots(*m)[k].children@[j],
                action_label(j),
                k,
                ab,
                it,
                en,
            ),
        decreases 4 - i,
    {
        proof {
            lemma_actions_size_grows(i + 1, 4, na, ni, ne);
        }
        let ghost mp = menu_slots(*m);
        let ghost bp = bc;
        let ghost lo = (n0 + 1 + actions_size(i as int, na, ni, ne)) as nat;
        let ghost hi = (n0 + 1 + actions_size(i + 1, na, ni, ne)) as nat;
        let action = String::from_str(action_name(i));
        let (t, Ghost(bn)) = add_action(m, Ghost(bc), k, &action, abilities, items, enemies);
        proof {
            let mn = menu_slots(*m);
            lemma_kept_agree(mp, bp, mn, bn, k, n0 + 1, lo);
            lemma_orphans_trans(m0, mp, mn);
            assert forall|j: int| 0 <= j < i + 1 implies is_action(mn, bn, n0 + 1, hi, #[trigger] mn[k].children@[j], action_label(j), k, ab, it, en) by {
                if j < i {
                    assert(mn[k].children@[j] == mp[k].children@[j]);
                    lemma_action_frame(mp, bp, mn, bn, n0 + 1, lo, mp[k].children@[j], action_label(j), k, ab, it, en);
                    lemma_action_widen(mn, bn, n0 + 1, lo, bn, n0 + 1, hi, mp[k].children@[j], action_label(j), k, ab, it, en);
                } else {
                    lemma_action_widen(mn, bn, lo, hi, bn, n0 + 1, hi, t, action_label(j), k, ab, it, en);
                }
            }
            bc = bn;
        }
        i = i + 1;
    }
    proof {
        let mf = menu_slots(*m);
        let hi = n0 + character_size(na, ni, ne);
        assert forall|j: int| 0 <= j < 4 implies is_action(mf, bc, n0, hi, #[trigger] mf[k].children@[j], action_label(j), k, ab, it, en) by {
            lemma_action_widen(mf, bc, n0 + 1, hi, bc, n0, hi, mf[k].children@[j], action_label(j), k, ab, it, en);
        }
        assert(mf[root] == m2[root]);
        assert(bc[k] == n0);
    }
    (k, Ghost(bc))
}

/// Builds the menu: under the root "Choose Character", one node for each of
/// `characters`, each with its actions "Fight", "Guard", "Item" and "Flee";
/// under "Fight" one node for each of `abilities` and under "Item" one for
/// each of `items`, each of these with one target for each of `enemies`.
/// Returns the nodes and the root's key.
pub fn build_menu(
    characters: &[String],
    abilities: &[String],
    items: &[String],
    enemies: &[String],
) -> (r: (MenuSlots, u64))
    requires
        menu_size(characters@.len(), abilities@.len(), items@.len(), enemies@.len()) <= slot_capacity(),
    ensures
        is_menu(menu_slots(r.0), r.1, labels(characters@), labels(abilities@), labels(items@), labels(enemies@)),
        menu_slots(r.0).dom().len() == menu_size(characters@.len(), abilities@.len(), items@.len(), enemies@.len()),
        linked(menu_slots(r.0)),
        menu_tree(menu_slots(r.0), r.1),
{
    let ghost na = abilities@.len();
    let ghost ni = items@.len();
    let ghost ne = enemies@.len();
    let ghost s = character_size(na, ni, ne);
    let ghost ab = labels(abilities@);
    let ghost it = labels(items@);
    let ghost en = labels(enemies@);
    let mut nodes = slots_new();
    proof {
        assert(menu_slots(nodes).dom() =~= Set::<u64>::empty());
        assert forall|x: u64| #[trigger] menu_slots(nodes).dom().contains(x) implies {
            &&& (menu_slots(nodes)[x].parent matches Some(p) ==> menu_slots(nodes).dom().contains(p))
            &&& forall|i: int| 0 <= i < menu_slots(nodes)[x].children@.len() ==> menu_slots(nodes).dom().contains(#[trigger] menu_slots(nodes)[x].children@[i])
        } by {}
        assert(Map::<u64, nat>::empty().dom() =~= menu_slots(nodes).dom());
    }
    let node = MenuNode {
        kind: MenuNodeKind::CharacterSelect,
        label: String::from_str("Choose Character"),
        parent: None,
        children: Vec::new(),
    };
    let (root, Ghost(b1)) = add_node(&mut nodes, Ghost(Map::empty()), node);
    let ghost m1 = menu_slots(nodes);
    proof {
        assert(b1[root] == 0);
        reveal(links_ok);
        assert(m1.dom() =~= set![root]);
        assert(links_ok(m1, b1));
        lemma_orphans_same(m1);
    }
    let ghost mut bc = b1;
    let mut c: usize = 0;
    while c < characters.len()
        invariant
            c <= characters@.len(),
            1 + characters@.len() * s <= slot_capacity(),
            s == character_size(na, ni, ne),
            na == abilities@.len(),
            ni == items@.len(),
            ne == enemies@.len(),
            ab == labels(abilities@),
            it == labels(items@),
            en == labels(enemies@),
            born_wf(menu_slots(nodes), bc),
            linked(menu_slots(nodes)),
            links_ok(menu_slots(nodes), bc),
            orphans_kept(m1, menu_slots(nodes)),
            menu_slots(nodes).dom().len() == 1 + c * s,
            kept(m1, b1, menu_slots(nodes), bc, root),
            m1.dom().contains(root),
            b1.dom().contains(root),
            b1[root] == 0,
            menu_slots(nodes).dom().contains(root),
            menu_slots(nodes)[root].kind == MenuNodeKind::CharacterSelect,
            menu_slots(nodes)[root].label@ == "Choose Character"@,
            menu_slots(nodes)[root].parent is None,
            menu_slots(nodes)[root].children@.len() == c,
            forall|j: int| 0 <= j < c ==> is_character(
                menu_slots(nodes),
                bc,
                1,
                (1 + c * s) as nat,
                #[trigger] menu_slots(nodes)[root].children@[j],
                characters@[j]@,
                root,
                ab,
                it,
                en,
            ),
        decreases characters@.len() - c,
    {
        proof {
            lemma_next_block(c as int, characters@.len() as int, s as int);
        }
        let ghost mp = menu_slots(nodes);
        let ghost bp = bc;
        let ghost lo = (1 + c * s) as nat;
        let ghost hi = (1 + (c + 1) * s) as nat;
        let (t, Ghost(bn)) = add_character(&mut nodes, Ghost(bc), root, &characters[c], abilities, items, enemies);
        proof {
            let mn = menu_slots(nodes);
            lemma_kept_agree(mp, bp, mn, bn, root, 1, lo);
            lemma_orphans_trans(m1, mp, mn);
            assert forall|j: int| 0 <= j < c + 1 implies is_character(mn, bn, 1, hi, #[trigger] mn[root].children@[j], characters@[j]@, root, ab, it, en) by {
                if j < c {
                    assert(mn[root].children@[j] == mp[root].children@[j]);
                    lemma_character_frame(mp, bp, mn, bn, 1, lo, mp[root].children@[j], characters@[j]@, root, ab, it, en);
                    lemma_character_widen(mn, bn, 1, lo, bn, 1, hi, mp[root].children@[j], characters@[j]@, root, ab, it, en);
                } else {
                    lemma_character_widen(mn, bn, lo, hi, bn, 1, hi, t, characters@[j]@, root, ab, it, en);
                }
            }
            bc = bn;
        }
        c = c + 1;
    }
    proof {
        let mf = menu_slots(nodes);
        let ch = labels(characters@);
        assert forall|j: int| 0 <= j < ch.len() implies is_character(mf, any_time(), 0, 1, #[trigger] mf[root].children@[j], ch[j], root, ab, it, en) by {
            lemma_character_widen(mf, bc, 1, (1 + c * s) as nat, any_time(), 0, 1, mf[root].children@[j], characters@[j]@, root, ab, it, en);
        }
        reveal(links_ok);
        reveal(orphans_kept);
        assert(m1.dom() =~= set![root]);
        assert(ranked(mf, bc));
    }
    (nodes, root)
}

/// Whether the cursor is on node `current` of `m`, picking child
/// `selected`: one that exists, or the first place of a node without children.
pub open spec fn on_menu(m: Map<u64, MenuNode>, current: u64, selected: usize) -> bool {
    &&& m.dom().contains(current)
    &&& (selected < m[current].children@.len() || selected == 0)
}

/// The cursor `(current, selected)` after picking the child above.
pub open spec fn cursor_up(c: (u64, usize)) -> (u64, usize) {
    if c.1 > 0 { (c.0, (c.1 - 1) as usize) } else { c }
}

/// The cursor after picking the child below, in `m`.
pub open spec fn cursor_down(m: Map<u64, MenuNode>, c: (u64, usize)) -> (u64, usize) {
    if c.1 + 1 < m[c.0].children@.len() { (c.0, (c.1 + 1) as usize) } else { c }
}

/// The cursor after going down to the picked child, in `m`.
pub open spec fn cursor_select(m: Map<u64, MenuNode>, c: (u64, usize)) -> (u64, usize) {
    if c.1 < m[c.0].children@.len() { (m[c.0].children@[c.1 as int], 0usize) } else { c }
}

/// The cursor after going up to the parent, in `m`.
pub open spec fn cursor_back(m: Map<u64, MenuNode>, c: (u64, usize)) -> (u64, usize) {
    match m[c.0].parent {
        Some(p) => (p, 0usize),
        None => c,
    }
}

/// The cursor after a frame with `keys` pressed: up, down, choose and back,
/// in that order.
pub open spec fn cursor_after(m: Map<u64, MenuNode>, c: (u64, usize), keys: Keys) -> (u64, usize) {
    let c1 = if keys.up { cursor_up(c) } else { c };
    let c2 = if keys.down { cursor_down(m, c1) } else { c1 };
    let c3 = if keys.select { cursor_select(m, c2) } else { c2 };
    if keys.back { cursor_back(m, c3) } else { c3 }
}

/// Where the cursor is in the menu: the node whose children are shown, and
/// which of them is picked.
#[derive(Debug)]
pub struct MenuState {
    pub current: u64,
    pub selected_index: usize,
}

impl MenuState {
    /// Picks the child above, if the first is not picked already.
    pub fn move_up(&mut self, nodes: &MenuSlots)
        ensures
            final(self).current == old(self).current,
            old(self).selected_index > 0 ==> final(self).selected_index == old(self).selected_index - 1,
            old(self).selected_index == 0 ==> final(self).selected_index == 0,
            on_menu(menu_slots(*nodes), old(self).current, old(self).selected_index)
                ==> on_menu(menu_slots(*nodes), final(self).current, final(self).selected_index),
    {
        if self.selected_index > 0 {
            self.selected_index = self.selected_index - 1;
        }
    }

    /// Picks the child below, if the last is not picked already.
    pub fn move_down(&mut self, nodes: &MenuSlots)
        requires
            menu_slots(*nodes).dom().contains(old(self).current),
        ensures
            final(self).current == old(self).current,
            old(self).selected_index + 1 < menu_slots(*nodes)[old(self).current].children@.len()
                ==> final(self).selected_index == old(self).selected_index + 1,
            old(self).selected_index + 1 >= menu_slots(*nodes)[old(self).current].children@.len()
                ==> final(self).selected_index == old(self).selected_index,
            on_menu(menu_slots(*nodes), old(self).current, old(self).selected_index)
                ==> on_menu(menu_slots(*nodes), final(self).current, final(self).selected_index),
    {
        let node = slots_get(nodes, self.current);
        match node {
            Some(n) => {
                let len = n.children.len();
                if len > 0 && self.selected_index < len - 1 {
                    self.selected_index = self.selected_index + 1;
                }
            },
            None => {},
        }
    }

    /// Goes down to the picked child, if there is one, picking its first child.
    pub fn select(&mut self, nodes: &MenuSlots)
        requires
            menu_slots(*nodes).dom().contains(old(self).current),
        ensures
            old(self).selected_index < menu_slots(*nodes)[old(self).current].children@.len() ==> {
                &&& final(self).current == menu_slots(*nodes)[old(self).current].children@[old(self).selected_index as int]
                &&& final(self).selected_index == 0
            },
            old(self).selected_index >= menu_slots(*nodes)[old(self).current].children@.len() ==> {
                &&& final(self).current == old(self).current
                &&& final(self).selected_index == old(self).selected_index
            },
            linked(menu_slots(*nodes)) && on_menu(menu_slots(*nodes), old(self).current, old(self).selected_index)
                ==> on_menu(menu_slots(*nodes), final(self).current, final(self).selected_index),
    {
        let node = slots_get(nodes, self.current);
        match node {
            Some(n) => {
                if self.selected_index < n.children.len() {
                    self.current = n.children[self.selected_index];
                    self.selected_index = 0;
                }
            },
            None => {},
        }
    }

    /// Goes up to the parent, if there is one, picking its first child.
    pub fn go_back(&mut self, nodes: &MenuSlots)
        requires
            menu_slots(*nodes).dom().contains(old(self).current),
        ensures
            menu_slots(*nodes)[old(self).current].parent matches Some(p) ==> {
                &&& final(self).current == p
                &&& final(self).selected_index == 0
            },
            menu_slots(*nodes)[old(self).current].parent is None ==> {
                &&& final(self).current == old(self).current
                &&& final(self).selected_index == old(self).selected_index
            },
            linked(menu_slots(*nodes)) && on_menu(menu_slots(*nodes), old(self).current, old(self).selected_index)
                ==> on_menu(menu_slots(*nodes), final(self).current, final(self).selected_index),
    {
        let node = slots_get(nodes, self.current);
        match node {
            Some(n) => {
                match n.parent {
                    Some(p) => {
                        self.current = p;
                        self.selected_index = 0;
                    },
                    None => {},
                }
            },
            None => {},
        }
    }
}

/// The labels of the children of the cursor's node, the picked one marked.
pub fn menu_entries(state: &MenuState, nodes: &MenuSlots) -> (r: Vec<MenuEntry>)
    requires
        linked(menu_slots(*nodes)),
        menu_slots(*nodes).dom().contains(state.current),
    ensures
        r@.len() == menu_slots(*nodes)[state.current].children@.len(),
        forall|i: int| 0 <= i < r@.len() ==> {
            &&& (#[trigger] r@[i]).label@ == menu_slots(*nodes)[menu_slots(*nodes)[state.current].children@[i]].label@
            &&& r@[i].selected == (i == state.selected_index)
        },
{
    let ghost m = menu_slots(*nodes);
    let mut out: Vec<MenuEntry> = Vec::new();
    let node = slots_get(nodes, state.current);
    match node {
        Some(n) => {
            let mut i: usize = 0;
            while i < n.children.len()
                invariant
                    *n == m[state.current],
                    m == menu_slots(*nodes),
                    linked(m),
                    m.dom().contains(state.current),
                    i <= n.children@.len(),
                    out@.len() == i,
                    forall|j: int| 0 <= j < i ==> {
                        &&& (#[trigger] out@[j]).label@ == m[n.children@[j]].label@
                        &&& out@[j].selected == (j == state.selected_index)
                    },
                decreases n.children@.len() - i,
            {
                let child = n.children[i];
                proof {
                    assert(m.dom().contains(n.children@[i as int]));
                }
                let c = slots_get(nodes, child);
                match c {
                    Some(cn) => {
                        out.push(MenuEntry { label: cn.label.clone(), selected: i == state.selected_index });
                    },
                    None => {},
                }
                i = i + 1;
            }
        },
        None => {},
    }
    out
}

/// A small menu to try the cursor on: two heroes, two abilities, two items
/// and three enemies.
pub struct DummyState {
    pub state: MenuState,
    pub map: MenuSlots,
    pub root: u64,
}

/// The heroes, abilities, items and enemies of the small menu.
pub open spec fn dummy_heroes() -> Seq<Seq<char>> {
    seq!["hero_1"@, "hero_2"@]
}

pub open spec fn dummy_abilities() -> Seq<Seq<char>> {
    seq!["suck"@, "peenor"@]
}

pub open spec fn dummy_items() -> Seq<Seq<char>> {
    seq!["potion_1"@, "potion_2"@]
}

pub open spec fn dummy_enemies() -> Seq<Seq<char>> {
    seq!["hulk"@, "orc"@, "troll"@]
}

impl DummyState {
    /// Whether the cursor is on a node of the menu and the nodes name only
    /// nodes of the menu.
    pub open spec fn wf(&self) -> bool {
        &&& linked(menu_slots(self.map))
        &&& on_menu(menu_slots(self.map), self.state.current, self.state.selected_index)
        &&& menu_slots(self.map).dom().contains(self.root)
    }

    /// The small menu, with the cursor on its root.
    pub fn new() -> (r: DummyState)
        ensures
            r.wf(),
            is_menu(menu_slots(r.map), r.root, dummy_heroes(), dummy_abilities(), dummy_items(), dummy_enemies()),
            menu_slots(r.map).dom().len() == 43,
            menu_tree(menu_slots(r.map), r.root),
            r.state.current == r.root,
            r.state.selected_index == 0,
    {
        let heroes = vec![String::from_str("hero_1"), String::from_str("hero_2")];
        let abilities = vec![String::from_str("suck"), String::from_str("peenor")];
        let items = vec![String::from_str("potion_1"), String::from_str("potion_2")];
        let enemies = vec![String::from_str("hulk"), String::from_str("orc"), String::from_str("troll")];
        proof {
            assert(labels(heroes@) =~= dummy_heroes());
            assert(labels(abilities@) =~= dummy_abilities());
            assert(labels(items@) =~= dummy_items());
            assert(labels(enemies@) =~= dummy_enemies());
        }
        let (nodes, root) = build_menu(heroes.as_slice(), abilities.as_slice(), items.as_slice(), enemies.as_slice());
        DummyState { state: MenuState { current: root, selected_index: 0 }, map: nodes, root }
    }

    /// One frame: up, down, choose and back, in that order, each if its key
    /// was pressed.
    pub fn update(&mut self, keys: &Keys)
        requires
            old(self).wf(),
        ensures
            final(self).wf(),
            final(self).root == old(self).root,
            menu_slots(final(self).map) == menu_slots(old(self).map),
            (final(self).state.current, final(self).state.selected_index) == cursor_after(
                menu_slots(old(self).map),
                (old(self).state.current, old(self).state.selected_index),
                *keys,
            ),
    {
        if keys.up {
            self.state.move_up(&self.map);
        }
        if keys.down {
            self.state.move_down(&self.map);
        }
        if keys.select {
            self.state.select(&self.map);
        }
        if keys.back {
            self.state.go_back(&self.map);
        }
    }

    /// What the screen shows: the labels under the cursor's node.
    pub fn entries(&self) -> (r: Vec<MenuEntry>)
        requires
            self.wf(),
        ensures
            r@.len() == menu_slots(self.map)[self.state.current].children@.len(),
            forall|i: int| 0 <= i < r@.len() ==> {
                &&& (#[trigger] r@[i]).label@ == menu_slots(self.map)[menu_slots(self.map)[self.state.current].children@[i]].label@
                &&& r@[i].selected == (i == self.state.selected_index)
            },
    {
        menu_entries(&self.state, &self.map)
    }
}

} // verus!
