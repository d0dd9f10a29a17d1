use vstd::prelude::*;
use ordermap::OrderMap;
use crate::roster::{
    has_key, roster_entries, roster_get, roster_get_index, roster_get_index_mut, roster_insert,
    roster_len, roster_new, roster_remove_index,
};

verus! {

/// The most action points a character can hold; a character acts once it is full.
pub const MAX_ACTION_POINTS: u32 = 500;

pub type CharacterId = u32;

/// What a character is doing, as far as drawing and damage are concerned.
#[derive(Clone, Copy, Debug, PartialEq, Eq, Structural)]
pub enum CharacterState {
    Default,
    Attacking,
    Guarding,
    Damaged,
}

/// The state a character starts in when its record does not name one.
pub fn default_state() -> (s: CharacterState)
    ensures
        s == CharacterState::Default,
{
    CharacterState::Default
}

#[derive(Clone, Copy, Debug, PartialEq, Eq, Structural)]
pub struct Stats {
    pub max_health: u32,
    pub attack: u32,
    pub defense: u32,
    pub speed: u32,
}

impl Stats {
    pub fn new(max_health: u32, attack: u32, defense: u32, speed: u32) -> (s: Self)
        ensures
            s == (Stats { max_health, attack, defense, speed }),
    {
        Stats { max_health, attack, defense, speed }
    }
}

/// A lasting bonus to one of a character's stats.
#[derive(Clone, Copy, Debug, PartialEq, Eq, Structural)]
pub enum Buff {
    Attack(u32),
    Defense(u32),
    Speed(u32),
}

/// What a buff adds to attack.
pub open spec fn attack_part(b: Buff) -> nat {
    match b {
        Buff::Attack(v) => v as nat,
        _ => 0,
    }
}

/// What a buff adds to defense.
pub open spec fn defense_part(b: Buff) -> nat {
    match b {
        Buff::Defense(v) => v as nat,
        _ => 0,
    }
}

/// What a buff adds to speed.
pub open spec fn speed_part(b: Buff) -> nat {
    match b {
        Buff::Speed(v) => v as nat,
        _ => 0,
    }
}

/// The sum of what each buff of `buffs` adds to one stat, `part` picking that stat.
pub open spec fn buff_total(buffs: Seq<Buff>, part: spec_fn(Buff) -> nat) -> nat
    decreases buffs.len(),
{
    if buffs.len() == 0 {
        0
    } else {
        buff_total(buffs.drop_last(), part) + part(buffs.last())
    }
}

/// A sum over a prefix is at most the sum over the whole sequence.
pub proof fn lemma_buff_total_prefix(buffs: Seq<Buff>, part: spec_fn(Buff) -> nat, i: int)
    requires
        0 <= i <= buffs.len(),
    ensures
        buff_total(buffs.take(i), part) <= buff_total(buffs, part),
    decreases buffs.len(),
{
    if i < buffs.len() {
        assert(buffs.drop_last().take(i) == buffs.take(i));
        lemma_buff_total_prefix(buffs.drop_last(), part, i);
    } else {
        assert(buffs.take(i) == buffs);
    }
}

/// The sum over one more element of a prefix.
pub proof fn lemma_buff_total_step(buffs: Seq<Buff>, part: spec_fn(Buff) -> nat, i: int)
    requires
        0 <= i < buffs.len(),
    ensures
        buff_total(buffs.take(i + 1), part) == buff_total(buffs.take(i), part) + part(buffs[i]),
{
    assert(buffs.take(i + 1).drop_last() == buffs.take(i));
}

/// Adding a buff adds its part to the total.
pub proof fn lemma_buff_total_push(buffs: Seq<Buff>, part: spec_fn(Buff) -> nat, b: Buff)
    ensures
        buff_total(buffs.push(b), part) == buff_total(buffs, part) + part(b),
{
    assert(buffs.push(b).drop_last() == buffs);
}

#[derive(Debug)]
pub struct Character {
    pub id: CharacterId,
    pub name: String,
    pub state: CharacterState,
    pub abilities: Vec<String>,
    pub sprite: String,
    pub is_friendly: bool,
    pub stats: Stats,
    pub action_points: u32,
    pub health: u32,
    pub buffs: Vec<Buff>,
}

impl Clone for Character {
    fn clone(&self) -> (c: Self)
        ensures
            c.id == self.id,
            c.name == self.name,
            c.state == self.state,
            c.abilities@ == self.abilities@,
            c.sprite == self.sprite,
            c.is_friendly == self.is_friendly,
            c.stats == self.stats,
            c.action_points == self.action_points,
            c.health == self.health,
            c.buffs@ == self.buffs@,
    {
        let mut abilities: Vec<String> = Vec::new();
        let mut i: usize = 0;
        while i < self.abilities.len()
            invariant
                i <= self.abilities.len(),
                abilities@ == self.abilities@.take(i as int),
            decreases self.abilities.len() - i,
        {
            abilities.push(self.abilities[i].clone());
            i = i + 1;
        }
        let mut buffs: Vec<Buff> = Vec::new();
        let mut j: usize = 0;
        while j < self.buffs.len()
            invariant
                j <= self.buffs.len(),
                buffs@ == self.buffs@.take(j as int),
            decreases self.buffs.len() - j,
        {
            buffs.push(self.buffs[j]);
            j = j + 1;
        }
        assert(abilities@ == self.abilities@.take(self.abilities.len() as int));
        assert(buffs@ == self.buffs@.take(self.buffs.len() as int));
        Character {
            id: self.id,
            name: self.name.clone(),
            state: self.state,
            abilities,
            sprite: self.sprite.clone(),
            is_friendly: self.is_friendly,
            stats: self.stats,
            action_points: self.action_points,
            health: self.health,
            buffs,
        }
    }
}

/// The fields of a character as a record holds them: health and buffs are not
/// recorded, since a character always starts with full health and no buffs.
pub struct CharacterRecord {
    pub id: CharacterId,
    pub name: String,
    pub state: CharacterState,
    pub abilities: Vec<String>,
    pub sprite: String,
    pub is_friendly: bool,
    pub stats: Stats,
    pub action_points: u32,
}

impl Character {
    /// Attack with every attack buff added.
    pub open spec fn attack_total(self) -> int {
        self.stats.attack + buff_total(self.buffs@, |b: Buff| attack_part(b))
    }

    /// Defense with every defense buff added.
    pub open spec fn defense_total(self) -> int {
        self.stats.defense + buff_total(self.buffs@, |b: Buff| defense_part(b))
    }

    /// Speed with every speed buff added.
    pub open spec fn speed_total(self) -> int {
        self.stats.speed + buff_total(self.buffs@, |b: Buff| speed_part(b))
    }

    /// What a hit of `raw` takes from this character's health: guarding halves
    /// the hit, and defense is taken off, down to nothing.
    pub open spec fn damage_for(self, raw: u32) -> int {
        let hit: int = if self.state == CharacterState::Guarding {
            raw as int / 2
        } else {
            raw as int
        };
        if hit > self.defense_total() {
            hit - self.defense_total()
        } else {
            0
        }
    }

    /// Health after a hit of `raw`, never below zero.
    pub open spec fn health_after_hit(self, raw: u32) -> int {
        if self.health > self.damage_for(raw) {
            self.health - self.damage_for(raw)
        } else {
            0
        }
    }

    /// Health after healing by `amount`, never above the maximum.
    pub open spec fn health_after_heal(self, amount: u32) -> int {
        if self.health + amount < self.stats.max_health {
            self.health + amount
        } else {
            self.stats.max_health as int
        }
    }

    /// Action points after one tick, never above the maximum.
    pub open spec fn points_after_tick(self) -> int {
        if self.action_points + self.speed_total() < MAX_ACTION_POINTS {
            self.action_points + self.speed_total()
        } else {
            MAX_ACTION_POINTS as int
        }
    }

    /// Whether one tick of this character computes without overflow.
    pub open spec fn can_tick(self) -> bool {
        self.action_points + self.speed_total() <= u32::MAX
    }

    /// Whether a hit on this character computes without overflow.
    pub open spec fn can_be_hit(self) -> bool {
        self.defense_total() <= u32::MAX
    }

    /// Whether healing this character by `amount` computes without overflow.
    pub open spec fn can_heal(self, amount: u32) -> bool {
        self.health + amount <= u32::MAX
    }

    pub fn new(id: CharacterId, name: &str, abilities: Vec<String>, sprite: &str, stats: Stats) -> (c: Self)
        ensures
            c.id == id,
            c.name@ == name@,
            c.state == CharacterState::Default,
            c.abilities == abilities,
            c.sprite@ == sprite@,
            c.is_friendly,
            c.stats == stats,
            c.action_points == 0,
            c.health == stats.max_health,
            c.buffs@ == Seq::<Buff>::empty(),
    {
        Character {
            id,
            name: String::from_str(name),
            state: CharacterState::Default,
            abilities,
            sprite: String::from_str(sprite),
            is_friendly: true,
            stats,
            action_points: 0,
            health: stats.max_health,
            buffs: Vec::new(),
        }
    }

    /// Builds a character from its record: it starts with full health and no buffs.
    pub fn from_record(record: CharacterRecord) -> (c: Self)
        ensures
            c.id == record.id,
            c.name == record.name,
            c.state == record.state,
            c.abilities == record.abilities,
            c.sprite == record.sprite,
            c.is_friendly == record.is_friendly,
            c.stats == record.stats,
            c.action_points == record.action_points,
            c.health == record.stats.max_health,
            c.buffs@ == Seq::<Buff>::empty(),
    {
        let stats = record.stats;
        Character {
            id: record.id,
            name: record.name,
            state: record.state,
            abilities: record.abilities,
            sprite: record.sprite,
            is_friendly: record.is_friendly,
            stats,
            action_points: record.action_points,
            health: stats.max_health,
            buffs: Vec::new(),
        }
    }

    /// One tick of the character: it charges its action points.
    pub fn update(&mut self)
        requires
            old(self).can_tick(),
        ensures
            *final(self) == (Character { action_points: old(self).points_after_tick() as u32, ..*old(self) }),
    {
        self.update_action_points();
    }

    /// Sums the part of each buff that `part` picks, with the stat it adds to.
    fn sum_buffs(&self, base: u32, which: u8) -> (r: u32)
        requires
            which < 3,
            base + buff_total(self.buffs@, Self::part_of(which)) <= u32::MAX,
        ensures
            r == base + buff_total(self.buffs@, Self::part_of(which)),
    {
        let ghost part = Self::part_of(which);
        let mut sum: u32 = 0;
        let mut i: usize = 0;
        while i < self.buffs.len()
            invariant
                i <= self.buffs.len(),
                which < 3,
                part == Self::part_of(which),
                sum == buff_total(self.buffs@.take(i as int), part),
                base + buff_total(self.buffs@, part) <= u32::MAX,
            decreases self.buffs.len() - i,
        {
            proof {
                lemma_buff_total_step(self.buffs@, part, i as int);
                lemma_buff_total_prefix(self.buffs@, part, i + 1);
            }
            let v: u32 = match self.buffs[i] {
                Buff::Attack(v) => if which == 0 { v } else { 0 },
                Buff::Defense(v) => if which == 1 { v } else { 0 },
                Buff::Speed(v) => if which == 2 { v } else { 0 },
            };
            sum = sum + v;
            i = i + 1;
        }
        assert(self.buffs@.take(self.buffs.len() as int) == self.buffs@);
        base + sum
    }

    /// Like `sum_buffs`, but `None` where the sum does not fit in a `u32`.
    fn checked_sum_buffs(&self, base: u32, which: u8) -> (r: Option<u32>)
        requires
            which < 3,
        ensures
            r is Some <==> base + buff_total(self.buffs@, Self::part_of(which)) <= u32::MAX,
            r matches Some(v) ==> v == base + buff_total(self.buffs@, Self::part_of(which)),
    {
        let ghost part = Self::part_of(which);
        let mut sum: u32 = base;
        let mut i: usize = 0;
        while i < self.buffs.len()
            invariant
                i <= self.buffs.len(),
                which < 3,
                part == Self::part_of(which),
                sum == base + buff_total(self.buffs@.take(i as int), part),
            decreases self.buffs.len() - i,
        {
            proof {
                lemma_buff_total_step(self.buffs@, part, i as int);
                lemma_buff_total_prefix(self.buffs@, part, i + 1);
            }
            let v: u32 = match self.buffs[i] {
                Buff::Attack(v) => if which == 0 { v } else { 0 },
                Buff::Defense(v) => if which == 1 { v } else { 0 },
                Buff::Speed(v) => if which == 2 { v } else { 0 },
            };
            match sum.checked_add(v) {
                Some(next) => { sum = next; },
                None => { return None; },
            }
            i = i + 1;
        }
        assert(self.buffs@.take(self.buffs.len() as int) == self.buffs@);
        Some(sum)
    }

    /// Attack with buffs, or `None` where it does not fit in a `u32`.
    pub fn checked_attack(&self) -> (r: Option<u32>)
        ensures
            r is Some <==> self.attack_total() <= u32::MAX,
            r matches Some(v) ==> v == self.attack_total(),
    {
        self.checked_sum_buffs(self.stats.attack, 0)
    }

    /// Defense with buffs, or `None` where it does not fit in a `u32`.
    pub fn checked_defense(&self) -> (r: Option<u32>)
        ensures
            r is Some <==> self.can_be_hit(),
            r matches Some(v) ==> v == self.defense_total(),
    {
        self.checked_sum_buffs(self.stats.defense, 1)
    }

    /// Speed with buffs, or `None` where it does not fit in a `u32`.
    pub fn checked_speed(&self) -> (r: Option<u32>)
        ensures
            r is Some <==> self.speed_total() <= u32::MAX,
            r matches Some(v) ==> v == self.speed_total(),
    {
        self.checked_sum_buffs(self.stats.speed, 2)
    }

    /// The stat part that `which` names: attack, defense, speed.
    pub open spec fn part_of(which: u8) -> spec_fn(Buff) -> nat {
        if which == 0 {
            |b: Buff| attack_part(b)
        } else if which == 1 {
            |b: Buff| defense_part(b)
        } else {
            |b: Buff| speed_part(b)
        }
    }

    pub fn calculate_attack(&self) -> (r: u32)
        requires
            self.attack_total() <= u32::MAX,
        ensures
            r == self.attack_total(),
    {
        self.sum_buffs(self.stats.attack, 0)
    }

    pub fn calculate_defense(&self) -> (r: u32)
        requires
            self.can_be_hit(),
        ensures
            r == self.defense_total(),
    {
        self.sum_buffs(self.stats.defense, 1)
    }

    pub fn calculate_speed(&self) -> (r: u32)
        requires
            self.speed_total() <= u32::MAX,
        ensures
            r == self.speed_total(),
    {
        self.sum_buffs(self.stats.speed, 2)
    }

    pub fn action_points_charged(&self) -> (b: bool)
        ensures
            b == (self.action_points == MAX_ACTION_POINTS),
    {
        self.action_points == MAX_ACTION_POINTS
    }

    pub fn update_action_points(&mut self)
        requires
            old(self).can_tick(),
        ensures
            *final(self) == (Character { action_points: old(self).points_after_tick() as u32, ..*old(self) }),
    {
        let speed = self.calculate_speed();
        let sum = self.action_points + speed;
        self.action_points = if sum < MAX_ACTION_POINTS { sum } else { MAX_ACTION_POINTS };
    }

    pub fn use_action_points(&mut self)
        ensures
            *final(self) == (Character { action_points: 0, ..*old(self) }),
    {
        self.action_points = 0;
    }

    pub fn take_damage(&mut self, raw_damage: u32)
        requires
            old(self).can_be_hit(),
        ensures
            *final(self) == (Character { health: old(self).health_after_hit(raw_damage) as u32, ..*old(self) }),
    {
        let defense = self.calculate_defense();
        let damage = match self.state {
            CharacterState::Guarding => (raw_damage / 2).saturating_sub(defense),
            _ => raw_damage.saturating_sub(defense),
        };
        self.health = self.health.saturating_sub(damage);
    }

    pub fn heal(&mut self, heal_amount: u32)
        requires
            old(self).can_heal(heal_amount),
        ensures
            *final(self) == (Character { health: old(self).health_after_heal(heal_amount) as u32, ..*old(self) }),
    {
        let sum = self.health + heal_amount;
        self.health = if sum < self.stats.max_health { sum } else { self.stats.max_health };
    }

    /// A status effect changes nothing yet.
    pub fn status_effect(&mut self)
        ensures
            *final(self) == *old(self),
    {
    }

    pub fn use_ability() {
    }

    pub fn guard() {
    }

    pub fn use_item() {
    }

    pub fn flee() {
    }
}


/// Whether no two pairs of `s` share a key and each pair's key is its character's id.
pub open spec fn roster_wf(s: Seq<(CharacterId, Character)>) -> bool {
    &&& distinct_keys(s)
    &&& forall|i: int| 0 <= i < s.len() ==> #[trigger] s[i].0 == s[i].1.id
}

/// Whether no two pairs of `s` share a key.
pub open spec fn distinct_keys(s: Seq<(CharacterId, Character)>) -> bool {
    forall|i: int, j: int| 0 <= i < s.len() && 0 <= j < s.len() && i != j ==> s[i].0 != s[j].0
}

/// Whether `i` is the position of the first member of `s` named `name`.
pub open spec fn is_first_named(s: Seq<(CharacterId, Character)>, name: Seq<char>, i: int) -> bool {
    &&& 0 <= i < s.len()
    &&& s[i].1.name@ == name
    &&& forall|j: int| 0 <= j < i ==> s[j].1.name@ != name
}

/// Whether some member of `s` is named `name`.
pub open spec fn has_named(s: Seq<(CharacterId, Character)>, name: Seq<char>) -> bool {
    exists|i: int| 0 <= i < s.len() && s[i].1.name@ == name
}

/// The pairs after `c` joins: a member with its id is replaced in place, else
/// `c` goes last.
pub open spec fn with_member(s: Seq<(CharacterId, Character)>, c: Character) -> Seq<(CharacterId, Character)> {
    if has_key(s, c.id) {
        let i = choose|i: int| 0 <= i < s.len() && s[i].0 == c.id;
        s.update(i, (c.id, c))
    } else {
        s.push((c.id, c))
    }
}

/// The pairs that characters `cs` make when they join an empty party in order.
pub open spec fn joined(cs: Seq<Character>) -> Seq<(CharacterId, Character)>
    decreases cs.len(),
{
    if cs.len() == 0 {
        Seq::empty()
    } else {
        with_member(joined(cs.drop_last()), cs.last())
    }
}

/// Charging never takes action points past the maximum.
pub proof fn lemma_tick_capped(c: Character)
    ensures
        c.points_after_tick() <= MAX_ACTION_POINTS,
        c.action_points <= MAX_ACTION_POINTS ==> c.points_after_tick() >= c.action_points,
{
}

/// A speed buff of `v` makes one tick charge `v` more action points, as long
/// as the points stay below the maximum.
pub proof fn lemma_speed_buff_charges_more(c: Character, c2: Character, v: u32)
    requires
        c2 == (Character { buffs: c2.buffs, ..c }),
        c2.buffs@ == c.buffs@.push(Buff::Speed(v)),
        c.action_points + c.stats.speed + buff_total(c.buffs@, |b: Buff| speed_part(b)) + v < MAX_ACTION_POINTS,
    ensures
        c2.points_after_tick() == c.points_after_tick() + v,
        c.points_after_tick() == c.action_points + c.stats.speed + buff_total(c.buffs@, |b: Buff| speed_part(b)),
{
    lemma_buff_total_push(c.buffs@, |b: Buff| speed_part(b), Buff::Speed(v));
}

/// Healing never lowers health, and never takes it past the maximum.
pub proof fn lemma_heal_capped(c: Character, amount: u32)
    ensures
        c.health <= c.stats.max_health ==> c.health <= c.health_after_heal(amount) <= c.stats.max_health,
{
}

/// A hit never raises health, and health never goes below zero.
pub proof fn lemma_hit_never_heals(c: Character, raw: u32)
    ensures
        0 <= c.health_after_hit(raw) <= c.health,
{
}

/// Guarding never makes a hit hurt more.
pub proof fn lemma_guard_softens(c: Character, raw: u32)
    ensures
        (Character { state: CharacterState::Guarding, ..c }).damage_for(raw) <= (Character {
            state: CharacterState::Default,
            ..c
        }).damage_for(raw),
{
}

/// After the dead leave, every member left has health, and every member that
/// had health is still there.
pub proof fn lemma_survivors_alive(s: Seq<(CharacterId, Character)>)
    ensures
        forall|i: int| 0 <= i < survivors(s).len() ==> (#[trigger] survivors(s)[i]).1.health > 0,
        forall|i: int| 0 <= i < s.len() && s[i].1.health > 0 ==> survivors(s).contains(#[trigger] s[i]),
{
    broadcast use vstd::seq_lib::group_filter_ensures;
    let p = |e: (CharacterId, Character)| is_alive(e);
    assert forall|i: int| 0 <= i < survivors(s).len() implies (#[trigger] survivors(s)[i]).1.health > 0 by {
        s.lemma_filter_pred(p, i);
    }
    assert forall|i: int| 0 <= i < s.len() && s[i].1.health > 0 implies survivors(s).contains(#[trigger] s[i]) by {
        s.lemma_filter_contains(p, i);
    }
}

/// The ids of the pairs of `s`, in order.
pub open spec fn member_ids(s: Seq<(CharacterId, Character)>) -> Seq<CharacterId> {
    s.map_values(|e: (CharacterId, Character)| e.0)
}

/// The names of the members of `s`, in order.
pub open spec fn member_names(s: Seq<(CharacterId, Character)>) -> Seq<Seq<char>> {
    s.map_values(|e: (CharacterId, Character)| e.1.name@)
}

/// Whether a pair's character is alive.
pub open spec fn is_alive(e: (CharacterId, Character)) -> bool {
    e.1.health > 0
}

/// Whether a pair's character is dead.
pub open spec fn is_dead(e: (CharacterId, Character)) -> bool {
    e.1.health == 0
}

/// The members of `s` with health left, in order.
pub open spec fn survivors(s: Seq<(CharacterId, Character)>) -> Seq<(CharacterId, Character)> {
    s.filter(|e: (CharacterId, Character)| is_alive(e))
}

/// The members of `s` with no health left, in order.
pub open spec fn fallen(s: Seq<(CharacterId, Character)>) -> Seq<(CharacterId, Character)> {
    s.filter(|e: (CharacterId, Character)| is_dead(e))
}

/// Whether `t` holds the same members as `s`, in the same order, each with
/// the same key, id, name and abilities.
pub open spec fn same_roles(s: Seq<(CharacterId, Character)>, t: Seq<(CharacterId, Character)>) -> bool {
    &&& t.len() == s.len()
    &&& forall|i: int| 0 <= i < s.len() ==> {
        &&& (#[trigger] t[i]).0 == s[i].0
        &&& t[i].1.id == s[i].1.id
        &&& t[i].1.name == s[i].1.name
        &&& t[i].1.abilities == s[i].1.abilities
    }
}

/// Members with the same roles are as well formed.
pub proof fn lemma_same_roles_wf(s: Seq<(CharacterId, Character)>, t: Seq<(CharacterId, Character)>)
    requires
        roster_wf(s),
        same_roles(s, t),
    ensures
        roster_wf(t),
{
    assert forall|i: int, j: int| 0 <= i < t.len() && 0 <= j < t.len() && i != j implies t[i].0 != t[j].0 by {
        assert(t[i].0 == s[i].0 && t[j].0 == s[j].0);
    }
    assert forall|i: int| 0 <= i < t.len() implies #[trigger] t[i].0 == t[i].1.id by {
        assert(t[i].0 == s[i].0);
    }
}

/// A member joining keeps the pairs well formed.
pub proof fn lemma_with_member_wf(s: Seq<(CharacterId, Character)>, c: Character)
    requires
        roster_wf(s),
    ensures
        roster_wf(with_member(s, c)),
        has_key(s, c.id) ==> with_member(s, c).len() == s.len(),
        !has_key(s, c.id) ==> with_member(s, c).len() == s.len() + 1,
{
    let t = with_member(s, c);
    if !has_key(s, c.id) {
        assert forall|i: int, j: int| 0 <= i < t.len() && 0 <= j < t.len() && i != j implies t[i].0 != t[j].0 by {
            if i < s.len() && j < s.len() {
            } else if i == s.len() {
                assert(t[j] == s[j]);
            } else {
                assert(t[i] == s[i]);
            }
        }
    }
}

/// A member joining keeps the keys distinct.
pub proof fn lemma_with_member_keys(s: Seq<(CharacterId, Character)>, c: Character)
    requires
        distinct_keys(s),
    ensures
        distinct_keys(with_member(s, c)),
{
    let t = with_member(s, c);
    if !has_key(s, c.id) {
        assert forall|i: int, j: int| 0 <= i < t.len() && 0 <= j < t.len() && i != j implies t[i].0 != t[j].0 by {
            if i < s.len() && j < s.len() {
            } else if i == s.len() {
                assert(t[j] == s[j]);
            } else {
                assert(t[i] == s[i]);
            }
        }
    }
}

/// The pairs that joining characters make are well formed.
pub proof fn lemma_joined_wf(cs: Seq<Character>)
    ensures
        roster_wf(joined(cs)),
    decreases cs.len(),
{
    if cs.len() > 0 {
        lemma_joined_wf(cs.drop_last());
        lemma_with_member_wf(joined(cs.drop_last()), cs.last());
    }
}

#[derive(Debug)]
pub struct Party {
    pub characters: OrderMap<CharacterId, Character>,
}

impl Party {
    /// The party's pairs of id and character, in order.
    pub open spec fn members(self) -> Seq<(CharacterId, Character)> {
        roster_entries(self.characters)
    }

    pub open spec fn wf(self) -> bool {
        roster_wf(self.members())
    }

    pub fn new(characters: OrderMap<CharacterId, Character>) -> (p: Self)
        ensures
            p.characters == characters,
    {
        Party { characters }
    }

    pub fn new_empty() -> (p: Self)
        ensures
            p.members() == Seq::<(CharacterId, Character)>::empty(),
            p.wf(),
    {
        Party { characters: roster_new() }
    }

    /// Builds a party from characters in order, as a party record lists them.
    pub fn from_characters(characters: Vec<Character>) -> (p: Self)
        ensures
            p.members() == joined(characters@),
            p.wf(),
    {
        let ghost cs = characters@;
        let mut rest = characters;
        let mut party = Party::new_empty();
        while rest.len() > 0
            invariant
                party.members() == joined(cs.take(cs.len() - rest@.len())),
                rest@.len() <= cs.len(),
                cs.skip(cs.len() - rest@.len()) == rest@,
            decreases rest.len(),
        {
            let ghost k = cs.len() - rest@.len();
            let c = rest.remove(0);
            proof {
                assert(cs.take(k + 1).drop_last() == cs.take(k));
                assert(cs[k] == c);
                assert(cs.take(k + 1).last() == c);
                lemma_joined_wf(cs.take(k));
                assert(cs.skip(k + 1) == rest@);
            }
            party.add_member(c);
        }
        proof {
            assert(cs.take(cs.len() as int) == cs);
            lemma_joined_wf(cs);
        }
        party
    }

    pub fn add_member(&mut self, new_character: Character)
        requires
            distinct_keys(old(self).members()),
        ensures
            final(self).members() == with_member(old(self).members(), new_character),
            distinct_keys(final(self).members()),
            old(self).wf() ==> final(self).wf(),
    {
        let ghost s = self.members();
        let id = new_character.id;
        let _ = roster_insert(&mut self.characters, id, new_character);
        proof {
            if has_key(s, id) {
                let i = choose|i: int| 0 <= i < s.len() && s[i].0 == id;
                assert(self.members() =~= s.update(i, (id, new_character)));
            }
            lemma_with_member_keys(s, new_character);
            if roster_wf(s) {
                lemma_with_member_wf(s, new_character);
            }
        }
    }

    /// One tick for every member: each charges its action points.
    pub fn update_action_points(&mut self)
        requires
            forall|i: int| 0 <= i < old(self).members().len() ==> (#[trigger] old(self).members()[i]).1.can_tick(),
        ensures
            final(self).members().len() == old(self).members().len(),
            forall|i: int| 0 <= i < old(self).members().len() ==> #[trigger] final(self).members()[i] == (
                old(self).members()[i].0,
                Character {
                    action_points: old(self).members()[i].1.points_after_tick() as u32,
                    ..old(self).members()[i].1
                },
            ),
    {
        let ghost s = self.members();
        let n = roster_len(&self.characters);
        let mut i: usize = 0;
        while i < n
            invariant
                n == s.len(),
                i <= n,
                self.members().len() == n,
                forall|j: int| 0 <= j < n ==> (#[trigger] s[j]).1.can_tick(),
                forall|j: int| 0 <= j < i ==> #[trigger] self.members()[j] == (
                    s[j].0,
                    Character { action_points: s[j].1.points_after_tick() as u32, ..s[j].1 },
                ),
                forall|j: int| i <= j < n ==> #[trigger] self.members()[j] == s[j],
            decreases n - i,
        {
            match roster_get_index_mut(&mut self.characters, i) {
                Some((_, ch)) => {
                    assert(*ch == s[i as int].1);
                    ch.update_action_points();
                },
                None => {},
            }
            i = i + 1;
        }
    }

    /// Whether one tick of every member computes without overflow.
    pub fn can_tick_all(&self) -> (b: bool)
        ensures
            b == forall|i: int| 0 <= i < self.members().len() ==> (#[trigger] self.members()[i]).1.can_tick(),
    {
        let n = roster_len(&self.characters);
        let mut i: usize = 0;
        while i < n
            invariant
                n == self.members().len(),
                i <= n,
                forall|j: int| 0 <= j < i ==> (#[trigger] self.members()[j]).1.can_tick(),
            decreases n - i,
        {
            let ch = self.member(i);
            let fits = match ch.checked_speed() {
                Some(speed) => ch.action_points.checked_add(speed).is_some(),
                None => false,
            };
            if !fits {
                assert(!self.members()[i as int].1.can_tick());
                return false;
            }
            i = i + 1;
        }
        true
    }

    pub fn get_member_by_id(&self, character_id: CharacterId) -> (r: Option<&Character>)
        ensures
            r is Some <==> has_key(self.members(), character_id),
            r matches Some(c) ==> exists|i: int|
                0 <= i < self.members().len() && self.members()[i].0 == character_id && self.members()[i].1 == *c,
            distinct_keys(self.members()) ==> forall|i: int| 0 <= i < self.members().len() && self.members()[i].0 == character_id
                ==> (r matches Some(c) && *c == #[trigger] self.members()[i].1),
    {
        roster_get(&self.characters, &character_id)
    }

    /// The member at position `i`.
    pub fn member(&self, i: usize) -> (c: &Character)
        requires
            i < self.members().len(),
        ensures
            *c == self.members()[i as int].1,
    {
        let r = roster_get_index(&self.characters, i);
        r.unwrap().1
    }

    /// The member at position `i`, to be changed in place.
    pub fn member_mut(&mut self, i: usize) -> (c: &mut Character)
        requires
            i < old(self).members().len(),
        ensures
            *c == old(self).members()[i as int].1,
            final(self).members() == old(self).members().update(i as int, (old(self).members()[i as int].0, *final(c))),
    {
        let r = roster_get_index_mut(&mut self.characters, i);
        r.unwrap().1
    }

    /// `OrderMap::get_disjoint_mut` on two distinct ids: the members with
    /// those ids, each to be changed in place, where there are such members.
    #[verifier::external_body]
    pub fn get_two_mut(&mut self, actor_index: CharacterId, target_index: CharacterId) -> (r: [Option<&mut Character>; 2])
        requires
            actor_index != target_index,
        ensures
            r[0] is Some <==> has_key(old(self).members(), actor_index),
            r[1] is Some <==> has_key(old(self).members(), target_index),
            forall|i: int| 0 <= i < old(self).members().len() && old(self).members()[i].0 == actor_index ==>
                *r[0]->0 == old(self).members()[i].1,
            forall|i: int| 0 <= i < old(self).members().len() && old(self).members()[i].0 == target_index ==>
                *r[1]->0 == old(self).members()[i].1,
            forall|i: int, j: int|
                0 <= i < old(self).members().len() && old(self).members()[i].0 == actor_index && 0 <= j < old(
                    self,
                ).members().len() && old(self).members()[j].0 == target_index ==> final(self).members()
                    == old(self).members().update(i, (actor_index, *final(r[0]->0))).update(j, (target_index, *final(r[1]->0))),
            forall|i: int|
                0 <= i < old(self).members().len() && old(self).members()[i].0 == actor_index && !has_key(
                    old(self).members(),
                    target_index,
                ) ==> final(self).members() == old(self).members().update(i, (actor_index, *final(r[0]->0))),
            forall|j: int|
                0 <= j < old(self).members().len() && old(self).members()[j].0 == target_index && !has_key(
                    old(self).members(),
                    actor_index,
                ) ==> final(self).members() == old(self).members().update(j, (target_index, *final(r[1]->0))),
            !has_key(old(self).members(), actor_index) && !has_key(old(self).members(), target_index)
                ==> final(self).members() == old(self).members(),
    {
        self.characters.get_disjoint_mut([&actor_index, &target_index])
    }

    /// The position of the first member named `name`, if there is one.
    pub fn position_named(&self, name: &String) -> (r: Option<usize>)
        ensures
            r is None <==> !has_named(self.members(), name@),
            r matches Some(i) ==> is_first_named(self.members(), name@, i as int),
    {
        let n = roster_len(&self.characters);
        let mut i: usize = 0;
        while i < n
            invariant
                n == self.members().len(),
                i <= n,
                forall|j: int| 0 <= j < i ==> self.members()[j].1.name@ != name@,
            decreases n - i,
        {
            match roster_get_index(&self.characters, i) {
                Some((_, ch)) => {
                    if ch.name == *name {
                        return Some(i);
                    }
                },
                None => {},
            }
            i = i + 1;
        }
        None
    }

    pub fn is_character_name(&self, name: &String) -> (b: bool)
        ensures
            b == has_named(self.members(), name@),
    {
        self.position_named(name).is_some()
    }

    /// The names of the members, in order.
    pub fn names(&self) -> (v: Vec<String>)
        ensures
            v@.len() == self.members().len(),
            forall|i: int| 0 <= i < v@.len() ==> #[trigger] v@[i] == self.members()[i].1.name,
    {
        let n = roster_len(&self.characters);
        let mut v: Vec<String> = Vec::new();
        let mut i: usize = 0;
        while i < n
            invariant
                n == self.members().len(),
                i <= n,
                v@.len() == i,
                forall|j: int| 0 <= j < i ==> #[trigger] v@[j] == self.members()[j].1.name,
            decreases n - i,
        {
            match roster_get_index(&self.characters, i) {
                Some((_, ch)) => {
                    v.push(ch.name.clone());
                },
                None => {},
            }
            i = i + 1;
        }
        v
    }

    /// The ids of the members, in order.
    pub fn ids(&self) -> (v: Vec<CharacterId>)
        ensures
            v@ == member_ids(self.members()),
    {
        let n = roster_len(&self.characters);
        let mut v: Vec<CharacterId> = Vec::new();
        let mut i: usize = 0;
        while i < n
            invariant
                n == self.members().len(),
                i <= n,
                v@ == member_ids(self.members()).take(i as int),
            decreases n - i,
        {
            match roster_get_index(&self.characters, i) {
                Some((id, _)) => {
                    v.push(*id);
                },
                None => {},
            }
            proof {
                assert(member_ids(self.members()).take(i + 1) =~= member_ids(self.members()).take(i as int).push(self.members()[i as int].0));
            }
            i = i + 1;
        }
        assert(member_ids(self.members()).take(n as int) =~= member_ids(self.members()));
        v
    }

    /// The number of members.
    pub fn len(&self) -> (n: usize)
        ensures
            n == self.members().len(),
    {
        roster_len(&self.characters)
    }

    pub fn is_empty(&self) -> (b: bool)
        ensures
            b == (self.members().len() == 0),
    {
        roster_len(&self.characters) == 0
    }

    /// Removes the members with no health left; the others keep their order.
    pub fn remove_dead(&mut self)
        requires
            old(self).wf(),
        ensures
            final(self).members() == survivors(old(self).members()),
            final(self).wf(),
    {
        let ghost s = self.members();
        let ghost p = |e: (CharacterId, Character)| is_alive(e);
        let n = roster_len(&self.characters);
        let mut i: usize = 0;
        let mut k: usize = 0;
        while k < n
            invariant
                n == s.len(),
                0 <= i <= k,
                k <= s.len(),
                self.members() == s.take(k as int).filter(p) + s.skip(k as int),
                s.take(k as int).filter(p).len() == i,
                roster_wf(s),
                p == (|e: (CharacterId, Character)| is_alive(e)),
            decreases s.len() - k,
        {
            proof {
                reveal(Seq::filter);
                assert(s.take(k + 1).drop_last() == s.take(k as int));
                assert(s.take(k + 1).last() == s[k as int]);
                assert(self.members()[i as int] == s[k as int]);
            }
            let alive = match roster_get_index(&self.characters, i) {
                Some((_, ch)) => ch.health > 0,
                None => true,
            };
            if alive {
                proof {
                    assert(s.take(k + 1).filter(p) == s.take(k as int).filter(p).push(s[k as int]));
                    assert(self.members() == s.take(k + 1).filter(p) + s.skip(k + 1));
                }
                i = i + 1;
            } else {
                let _ = roster_remove_index(&mut self.characters, i);
                proof {
                    assert(s.take(k + 1).filter(p) == s.take(k as int).filter(p));
                    assert(self.members() =~= s.take(k + 1).filter(p) + s.skip(k + 1));
                }
            }
            k = k + 1;
        }
        proof {
            assert(s.take(s.len() as int) == s);
            assert(s.skip(s.len() as int) =~= Seq::<(CharacterId, Character)>::empty());
            assert(self.members() =~= s.filter(p));
            lemma_filter_keeps_wf(s, p);
        }
    }

    /// The dead members, in order.
    pub fn dead_members(&self) -> (v: Vec<Character>)
        ensures
            v@.len() == fallen(self.members()).len(),
            forall|i: int| 0 <= i < v@.len() ==> {
                let e = #[trigger] fallen(self.members())[i];
                &&& v@[i].id == e.1.id
                &&& v@[i].name == e.1.name
                &&& v@[i].health == 0
            },
    {
        let ghost s = self.members();
        let ghost p = |e: (CharacterId, Character)| is_dead(e);
        let n = roster_len(&self.characters);
        let mut v: Vec<Character> = Vec::new();
        let mut k: usize = 0;
        while k < n
            invariant
                n == s.len(),
                s == self.members(),
                k <= n,
                p == (|e: (CharacterId, Character)| is_dead(e)),
                v@.len() == s.take(k as int).filter(p).len(),
                forall|i: int| 0 <= i < v@.len() ==> {
                    let e = #[trigger] s.take(k as int).filter(p)[i];
                    &&& v@[i].id == e.1.id
                    &&& v@[i].name == e.1.name
                    &&& v@[i].health == 0
                },
            decreases n - k,
        {
            proof {
                reveal(Seq::filter);
                assert(s.take(k + 1).drop_last() == s.take(k as int));
                assert(s.take(k + 1).last() == s[k as int]);
            }
            match roster_get_index(&self.characters, k) {
                Some((_, ch)) => {
                    if ch.health == 0 {
                        proof {
                            assert(s.take(k + 1).filter(p) == s.take(k as int).filter(p).push(s[k as int]));
                        }
                        v.push(ch.clone());
                    } else {
                        proof {
                            assert(s.take(k + 1).filter(p) == s.take(k as int).filter(p));
                        }
                    }
                },
                None => {},
            }
            k = k + 1;
        }
        proof {
            assert(s.take(n as int) == s);
        }
        v
    }
}

/// A filter of well-formed pairs is well formed.
pub proof fn lemma_filter_keeps_wf(s: Seq<(CharacterId, Character)>, p: spec_fn((CharacterId, Character)) -> bool)
    requires
        roster_wf(s),
    ensures
        roster_wf(s.filter(p)),
    decreases s.len(),
{
    reveal(Seq::filter);
    if s.len() > 0 {
        let t = s.drop_last();
        assert forall|i: int, j: int| 0 <= i < t.len() && 0 <= j < t.len() && i != j implies t[i].0 != t[j].0 by {
            assert(t[i] == s[i] && t[j] == s[j]);
        }
        lemma_filter_keeps_wf(t, p);
        let f = t.filter(p);
        if p(s.last()) {
            assert(s.filter(p) == f.push(s.last()));
            assert forall|i: int| 0 <= i < f.len() implies f[i].0 != s.last().0 by {
                t.lemma_filter_contains_rev(p, f[i]);
                let j = choose|j: int| 0 <= j < t.len() && t[j] == f[i];
                assert(s[j] == t[j]);
            }
            let g = s.filter(p);
            assert forall|i: int, j: int| 0 <= i < g.len() && 0 <= j < g.len() && i != j implies g[i].0 != g[j].0 by {
                if i < f.len() && j < f.len() {
                    assert(g[i] == f[i] && g[j] == f[j]);
                } else if i == f.len() {
                    assert(g[j] == f[j]);
                } else {
                    assert(g[i] == f[i]);
                }
            }
            assert forall|i: int| 0 <= i < g.len() implies #[trigger] g[i].0 == g[i].1.id by {
                if i < f.len() {
                    assert(g[i] == f[i]);
                }
            }
        } else {
            assert(s.filter(p) == f);
        }
    }
}

} // verus!
