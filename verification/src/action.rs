//! Actions: what a character does on its turn, built step by step from the
//! player's choices and then carried out on the two parties.
use vstd::prelude::*;
use crate::ability::{Ability, AbilityType};
use crate::characters::{
    attack_part, has_named, is_first_named, lemma_buff_total_push, same_roles, Buff, Character, CharacterId,
    CharacterState, Party,
};
use crate::text::{filled, fill_placeholder, name_then};
use crate::ui::{notified, DialogueBox};

verus! {

#[derive(Clone, Copy, Debug, PartialEq, Eq, Structural)]
pub enum ActionType {
    Fight,
    Guard,
    Item,
    Flee,
}

#[derive(Debug)]
pub struct Action {
    pub action_type: ActionType,
    pub actor: String,
    pub target: Option<String>,
    pub ability: Option<Ability>,
}

/// Why an action cannot be carried out.
#[derive(Clone, Copy, Debug, PartialEq, Eq, Structural)]
pub enum ResolveError {
    /// A fight names no ability.
    NoAbility,
    /// A fight names no target.
    NoTarget,
    /// No member of the acting party bears the actor's name.
    UnknownActor,
    /// No member of the party aimed at bears the target's name.
    UnknownTarget,
    /// A buffing ability holds no buff.
    NoBuff,
    /// A number would not fit in a `u32`.
    Overflow,
}

/// The position of the first member of `s` named `name`.
pub open spec fn first_named(s: Seq<(CharacterId, Character)>, name: Seq<char>) -> int {
    choose|i: int| is_first_named(s, name, i)
}

/// The pairs with the member at `i` put in state `st`.
pub open spec fn restated(s: Seq<(CharacterId, Character)>, i: int, st: CharacterState) -> Seq<(CharacterId, Character)> {
    s.update(i, (s[i].0, Character { state: st, ..s[i].1 }))
}

/// The pairs with the member at `i` hit by `raw`.
pub open spec fn hit_at(s: Seq<(CharacterId, Character)>, i: int, raw: u32) -> Seq<(CharacterId, Character)> {
    s.update(i, (s[i].0, Character { health: s[i].1.health_after_hit(raw) as u32, ..s[i].1 }))
}

/// The pairs with the member at `i` healed by `amount`.
pub open spec fn healed_at(s: Seq<(CharacterId, Character)>, i: int, amount: u32) -> Seq<(CharacterId, Character)> {
    s.update(i, (s[i].0, Character { health: s[i].1.health_after_heal(amount) as u32, ..s[i].1 }))
}

/// Whether `after` is `before` with buff `b` added to the member at `i`.
pub open spec fn buff_pushed(
    before: Seq<(CharacterId, Character)>,
    after: Seq<(CharacterId, Character)>,
    i: int,
    b: Buff,
) -> bool {
    &&& after.len() == before.len()
    &&& forall|j: int| 0 <= j < before.len() && j != i ==> after[j] == before[j]
    &&& after[i].0 == before[i].0
    &&& after[i].1 == (Character { buffs: after[i].1.buffs, ..before[i].1 })
    &&& after[i].1.buffs@ == before[i].1.buffs@.push(b)
}

/// There is at most one first member with a name.
pub proof fn lemma_first_named_unique(s: Seq<(CharacterId, Character)>, name: Seq<char>, i: int)
    requires
        is_first_named(s, name, i),
    ensures
        first_named(s, name) == i,
{
    let j = first_named(s, name);
    assert(is_first_named(s, name, j));
    if j < i {
        assert(s[j].1.name@ != name);
    } else if i < j {
        assert(s[i].1.name@ != name);
    }
}

/// In a damaging fight, an attack buff of `v` on the actor makes the hit on
/// the target `v` harder: the two outcomes are the target hit by some raw
/// amount and by that amount plus `v`.
pub proof fn lemma_attack_buff_hits_harder(
    a: Action,
    i: int,
    v: u32,
    fp0: Seq<(CharacterId, Character)>,
    fp0b: Seq<(CharacterId, Character)>,
    ep0: Seq<(CharacterId, Character)>,
    d0: Seq<Seq<char>>,
    fp1: Seq<(CharacterId, Character)>,
    ep1: Seq<(CharacterId, Character)>,
    d1: Seq<Seq<char>>,
    fp1b: Seq<(CharacterId, Character)>,
    ep1b: Seq<(CharacterId, Character)>,
    d1b: Seq<Seq<char>>,
)
    requires
        a.action_type == ActionType::Fight,
        a.ability matches Some(ab) && ab.ability_type == AbilityType::Damage,
        is_first_named(fp0, a.actor@, i),
        crate::action::buff_pushed(fp0, fp0b, i, Buff::Attack(v)),
        a.resolve_error(fp0, ep0) is None,
        a.resolve_error(fp0b, ep0) is None,
        a.effect(fp0, ep0, d0, fp1, ep1, d1),
        a.effect(fp0b, ep0, d0, fp1b, ep1b, d1b),
    ensures
        exists|raw: u32| {
            &&& raw + v <= u32::MAX
            &&& ep1 == #[trigger] hit_at(ep0, first_named(ep0, a.target->0@), raw)
            &&& ep1b == hit_at(ep0, first_named(ep0, a.target->0@), (raw + v) as u32)
        },
{
    assert(is_first_named(fp0b, a.actor@, i)) by {
        assert(fp0b[i].1.name == fp0[i].1.name);
        assert forall|j: int| 0 <= j < i implies fp0b[j].1.name@ != a.actor@ by {
            assert(fp0b[j] == fp0[j]);
        }
    }
    lemma_first_named_unique(fp0, a.actor@, i);
    lemma_first_named_unique(fp0b, a.actor@, i);
    lemma_buff_total_push(fp0[i].1.buffs@, |b: Buff| attack_part(b), Buff::Attack(v));
    let ab = a.ability->0;
    let raw = (fp0[i].1.attack_total() + ab.power) as u32;
    assert(fp0b[i].1.attack_total() == fp0[i].1.attack_total() + v);
    assert(ep1 == hit_at(ep0, first_named(ep0, a.target->0@), raw));
    assert(ep1b == hit_at(ep0, first_named(ep0, a.target->0@), (raw + v) as u32));
}

/// Carrying out an action changes no member's key, id, name or abilities.
pub proof fn lemma_effect_same_roles(
    a: Action,
    fp0: Seq<(CharacterId, Character)>,
    ep0: Seq<(CharacterId, Character)>,
    d0: Seq<Seq<char>>,
    fp1: Seq<(CharacterId, Character)>,
    ep1: Seq<(CharacterId, Character)>,
    d1: Seq<Seq<char>>,
)
    requires
        a.resolve_error(fp0, ep0) is None,
        a.effect(fp0, ep0, d0, fp1, ep1, d1),
    ensures
        same_roles(fp0, fp1),
        same_roles(ep0, ep1),
{
    let actor = a.actor@;
    if a.action_type != ActionType::Fight || a.ability->0.ability_type != AbilityType::Status {
        let ai = first_named(fp0, actor);
        if a.action_type != ActionType::Fight || a.ability->0.ability_type != AbilityType::Status {
            assert(has_named(fp0, actor));
            let w = choose|i: int| 0 <= i < fp0.len() && fp0[i].1.name@ == actor;
            lemma_first_named_exists(fp0, actor, w);
        }
    }
    if a.action_type == ActionType::Fight {
        let ab = a.ability->0;
        let t = a.target->0@;
        if ab.ability_type == AbilityType::Damage {
            let w = choose|i: int| 0 <= i < ep0.len() && ep0[i].1.name@ == t;
            lemma_first_named_exists(ep0, t, w);
        } else if ab.ability_type == AbilityType::Buff || ab.ability_type == AbilityType::Heal {
            let w = choose|i: int| 0 <= i < fp0.len() && fp0[i].1.name@ == t;
            lemma_first_named_exists(fp0, t, w);
            let mid = restated(fp0, first_named(fp0, actor), CharacterState::Default);
            if ab.ability_type == AbilityType::Buff {
                let ti = first_named(fp0, t);
                assert forall|i: int| 0 <= i < fp0.len() implies {
                    &&& (#[trigger] fp1[i]).0 == fp0[i].0
                    &&& fp1[i].1.id == fp0[i].1.id
                    &&& fp1[i].1.name == fp0[i].1.name
                    &&& fp1[i].1.abilities == fp0[i].1.abilities
                } by {
                    if i != ti {
                        assert(fp1[i] == mid[i]);
                    }
                }
            }
        }
    }
}

/// Some member named `name` makes a first one, at or before it.
pub proof fn lemma_first_named_exists(s: Seq<(CharacterId, Character)>, name: Seq<char>, w: int)
    requires
        0 <= w < s.len(),
        s[w].1.name@ == name,
    ensures
        is_first_named(s, name, first_named(s, name)),
        first_named(s, name) <= w,
    decreases w,
{
    if exists|j: int| 0 <= j < w && s[j].1.name@ == name {
        let j = choose|j: int| 0 <= j < w && s[j].1.name@ == name;
        lemma_first_named_exists(s, name, j);
    } else {
        assert(is_first_named(s, name, w));
        lemma_first_named_unique(s, name, w);
    }
}

impl Action {
    pub fn new() -> (p: PendingAction)
        ensures
            p == PendingAction::empty(),
    {
        PendingAction::new()
    }

    /// The first reason, in the order the checks come, why this action cannot
    /// be carried out by party `fp` against party `ep`.
    pub open spec fn resolve_error(self, fp: Seq<(CharacterId, Character)>, ep: Seq<(CharacterId, Character)>) -> Option<ResolveError> {
        let actor = self.actor@;
        let actor_known = has_named(fp, actor);
        match self.action_type {
            ActionType::Fight => {
                if self.ability is None {
                    Some(ResolveError::NoAbility)
                } else {
                    let ab = self.ability->0;
                    match ab.ability_type {
                        AbilityType::Damage => {
                            if !actor_known {
                                Some(ResolveError::UnknownActor)
                            } else if self.target is None {
                                Some(ResolveError::NoTarget)
                            } else if !has_named(ep, self.target->0@) {
                                Some(ResolveError::UnknownTarget)
                            } else if fp[first_named(fp, actor)].1.attack_total() + ab.power > u32::MAX
                                || !ep[first_named(ep, self.target->0@)].1.can_be_hit() {
                                Some(ResolveError::Overflow)
                            } else {
                                None
                            }
                        },
                        AbilityType::Status => {
                            if self.target is None {
                                Some(ResolveError::NoTarget)
                            } else if !has_named(ep, self.target->0@) {
                                Some(ResolveError::UnknownTarget)
                            } else {
                                None
                            }
                        },
                        AbilityType::Buff => {
                            if !actor_known {
                                Some(ResolveError::UnknownActor)
                            } else if self.target is None {
                                Some(ResolveError::NoTarget)
                            } else if !has_named(fp, self.target->0@) {
                                Some(ResolveError::UnknownTarget)
                            } else if ab.buff is None {
                                Some(ResolveError::NoBuff)
                            } else {
                                None
                            }
                        },
                        AbilityType::Heal => {
                            if !actor_known {
                                Some(ResolveError::UnknownActor)
                            } else if self.target is None {
                                Some(ResolveError::NoTarget)
                            } else if !has_named(fp, self.target->0@) {
                                Some(ResolveError::UnknownTarget)
                            } else if !fp[first_named(fp, self.target->0@)].1.can_heal(ab.power) {
                                Some(ResolveError::Overflow)
                            } else {
                                None
                            }
                        },
                    }
                }
            },
            _ => {
                if !actor_known {
                    Some(ResolveError::UnknownActor)
                } else {
                    None
                }
            },
        }
    }

    /// Whether carrying out this action takes the parties from `fp0`, `ep0` to
    /// `fp1`, `ep1` and the messages from `d0` to `d1`.
    pub open spec fn effect(
        self,
        fp0: Seq<(CharacterId, Character)>,
        ep0: Seq<(CharacterId, Character)>,
        d0: Seq<Seq<char>>,
        fp1: Seq<(CharacterId, Character)>,
        ep1: Seq<(CharacterId, Character)>,
        d1: Seq<Seq<char>>,
    ) -> bool {
        let ai = first_named(fp0, self.actor@);
        match self.action_type {
            ActionType::Fight => {
                let ab = self.ability->0;
                let t = self.target->0@;
                let said = filled(ab.message@, self.actor@);
                match ab.ability_type {
                    AbilityType::Damage => {
                        let ti = first_named(ep0, t);
                        &&& fp1 == restated(fp0, ai, CharacterState::Default)
                        &&& ep1 == hit_at(ep0, ti, (fp0[ai].1.attack_total() + ab.power) as u32)
                        &&& d1 == notified(notified(d0, said), t + " takes a hit!"@)
                    },
                    AbilityType::Status => {
                        &&& fp1 == fp0
                        &&& ep1 == ep0
                        &&& d1 == d0
                    },
                    AbilityType::Buff => {
                        &&& buff_pushed(restated(fp0, ai, CharacterState::Default), fp1, first_named(fp0, t), ab.buff->0)
                        &&& ep1 == ep0
                        &&& d1 == notified(d0, said)
                    },
                    AbilityType::Heal => {
                        &&& fp1 == healed_at(restated(fp0, ai, CharacterState::Default), first_named(fp0, t), ab.power)
                        &&& ep1 == ep0
                        &&& d1 == notified(d0, said)
                    },
                }
            },
            ActionType::Guard => {
                &&& fp1 == restated(fp0, ai, CharacterState::Guarding)
                &&& ep1 == ep0
                &&& d1 == notified(d0, self.actor@ + " is guarding!"@)
            },
            ActionType::Item => {
                &&& fp1 == restated(fp0, ai, CharacterState::Default)
                &&& ep1 == ep0
                &&& d1 == notified(d0, self.actor@ + " used an item!"@)
            },
            ActionType::Flee => {
                &&& fp1 == restated(fp0, ai, CharacterState::Default)
                &&& ep1 == ep0
                &&& d1 == notified(d0, self.actor@ + " is trying to flee!"@)
            },
        }
    }

    /// Finds the first member named `name`, with its position.
    fn locate(party: &Party, name: &String) -> (i: usize)
        requires
            has_named(party.members(), name@),
        ensures
            is_first_named(party.members(), name@, i as int),
            i as int == first_named(party.members(), name@),
    {
        let r = party.position_named(name);
        let i = r.unwrap();
        proof {
            lemma_first_named_unique(party.members(), name@, i as int);
        }
        i
    }

    /// The position of the first member named `name`, if there is one.
    fn find(party: &Party, name: &String) -> (r: Option<usize>)
        ensures
            r is None <==> !has_named(party.members(), name@),
            r matches Some(i) ==> i as int == first_named(party.members(), name@)
                && is_first_named(party.members(), name@, i as int),
    {
        let r = party.position_named(name);
        match r {
            Some(i) => {
                proof {
                    lemma_first_named_unique(party.members(), name@, i as int);
                }
            },
            None => {},
        }
        r
    }

    /// The first reason why this action cannot be carried out, if any.
    pub fn check(&self, friendly_party: &Party, enemy_party: &Party) -> (r: Option<ResolveError>)
        ensures
            r == self.resolve_error(friendly_party.members(), enemy_party.members()),
    {
        let actor_at = Self::find(friendly_party, &self.actor);
        match self.action_type {
            ActionType::Fight => {
                let ab = match &self.ability {
                    None => {
                        return Some(ResolveError::NoAbility);
                    },
                    Some(ab) => ab,
                };
                match ab.ability_type {
                    AbilityType::Damage => {
                        let ai = match actor_at {
                            None => {
                                return Some(ResolveError::UnknownActor);
                            },
                            Some(i) => i,
                        };
                        let t = match &self.target {
                            None => {
                                return Some(ResolveError::NoTarget);
                            },
                            Some(t) => t,
                        };
                        let ti = match Self::find(enemy_party, t) {
                            None => {
                                return Some(ResolveError::UnknownTarget);
                            },
                            Some(i) => i,
                        };
                        let fits = match friendly_party.member(ai).checked_attack() {
                            Some(attack) => attack.checked_add(ab.power).is_some(),
                            None => false,
                        };
                        if !fits || enemy_party.member(ti).checked_defense().is_none() {
                            return Some(ResolveError::Overflow);
                        }
                        None
                    },
                    AbilityType::Status => {
                        let t = match &self.target {
                            None => {
                                return Some(ResolveError::NoTarget);
                            },
                            Some(t) => t,
                        };
                        if Self::find(enemy_party, t).is_none() {
                            return Some(ResolveError::UnknownTarget);
                        }
                        None
                    },
                    AbilityType::Buff => {
                        if actor_at.is_none() {
                            return Some(ResolveError::UnknownActor);
                        }
                        let t = match &self.target {
                            None => {
                                return Some(ResolveError::NoTarget);
                            },
                            Some(t) => t,
                        };
                        if Self::find(friendly_party, t).is_none() {
                            return Some(ResolveError::UnknownTarget);
                        }
                        if ab.buff.is_none() {
                            return Some(ResolveError::NoBuff);
                        }
                        None
                    },
                    AbilityType::Heal => {
                        if actor_at.is_none() {
                            return Some(ResolveError::UnknownActor);
                        }
                        let t = match &self.target {
                            None => {
                                return Some(ResolveError::NoTarget);
                            },
                            Some(t) => t,
                        };
                        let ti = match Self::find(friendly_party, t) {
                            None => {
                                return Some(ResolveError::UnknownTarget);
                            },
                            Some(i) => i,
                        };
                        if friendly_party.member(ti).health.checked_add(ab.power).is_none() {
                            return Some(ResolveError::Overflow);
                        }
                        None
                    },
                }
            },
            _ => {
                if actor_at.is_none() {
                    return Some(ResolveError::UnknownActor);
                }
                None
            },
        }
    }

    /// Carries out the action where it can be carried out; otherwise says why
    /// not and changes nothing.
    pub fn try_resolve(self, friendly_party: &mut Party, enemy_party: &mut Party, dialogue_box: &mut DialogueBox) -> (r: Result<(), ResolveError>)
        ensures
            self.resolve_error(old(friendly_party).members(), old(enemy_party).members()) matches Some(e) ==> {
                &&& r == Err::<(), ResolveError>(e)
                &&& final(friendly_party).members() == old(friendly_party).members()
                &&& final(enemy_party).members() == old(enemy_party).members()
                &&& final(dialogue_box)@ == old(dialogue_box)@
            },
            self.resolve_error(old(friendly_party).members(), old(enemy_party).members()) is None ==> {
                &&& r == Ok::<(), ResolveError>(())
                &&& self.effect(
                    old(friendly_party).members(),
                    old(enemy_party).members(),
                    old(dialogue_box)@,
                    final(friendly_party).members(),
                    final(enemy_party).members(),
                    final(dialogue_box)@,
                )
            },
    {
        match self.check(friendly_party, enemy_party) {
            Some(e) => Err(e),
            None => {
                self.resolve(friendly_party, enemy_party, dialogue_box);
                Ok(())
            },
        }
    }

    /// Carries out the action: `friendly_party` is the acting party and
    /// `enemy_party` the one it fights.
    pub fn resolve(self, friendly_party: &mut Party, enemy_party: &mut Party, dialogue_box: &mut DialogueBox)
        requires
            self.resolve_error(old(friendly_party).members(), old(enemy_party).members()) is None,
        ensures
            self.effect(
                old(friendly_party).members(),
                old(enemy_party).members(),
                old(dialogue_box)@,
                final(friendly_party).members(),
                final(enemy_party).members(),
                final(dialogue_box)@,
            ),
    {
        let ghost fp0 = friendly_party.members();
        let ghost ep0 = enemy_party.members();
        match self.action_type {
            ActionType::Fight => {
                let ability = self.ability.unwrap();
                match ability.ability_type {
                    AbilityType::Damage => {
                        let target = self.target.unwrap();
                        let ai = Self::locate(friendly_party, &self.actor);
                        let actor_ch = friendly_party.member_mut(ai);
                        actor_ch.state = CharacterState::Default;
                        let attack_power = friendly_party.member(ai).calculate_attack() + ability.power;
                        let ti = Self::locate(enemy_party, &target);
                        let target_ch = enemy_party.member_mut(ti);
                        target_ch.take_damage(attack_power);
                        let said = fill_placeholder(&ability.message, &self.actor);
                        dialogue_box.notify(said.as_str());
                        let hit = name_then(&target, " takes a hit!");
                        dialogue_box.notify(hit.as_str());
                        proof {
                            assert(friendly_party.members() =~= restated(fp0, ai as int, CharacterState::Default));
                            assert(enemy_party.members() =~= hit_at(ep0, ti as int, attack_power));
                        }
                    },
                    AbilityType::Status => {},
                    AbilityType::Buff => {
                        let target = self.target.unwrap();
                        let ai = Self::locate(friendly_party, &self.actor);
                        let ti = Self::locate(friendly_party, &target);
                        let b = ability.buff.unwrap();
                        let actor_ch = friendly_party.member_mut(ai);
                        actor_ch.state = CharacterState::Default;
                        let ghost fp_mid = friendly_party.members();
                        assert(fp_mid =~= restated(fp0, ai as int, CharacterState::Default));
                        let target_ch = friendly_party.member_mut(ti);
                        target_ch.buffs.push(b);
                        let said = fill_placeholder(&ability.message, &self.actor);
                        dialogue_box.notify(said.as_str());
                    },
                    AbilityType::Heal => {
                        let target = self.target.unwrap();
                        let ai = Self::locate(friendly_party, &self.actor);
                        let ti = Self::locate(friendly_party, &target);
                        let actor_ch = friendly_party.member_mut(ai);
                        actor_ch.state = CharacterState::Default;
                        let ghost fp_mid = friendly_party.members();
                        assert(fp_mid =~= restated(fp0, ai as int, CharacterState::Default));
                        let target_ch = friendly_party.member_mut(ti);
                        target_ch.heal(ability.power);
                        let said = fill_placeholder(&ability.message, &self.actor);
                        dialogue_box.notify(said.as_str());
                        assert(friendly_party.members() =~= healed_at(fp_mid, ti as int, ability.power));
                    },
                }
            },
            ActionType::Guard => {
                let ai = Self::locate(friendly_party, &self.actor);
                let actor_ch = friendly_party.member_mut(ai);
                actor_ch.state = CharacterState::Guarding;
                let said = name_then(&self.actor, " is guarding!");
                dialogue_box.notify(said.as_str());
                assert(friendly_party.members() =~= restated(fp0, ai as int, CharacterState::Guarding));
            },
            ActionType::Item => {
                let ai = Self::locate(friendly_party, &self.actor);
                let actor_ch = friendly_party.member_mut(ai);
                actor_ch.state = CharacterState::Default;
                let said = name_then(&self.actor, " used an item!");
                dialogue_box.notify(said.as_str());
                assert(friendly_party.members() =~= restated(fp0, ai as int, CharacterState::Default));
            },
            ActionType::Flee => {
                let ai = Self::locate(friendly_party, &self.actor);
                let actor_ch = friendly_party.member_mut(ai);
                actor_ch.state = CharacterState::Default;
                let said = name_then(&self.actor, " is trying to flee!");
                dialogue_box.notify(said.as_str());
                assert(friendly_party.members() =~= restated(fp0, ai as int, CharacterState::Default));
            },
        }
    }
}

pub struct PendingAction {
    pub action_type: Option<ActionType>,
    pub actor: Option<String>,
    pub target: Option<String>,
    pub ability: Option<String>,
}

/// Whether `i` is the position of the first ability named `name`.
pub open spec fn is_first_ability(abilities: Seq<Ability>, name: Seq<char>, i: int) -> bool {
    &&& 0 <= i < abilities.len()
    &&& abilities[i].name@ == name
    &&& forall|j: int| 0 <= j < i ==> abilities[j].name@ != name
}

/// A copy of the first ability named `name`.
fn first_ability(abilities: &Vec<Ability>, name: &String) -> (a: Ability)
    requires
        exists|j: int| 0 <= j < abilities.len() && abilities@[j].name@ == name@,
    ensures
        exists|i: int| is_first_ability(abilities@, name@, i) && a == abilities@[i],
{
    let mut i: usize = 0;
    while i < abilities.len()
        invariant
            i <= abilities.len(),
            forall|j: int| 0 <= j < i ==> abilities@[j].name@ != name@,
        decreases abilities.len() - i,
    {
        if abilities[i].name == *name {
            assert(is_first_ability(abilities@, name@, i as int));
            return abilities[i].clone();
        }
        i = i + 1;
    }
    proof {
        let j = choose|j: int| 0 <= j < abilities.len() && abilities@[j].name@ == name@;
        assert(abilities@[j].name@ != name@);
    }
    abilities[0].clone()
}

impl PendingAction {
    /// An action with nothing chosen yet.
    pub open spec fn empty() -> PendingAction {
        PendingAction { action_type: None, actor: None, target: None, ability: None }
    }

    pub fn new() -> (p: Self)
        ensures
            p == PendingAction::empty(),
    {
        PendingAction { action_type: None, actor: None, target: None, ability: None }
    }

    pub fn action_type(&mut self, action_type: ActionType) -> (r: &mut Self)
        ensures
            *r == (PendingAction { action_type: Some(action_type), ..*old(self) }),
            *final(self) == *final(r),
    {
        self.action_type = Some(action_type);
        self
    }

    pub fn actor(&mut self, actor: String) -> (r: &mut Self)
        ensures
            *r == (PendingAction { actor: Some(actor), ..*old(self) }),
            *final(self) == *final(r),
    {
        self.actor = Some(actor);
        self
    }

    pub fn target(&mut self, target: String) -> (r: &mut Self)
        ensures
            *r == (PendingAction { target: Some(target), ..*old(self) }),
            *final(self) == *final(r),
    {
        self.target = Some(target);
        self
    }

    pub fn ability(&mut self, ability: String) -> (r: &mut Self)
        ensures
            *r == (PendingAction { ability: Some(ability), ..*old(self) }),
            *final(self) == *final(r),
    {
        self.ability = Some(ability);
        self
    }

    /// Whether the choices made so far make an action out of `abilities`.
    pub open spec fn complete(self, abilities: Seq<Ability>) -> bool {
        &&& self.action_type is Some
        &&& self.actor is Some
        &&& self.ability matches Some(n) ==> exists|i: int| 0 <= i < abilities.len() && abilities[i].name@ == n@
    }

    /// Takes the choices made, leaving none; the ability is the first of
    /// `abilities` with the chosen name.
    pub fn build(&mut self, abilities: &Vec<Ability>) -> (a: Action)
        requires
            old(self).complete(abilities@),
        ensures
            *final(self) == PendingAction::empty(),
            a.action_type == old(self).action_type->0,
            a.actor == old(self).actor->0,
            a.target == old(self).target,
            old(self).ability is None ==> a.ability is None,
            old(self).ability matches Some(n) ==> exists|i: int|
                is_first_ability(abilities@, n@, i) && a.ability == Some(abilities@[i]),
    {
        let action_type = self.action_type.take().unwrap();
        let actor = self.actor.take().unwrap();
        let target = self.target.take();
        let ability = match self.ability.take() {
            Some(ab_name) => Some(first_ability(abilities, &ab_name)),
            None => None,
        };
        Action { action_type, actor, target, ability }
    }
}

} // verus!
