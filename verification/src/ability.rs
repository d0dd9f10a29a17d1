use vstd::prelude::*;
use crate::characters::{Buff, Character};

verus! {

#[derive(Clone, Copy, Debug, PartialEq, Eq, Structural)]
pub struct StatusEffect {
    pub attack: i32,
    pub defense: i32,
    pub speed: i32,
}

#[derive(Clone, Copy, Debug, PartialEq, Eq, Structural)]
pub enum AbilityType {
    Damage,
    Heal,
    Buff,
    Status,
}

#[derive(Debug)]
pub struct Ability {
    pub name: String,
    pub ability_type: AbilityType,
    pub power: u32,
    pub status_effect: Option<StatusEffect>,
    pub buff: Option<Buff>,
    pub message: String,
}

impl Clone for Ability {
    fn clone(&self) -> (a: Self)
        ensures
            a == *self,
    {
        Ability {
            name: self.name.clone(),
            ability_type: self.ability_type,
            power: self.power,
            status_effect: self.status_effect,
            buff: self.buff,
            message: self.message.clone(),
        }
    }
}

impl Ability {
    /// A damaging ability of power 10 with no effect, buff or message.
    pub fn new_empty(name: &str) -> (a: Self)
        ensures
            a.name@ == name@,
            a.ability_type == AbilityType::Damage,
            a.power == 10,
            a.status_effect is None,
            a.buff is None,
            a.message@ == Seq::<char>::empty(),
    {
        Ability {
            name: String::from_str(name),
            ability_type: AbilityType::Damage,
            power: 10,
            status_effect: None,
            buff: None,
            message: String::new(),
        }
    }

    pub fn new(
        name: &str,
        ability_type: AbilityType,
        power: u32,
        status_effect: StatusEffect,
        buff: Buff,
        message: String,
    ) -> (a: Self)
        ensures
            a.name@ == name@,
            a.ability_type == ability_type,
            a.power == power,
            a.status_effect == Some(status_effect),
            a.buff == Some(buff),
            a.message == message,
    {
        Ability {
            name: String::from_str(name),
            ability_type,
            power,
            status_effect: Some(status_effect),
            buff: Some(buff),
            message,
        }
    }

    /// Whether performing this ability on `target` computes without overflow.
    pub open spec fn can_perform_on(self, target: Character) -> bool {
        match self.ability_type {
            AbilityType::Damage => target.can_be_hit(),
            AbilityType::Heal => target.can_heal(self.power),
            _ => true,
        }
    }

    /// What performing this ability leaves of `target`: a damaging ability hits
    /// it with its power, a healing one heals it by its power, the others leave
    /// it as it was.
    pub open spec fn performed_on(self, target: Character) -> Character {
        match self.ability_type {
            AbilityType::Damage => Character { health: target.health_after_hit(self.power) as u32, ..target },
            AbilityType::Heal => Character { health: target.health_after_heal(self.power) as u32, ..target },
            _ => target,
        }
    }

    pub fn perform(&self, target: &mut Character)
        requires
            self.can_perform_on(*old(target)),
        ensures
            *final(target) == self.performed_on(*old(target)),
    {
        match self.ability_type {
            AbilityType::Damage => target.take_damage(self.power),
            AbilityType::Heal => target.heal(self.power),
            AbilityType::Buff => {},
            AbilityType::Status => target.status_effect(),
        }
    }
}

} // verus!
