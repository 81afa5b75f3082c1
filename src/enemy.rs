use crate::card::{attack, is_royal, Card, CardValue};
use vstd::prelude::*;

verus! {

/// The enemy on top of the castle deck, made from a royal card.
#[derive(Clone, Copy, PartialEq, Eq, Structural, Debug, Hash)]
pub struct Enemy {
    card: Card,
    health: i8,
    attack: u8,
    jester_applied: bool,
}

/// Health of a fresh enemy of a royal rank.
pub open spec fn starting_health(v: CardValue) -> int {
    match v {
        CardValue::Jack => 20,
        CardValue::Queen => 30,
        _ => 40,
    }
}

/// Health after `amount` damage: the difference, or -1 where it would not fit in an `i8`.
pub open spec fn damaged_health(health: int, amount: int) -> int {
    if health - amount >= -128 {
        health - amount
    } else {
        -1
    }
}

/// Attack after a reduction by `by`, floored at zero.
pub open spec fn reduced_attack(a: nat, by: int) -> nat {
    if a >= by {
        (a - by) as nat
    } else {
        0
    }
}

impl Enemy {
    #[verifier::type_invariant]
    spec fn royal_card(self) -> bool {
        is_royal(self.card.value)
    }

    pub closed spec fn spec_card(self) -> Card {
        self.card
    }

    pub closed spec fn spec_health(self) -> int {
        self.health as int
    }

    pub closed spec fn spec_attack(self) -> nat {
        self.attack as nat
    }

    pub closed spec fn spec_jester_applied(self) -> bool {
        self.jester_applied
    }

    /// A fresh enemy. Only a Jack, Queen or King can be one.
    pub fn new(card: Card) -> (r: Enemy)
        requires
            is_royal(card.value),
        ensures
            r.spec_card() == card,
            r.spec_health() == starting_health(card.value),
            r.spec_attack() == attack(card),
            !r.spec_jester_applied(),
    {
        let health: i8 = match card.value {
            CardValue::Jack => 20,
            CardValue::Queen => 30,
            _ => 40,
        };
        Enemy { card, health, attack: card.attack_value() as u8, jester_applied: false }
    }

    pub fn attack_value(&self) -> (r: u8)
        ensures
            r == self.spec_attack(),
    {
        self.attack
    }

    pub fn health(&self) -> (r: i8)
        ensures
            r == self.spec_health(),
    {
        self.health
    }

    pub fn card(&self) -> (r: &Card)
        ensures
            *r == self.spec_card(),
            is_royal(r.value),
    {
        proof {
            use_type_invariant(self);
        }
        &self.card
    }

    /// Subtracts `amount` from the health, saturating to -1 below the `i8` range.
    pub fn take_damage(&mut self, amount: u16)
        ensures
            final(self).spec_health() == damaged_health(old(self).spec_health(), amount as int),
            final(self).spec_card() == old(self).spec_card(),
            final(self).spec_attack() == old(self).spec_attack(),
            final(self).spec_jester_applied() == old(self).spec_jester_applied(),
    {
        proof {
            use_type_invariant(&*self);
        }
        let h = self.health as i32 - amount as i32;
        self.health = if h >= -128 {
            h as i8
        } else {
            -1
        };
    }

    /// Lowers the attack by `by`, never below zero.
    pub fn decrease_attack(&mut self, by: u16)
        ensures
            final(self).spec_attack() == reduced_attack(old(self).spec_attack(), by as int),
            final(self).spec_card() == old(self).spec_card(),
            final(self).spec_health() == old(self).spec_health(),
            final(self).spec_jester_applied() == old(self).spec_jester_applied(),
    {
        proof {
            use_type_invariant(&*self);
        }
        self.attack = if self.attack as u16 >= by {
            (self.attack as u16 - by) as u8
        } else {
            0
        };
    }

    /// Marks that a Jester was played against this enemy: its suit no longer
    /// blocks the power of the same suit.
    pub fn apply_jester(&mut self)
        ensures
            final(self).spec_jester_applied(),
            final(self).spec_card() == old(self).spec_card(),
            final(self).spec_health() == old(self).spec_health(),
            final(self).spec_attack() == old(self).spec_attack(),
    {
        proof {
            use_type_invariant(&*self);
        }
        self.jester_applied = true;
    }

    pub fn jester_applied(&self) -> (r: bool)
        ensures
            r == self.spec_jester_applied(),
    {
        self.jester_applied
    }
}

} // verus!
