//! Skaters: the static record the roster generator produces for each athlete.
//! Track positions, speeds and distances are in thousandths of a track unit
//! (the track loop is 100 units, so 100_000 milliunits), and the per-tick
//! penalty probability is in parts per million.

use vstd::prelude::*;

use crate::rng::{rng_range_u64};

verus! {

/// The position a skater occupies on track during a jam.
#[derive(Clone, Copy, Debug, PartialEq, Eq, Structural)]
pub enum Position {
    Jammer,
    Pivot,
    Blocker,
}

/// One athlete: a stable identity key, display name and number, the position
/// they favor, their base speed in milliunits per tick, and their chance of
/// committing a penalty on any given tick, in parts per million.
#[derive(Debug, PartialEq)]
pub struct Skater {
    pub id: u64,
    pub name: String,
    pub number: String,
    pub favored_position: Position,
    pub base_speed: i64,
    pub penalty_chance_ppm: u32,
}

/// The bounds every skater's tunables satisfy: base speed between 15 and 20
/// track units per tick and a penalty chance that is a valid probability.
pub open spec fn skater_wf(s: Skater) -> bool {
    15_000 <= s.base_speed <= 20_000 && s.penalty_chance_ppm <= 1_000_000
}

/// The exact ranges the randomized builder draws from: base speed in
/// [15, 20) units, penalty chance in [500, 1000) parts per million, and a
/// number of one to four digits.
pub open spec fn skater_drawn(s: Skater) -> bool {
    &&& 15_000 <= s.base_speed < 20_000
    &&& 500 <= s.penalty_chance_ppm < 1_000
    &&& 1 <= s.number@.len() <= 4
}

/// Two skater records carrying the same data (string fields compared by view).
pub open spec fn skater_like(a: Skater, b: Skater) -> bool {
    a.id == b.id && a.name@ == b.name@ && a.number@ == b.number@
        && a.favored_position == b.favored_position && a.base_speed == b.base_speed
        && a.penalty_chance_ppm == b.penalty_chance_ppm
}

impl Clone for Skater {
    fn clone(&self) -> (r: Skater)
        ensures
            skater_like(*self, r),
    {
        Skater {
            id: self.id,
            name: self.name.clone(),
            number: self.number.clone(),
            favored_position: self.favored_position,
            base_speed: self.base_speed,
            penalty_chance_ppm: self.penalty_chance_ppm,
        }
    }
}

/// The adjectives skater and official names are drawn from.
pub(crate) fn name_adjective(i: u64) -> &'static str {
    match i {
        0 => "Fierce",
        1 => "Rolling",
        2 => "Crimson",
        3 => "Thundering",
        4 => "Velvet",
        5 => "Rapid",
        6 => "Iron",
        _ => "Nimble",
    }
}

/// The nouns skater and official names are drawn from.
pub(crate) fn name_noun(i: u64) -> &'static str {
    match i {
        0 => "Badger",
        1 => "Comet",
        2 => "Harrier",
        3 => "Piston",
        4 => "Falcon",
        5 => "Zephyr",
        6 => "Anvil",
        _ => "Vortex",
    }
}

/// One decimal digit as text.
pub(crate) fn digit_str(d: u64) -> (s: &'static str)
    ensures
        s@.len() == 1,
{
    let s = match d {
        0 => "0",
        1 => "1",
        2 => "2",
        3 => "3",
        4 => "4",
        5 => "5",
        6 => "6",
        7 => "7",
        8 => "8",
        _ => "9",
    };
    proof {
        reveal_strlit("0");
        reveal_strlit("1");
        reveal_strlit("2");
        reveal_strlit("3");
        reveal_strlit("4");
        reveal_strlit("5");
        reveal_strlit("6");
        reveal_strlit("7");
        reveal_strlit("8");
        reveal_strlit("9");
    }
    s
}

/// Draws a two-word display name from the word lists.
pub(crate) fn random_person_name(source: &mut rand::rngs::StdRng) -> String {
    let adjective = name_adjective(rng_range_u64(source, 0, 8));
    let noun = name_noun(rng_range_u64(source, 0, 8));
    let mut name = adjective.to_owned();
    name.append(" ");
    name.append(noun);
    name
}

impl Skater {
    /// Builds one randomized skater under the given identity key: a drawn
    /// name, a one-to-four digit number, a favored position, and tunables
    /// within the simulation's bounds.
    pub fn random(source: &mut rand::rngs::StdRng, id: u64) -> (s: Skater)
        ensures
            s.id == id,
            skater_wf(s),
            skater_drawn(s),
    {
        Skater {
            id,
            name: random_person_name(source),
            number: Self::get_random_number(source),
            favored_position: Self::get_random_position(source),
            base_speed: Self::get_random_speed(source),
            penalty_chance_ppm: Self::get_random_penalty_chance(source),
        }
    }

    /// A skater number: one to four decimal digits, leading zeroes allowed.
    fn get_random_number(source: &mut rand::rngs::StdRng) -> (number: String)
        ensures
            1 <= number@.len() <= 4,
    {
        let digit_count = rng_range_u64(source, 1, 5);
        let mut number = String::new();
        let mut i: u64 = 0;
        while i < digit_count
            invariant
                i <= digit_count,
                digit_count < 5,
                number@.len() == i,
            decreases digit_count - i,
        {
            number.append(digit_str(rng_range_u64(source, 0, 10)));
            i = i + 1;
        }
        number
    }

    fn get_random_position(source: &mut rand::rngs::StdRng) -> Position {
        let roll = rng_range_u64(source, 0, 3);
        if roll == 0 {
            Position::Jammer
        } else if roll == 1 {
            Position::Pivot
        } else {
            Position::Blocker
        }
    }

    fn get_random_speed(source: &mut rand::rngs::StdRng) -> (v: i64)
        ensures
            15_000 <= v < 20_000,
    {
        let raw = rng_range_u64(source, 15_000, 20_000);
        raw as i64
    }

    fn get_random_penalty_chance(source: &mut rand::rngs::StdRng) -> (v: u32)
        ensures
            500 <= v < 1_000,
    {
        let raw = rng_range_u64(source, 500, 1_000);
        raw as u32
    }
}

} // verus!
