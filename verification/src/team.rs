//! Teams: randomized roster builders. A roster carries eight to fifteen
//! skaters with consecutive identity keys and, where possible, distinct
//! numbers.

use vstd::prelude::*;

use crate::rng::rng_range_u64;
use crate::skater::{Skater, skater_drawn, skater_wf};

verus! {

/// One team: a stable identity key, display name and color, and its roster.
#[derive(Debug, PartialEq)]
pub struct Team {
    pub id: u64,
    pub name: String,
    pub roster: Vec<Skater>,
    pub color: String,
}

/// A roster fit for simulation: at least five skaters, consecutive identity
/// keys starting at `base_id`, every skater within the tunable bounds.
pub open spec fn roster_wf(roster: Seq<Skater>, base_id: u64) -> bool {
    &&& 5 <= roster.len()
    &&& base_id + roster.len() <= u64::MAX
    &&& forall|i: int| 0 <= i < roster.len() ==> #[trigger] roster[i].id == base_id + i
    &&& forall|i: int| 0 <= i < roster.len() ==> skater_wf(#[trigger] roster[i])
}

pub(crate) fn place_name(i: u64) -> &'static str {
    match i {
        0 => "Granite Falls",
        1 => "Harbor City",
        2 => "Ridgewood",
        3 => "Milltown",
        4 => "Copper Valley",
        5 => "Lakeshore",
        6 => "Northgate",
        _ => "Saltmarsh",
    }
}

pub(crate) fn color_name(i: u64) -> &'static str {
    match i {
        0 => "Black",
        1 => "Purple",
        2 => "Teal",
        3 => "Gold",
        4 => "Green",
        5 => "Silver",
        6 => "Red",
        _ => "Blue",
    }
}

impl Team {
    /// Builds one randomized team whose skaters take the consecutive identity
    /// keys `base_id` onward; the team itself takes key `team_id`.
    pub fn random(source: &mut rand::rngs::StdRng, team_id: u64, base_id: u64) -> (t: Team)
        requires
            base_id + 15 <= u64::MAX,
        ensures
            t.id == team_id,
            roster_wf(t.roster@, base_id),
            8 <= t.roster.len() <= 15,
            forall|i: int| 0 <= i < t.roster@.len() ==> skater_drawn(#[trigger] t.roster@[i]),
    {
        Team {
            id: team_id,
            name: Self::get_random_name(source),
            roster: Self::get_random_roster(source, base_id),
            color: Self::get_random_color(source),
        }
    }

    fn get_random_name(source: &mut rand::rngs::StdRng) -> String {
        let mut name = place_name(rng_range_u64(source, 0, 8)).to_owned();
        name.append(" Roller Derby");
        name
    }

    /// Draws eight to fifteen skaters. Each skater's number is redrawn a
    /// bounded number of times to avoid clashing with an earlier one; if every
    /// redraw clashes the last draw stands. The roster keeps identity order.
    fn get_random_roster(source: &mut rand::rngs::StdRng, base_id: u64) -> (roster: Vec<Skater>)
        requires
            base_id + 15 <= u64::MAX,
        ensures
            roster_wf(roster@, base_id),
            8 <= roster.len() <= 15,
            forall|i: int| 0 <= i < roster@.len() ==> skater_drawn(#[trigger] roster@[i]),
    {
        let roster_size = rng_range_u64(source, 8, 16);
        let mut roster: Vec<Skater> = Vec::new();
        while roster.len() < roster_size as usize
            invariant
                base_id + 15 <= u64::MAX,
                8 <= roster_size < 16,
                roster.len() <= roster_size,
                forall|i: int| 0 <= i < roster.len() ==> #[trigger] roster[i].id == base_id + i,
                forall|i: int| 0 <= i < roster.len() ==> skater_wf(#[trigger] roster[i]),
                forall|i: int| 0 <= i < roster.len() ==> skater_drawn(#[trigger] roster[i]),
            decreases roster_size - roster.len(),
        {
            let mut skater = Skater::random(source, base_id + roster.len() as u64);
            let mut tries: u64 = 0;
            while tries < 16 && Self::number_taken(&roster, &skater)
                invariant
                    skater.id == base_id + roster.len(),
                    skater_wf(skater),
                    skater_drawn(skater),
                decreases 16 - tries,
            {
                skater = Skater::random(source, base_id + roster.len() as u64);
                tries = tries + 1;
            }
            roster.push(skater);
        }
        roster
    }

    fn number_taken(roster: &Vec<Skater>, skater: &Skater) -> bool {
        let mut i: usize = 0;
        while i < roster.len()
            invariant
                i <= roster.len(),
            decreases roster.len() - i,
        {
            if roster[i].number == skater.number {
                return true;
            }
            i = i + 1;
        }
        false
    }

    fn get_random_color(source: &mut rand::rngs::StdRng) -> String {
        color_name(rng_range_u64(source, 0, 8)).to_owned()
    }
}

} // verus!
