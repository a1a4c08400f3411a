//! The officiating crew: randomized builders with no state machine. The crew
//! is produced once at match start and copied into the play-by-play record.

use vstd::prelude::*;

use crate::skater::random_person_name;

verus! {

/// Every role a bout's officiating crew fills.
#[derive(Clone, Copy, Debug, PartialEq, Eq, Structural)]
pub enum OfficialRole {
    PenaltyLineupTracker,
    PenaltyWrangler,
    InsideWhiteboard,
    JamTimer,
    Scorekeeper,
    ScoreboardOperator,
    PenaltyBoxManager,
    PenaltyBoxTimer,
    InsidePackReferee,
    OutsidePackReferee,
    JammerReferee,
}

/// One official: a stable identity key, a display name, whether they head
/// their group, and the role they fill.
#[derive(Debug, PartialEq)]
pub struct Official {
    pub id: u64,
    pub name: String,
    pub is_head: bool,
    pub role: OfficialRole,
}

/// Two official records carrying the same data.
pub open spec fn official_like(a: Official, b: Official) -> bool {
    a.id == b.id && a.name@ == b.name@ && a.is_head == b.is_head && a.role == b.role
}

impl Clone for Official {
    fn clone(&self) -> (r: Official)
        ensures
            official_like(*self, r),
    {
        Official { id: self.id, name: self.name.clone(), is_head: self.is_head, role: self.role }
    }
}

impl Official {
    /// Builds one official with a drawn name under the given identity key.
    pub fn random(
        source: &mut rand::rngs::StdRng,
        role: OfficialRole,
        is_head: bool,
        id: u64,
    ) -> (o: Official)
        ensures
            o.id == id,
            o.role == role,
            o.is_head == is_head,
    {
        Official { id, name: random_person_name(source), is_head, role }
    }

    /// Builds the full eighteen-member crew, identity keys `base_id` onward.
    /// The crew always contains a head inside-pack referee and a head
    /// non-referee official, which the exported record's crew headers need.
    pub fn random_crew(source: &mut rand::rngs::StdRng, base_id: u64) -> (crew: Vec<Official>)
        requires
            base_id + 18 <= u64::MAX,
        ensures
            crew.len() == 18,
            forall|i: int| 0 <= i < 18 ==> #[trigger] crew[i].id == base_id + i,
            crew[0].role == OfficialRole::PenaltyLineupTracker && crew[0].is_head,
            crew[11].role == OfficialRole::InsidePackReferee && crew[11].is_head,
            forall|i: int|
                0 <= i < 18 && i != 0 && i != 11 ==> !(#[trigger] crew[i].is_head),
            crew[1].role == OfficialRole::PenaltyLineupTracker,
            crew[2].role == OfficialRole::PenaltyWrangler,
            crew[3].role == OfficialRole::InsideWhiteboard,
            crew[4].role == OfficialRole::JamTimer,
            crew[5].role == OfficialRole::Scorekeeper,
            crew[6].role == OfficialRole::Scorekeeper,
            crew[7].role == OfficialRole::ScoreboardOperator,
            crew[8].role == OfficialRole::PenaltyBoxManager,
            crew[9].role == OfficialRole::PenaltyBoxTimer,
            crew[10].role == OfficialRole::PenaltyBoxTimer,
            crew[12].role == OfficialRole::InsidePackReferee,
            crew[13].role == OfficialRole::OutsidePackReferee,
            crew[14].role == OfficialRole::OutsidePackReferee,
            crew[15].role == OfficialRole::OutsidePackReferee,
            crew[16].role == OfficialRole::JammerReferee,
            crew[17].role == OfficialRole::JammerReferee,
    {
        let mut crew: Vec<Official> = Vec::new();
        crew.push(Self::random(source, OfficialRole::PenaltyLineupTracker, true, base_id));
        crew.push(Self::random(source, OfficialRole::PenaltyLineupTracker, false, base_id + 1));
        crew.push(Self::random(source, OfficialRole::PenaltyWrangler, false, base_id + 2));
        crew.push(Self::random(source, OfficialRole::InsideWhiteboard, false, base_id + 3));
        crew.push(Self::random(source, OfficialRole::JamTimer, false, base_id + 4));
        crew.push(Self::random(source, OfficialRole::Scorekeeper, false, base_id + 5));
        crew.push(Self::random(source, OfficialRole::Scorekeeper, false, base_id + 6));
        crew.push(Self::random(source, OfficialRole::ScoreboardOperator, false, base_id + 7));
        crew.push(Self::random(source, OfficialRole::PenaltyBoxManager, false, base_id + 8));
        crew.push(Self::random(source, OfficialRole::PenaltyBoxTimer, false, base_id + 9));
        crew.push(Self::random(source, OfficialRole::PenaltyBoxTimer, false, base_id + 10));
        crew.push(Self::random(source, OfficialRole::InsidePackReferee, true, base_id + 11));
        crew.push(Self::random(source, OfficialRole::InsidePackReferee, false, base_id + 12));
        crew.push(Self::random(source, OfficialRole::OutsidePackReferee, false, base_id + 13));
        crew.push(Self::random(source, OfficialRole::OutsidePackReferee, false, base_id + 14));
        crew.push(Self::random(source, OfficialRole::OutsidePackReferee, false, base_id + 15));
        crew.push(Self::random(source, OfficialRole::JammerReferee, false, base_id + 16));
        crew.push(Self::random(source, OfficialRole::JammerReferee, false, base_id + 17));
        crew
    }
}

} // verus!
