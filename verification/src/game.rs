//! The simulation engine: the top-level match state machine, the per-skater
//! activity state machine, and the roster fielding selector. One call to
//! `tick` advances the match by one simulated second (1000 ms).
//!
//! The central invariant, kept before and after every tick, is penalty-box
//! coherence: a fielded skater's identity key is in the persistent penalty
//! box exactly when their activity is one of skating to the box, sitting in
//! it, or being held in it across a jam boundary.

use vstd::prelude::*;

use crate::game_json::{
    GameJson, TeamJamFielding, TeamJamJson, TripJson, FieldingSkaterJson, record_wf, record_open_jam,
    trips_wf,
    jam_record_wf, period_record_wf, record_frame, team_jam_of, lemma_record_frame_preserves_wf,
    lemma_record_frame_trans, lemma_trips_score_wf, lemma_trips_push_wf,
};
use crate::official::{Official, official_like};
use crate::rng::{rng_range_i64, rng_range_u64, rng_ratio};
use crate::skater::{Position, Skater, skater_drawn, skater_like, skater_wf};
use crate::team::Team;

verus! {

/// How long one penalty is served, in milliseconds.
pub const PENALTY_SIT_DURATION: u64 = 30_000;

/// A period's clock, in milliseconds.
pub const PERIOD_DURATION: u64 = 1_800_000;

/// The longest a jam may run, in milliseconds.
pub const JAM_DURATION: u64 = 120_000;

/// How long a lineup lasts before the next jam starts, in milliseconds.
pub const LINEUP_DURATION: u64 = 30_000;

/// Before the first jam.
#[derive(Debug, PartialEq)]
pub struct PreGame {}

/// Which team's jammer holds lead, if any.
#[derive(Clone, Copy, Debug, PartialEq, Eq, Structural)]
pub enum LeadJammerTeam {
    Neither,
    Home,
    Away,
}

/// A jam under way: when it began and the two fielded teams.
#[derive(Debug, PartialEq)]
pub struct JamInProgress {
    pub start_tick: u64,
    pub home_skaters: Vec<JamSkater>,
    pub away_skaters: Vec<JamSkater>,
    pub lead_jammer_team: LeadJammerTeam,
}

/// The gap between jams.
#[derive(Debug, PartialEq)]
pub struct LineupInProgress {
    pub start_tick: u64,
}

/// The kinds of timeout the rules know. The simulation models these states
/// but never enters them.
#[derive(Clone, Copy, Debug, PartialEq, Eq, Structural)]
pub enum TimeoutType {
    Official,
    Team,
    Review,
}

/// A timeout under way. Never entered by the current transition logic.
#[derive(Debug, PartialEq)]
pub struct TimeoutInProgress {
    pub start_tick: u64,
    pub timeout_type: TimeoutType,
}

/// The break after a period's clock runs out.
#[derive(Debug, PartialEq)]
pub struct IntervalInProgress {
    pub start_tick: u64,
}

/// The terminal state: the bout is over.
#[derive(Debug, PartialEq)]
pub struct PostGame {
    pub start_tick: u64,
}

/// The match state: exactly one variant is active at any tick.
#[derive(Debug, PartialEq)]
pub enum GameState {
    PreGame(PreGame),
    JamInProgress(JamInProgress),
    LineupInProgress(LineupInProgress),
    TimeoutInProgress(TimeoutInProgress),
    IntervalInProgress(IntervalInProgress),
    PostGame(PostGame),
}

/// One team as the match owns it: its static details, its timeout budget,
/// and the persistent per-skater records.
#[derive(Debug, PartialEq)]
pub struct GameTeam {
    pub details: Team,
    pub timeouts_remaining: u8,
    pub has_official_review: bool,
    pub official_review_retained: bool,
    pub roster: Vec<GameSkater>,
}

/// The persistent record of one roster skater, outliving jams: the skater,
/// their accumulated penalties, and the tick of the last jam they played
/// (read by the fielding selector; nothing writes it yet, so every skater
/// counts as equally rested).
#[derive(Debug, PartialEq)]
pub struct GameSkater {
    pub details: Skater,
    pub penalties: Vec<Penalty>,
    pub last_jam_tick: u64,
}

/// One recorded penalty.
#[derive(Debug, PartialEq)]
pub struct Penalty {
    pub code: String,
    pub received_tick: u64,
}

/// Skating the track loop; the position is on a 0 to 100 scale, held in
/// milliunits, and may drift slightly negative inside the pack.
#[derive(Clone, Copy, Debug, PartialEq, Eq, Structural)]
pub struct SkatingOnTrack {
    pub location: i64,
}

/// En route to the penalty box.
#[derive(Clone, Copy, Debug, PartialEq, Eq, Structural)]
pub struct SkatingToBox {
    pub distance_remaining: i64,
    pub penalties_to_sit: u8,
}

/// Serving in the box.
#[derive(Clone, Copy, Debug, PartialEq, Eq, Structural)]
pub struct SatInBox {
    pub start_tick: u64,
    pub penalty_count: u8,
}

/// Re-entering play after release.
#[derive(Clone, Copy, Debug, PartialEq, Eq, Structural)]
pub struct ReturningFromBox {
    pub distance_remaining: i64,
}

/// A sit interrupted by a jam boundary: the elapsed time is preserved so the
/// sit resumes seamlessly in the next jam.
#[derive(Clone, Copy, Debug, PartialEq, Eq, Structural)]
pub struct HeldInBox {
    pub ticks_expired: u64,
    pub penalty_count: u8,
}

/// A skater's activity: exactly one per skater per tick.
#[derive(Clone, Copy, Debug, PartialEq, Eq, Structural)]
pub enum SkaterActivity {
    SkatingOnTrack(SkatingOnTrack),
    SkatingToBox(SkatingToBox),
    SatInBox(SatInBox),
    ReturningFromBox(ReturningFromBox),
    HeldInBox(HeldInBox),
}

/// One on-track skater for one jam: ephemeral, recreated every jam, bridged
/// across jam boundaries only through the penalty box.
#[derive(Debug, PartialEq)]
pub struct JamSkater {
    pub details: Skater,
    pub position: Position,
    pub activity: SkaterActivity,
    pub can_receive_lead: bool,
    pub is_lead: bool,
}

/// Two jam-skater records carrying the same data.
pub open spec fn jam_skater_like(a: JamSkater, b: JamSkater) -> bool {
    skater_like(a.details, b.details) && a.position == b.position && a.activity == b.activity
        && a.can_receive_lead == b.can_receive_lead && a.is_lead == b.is_lead
}

impl Clone for JamSkater {
    fn clone(&self) -> (r: JamSkater)
        ensures
            jam_skater_like(*self, r),
    {
        JamSkater {
            details: self.details.clone(),
            position: self.position,
            activity: self.activity,
            can_receive_lead: self.can_receive_lead,
            is_lead: self.is_lead,
        }
    }
}

/// The whole match: both rosters, the crew, the shared random stream, the
/// current state, the clocks, the persistent penalty box and the
/// play-by-play record.
pub struct Game {
    pub random_source: rand::rngs::StdRng,
    pub home_team: GameTeam,
    pub away_team: GameTeam,
    pub officials: Vec<Official>,
    pub game_json: GameJson,
    pub state: GameState,
    pub current_tick: u64,
    pub period_clock: u64,
    pub penalty_box: Vec<JamSkater>,
    pub lead_is_open: bool,
    pub jam_called: bool,
}

/// The activities that put a skater's identity in the penalty box.
pub open spec fn is_box_activity(a: SkaterActivity) -> bool {
    a is SkatingToBox || a is SatInBox || a is HeldInBox
}

/// The bounds every activity's fields satisfy at tick `now`: distances are
/// within the drawn range, sit records started in the past, and a held sit
/// has not expired more time than the match has run.
pub open spec fn activity_wf(a: SkaterActivity, now: u64) -> bool {
    match a {
        SkaterActivity::SkatingOnTrack(t) => -100_000 <= t.location <= 100_000,
        SkaterActivity::SkatingToBox(t) => 0 < t.distance_remaining <= 60_000 && 1
            <= t.penalties_to_sit <= 2,
        SkaterActivity::SatInBox(t) => t.start_tick <= now && 1 <= t.penalty_count <= 2,
        SkaterActivity::ReturningFromBox(t) => 0 < t.distance_remaining <= 60_000,
        SkaterActivity::HeldInBox(t) => t.ticks_expired <= now && 1 <= t.penalty_count <= 2,
    }
}

/// A jam skater whose static record and activity are both within bounds.
pub open spec fn jam_skater_wf(s: JamSkater, now: u64) -> bool {
    skater_wf(s.details) && activity_wf(s.activity, now)
}

/// The activity engine's one-tick transition relation for a skater with the
/// given position and base speed at tick `now`: which successor activities a
/// tick may produce, and how their fields derive from the predecessor's.
/// Drawn quantities appear as their ranges; everything else is exact.
pub open spec fn activity_step(
    position: Position,
    speed: i64,
    now: u64,
    pre: SkaterActivity,
    post: SkaterActivity,
) -> bool {
    match pre {
        SkaterActivity::SkatingOnTrack(t) => (match post {
            // Advance: a non-jammer holds position; a jammer in the pack
            // advances by a drawn speed/4 +- 2 units; a jammer outside it
            // advances at full speed, wrapping past the loop's end to zero.
            SkaterActivity::SkatingOnTrack(u) => if position != Position::Jammer {
                u == t
            } else if t.location < 20_000 {
                t.location + speed / 4 - 2_000 <= u.location < t.location + speed / 4 + 2_000
            } else {
                u.location == t.location + speed || (u.location == 0 && t.location + speed
                    > 100_000)
            },
            // Or a penalty: one owed, a drawn travel distance.
            SkaterActivity::SkatingToBox(u) => u.penalties_to_sit == 1 && 1_000
                <= u.distance_remaining < 60_000,
            _ => false,
        }),
        SkaterActivity::SkatingToBox(t) => (match post {
            // Still traveling: only possible while the distance exceeds the
            // least drawable cover; the remainder shrinks by the drawn cover
            // and the owed count escalates at most from one to two.
            SkaterActivity::SkatingToBox(u) => t.distance_remaining > speed - 1_000
                && t.distance_remaining - speed - 1_000 < u.distance_remaining
                    <= t.distance_remaining - speed + 1_000 && (u.penalties_to_sit
                == t.penalties_to_sit || (t.penalties_to_sit == 1 && u.penalties_to_sit == 2)),
            // Arrival: the sit starts within this tick, owing what accrued.
            SkaterActivity::SatInBox(u) => u.penalty_count == t.penalties_to_sit && now - 1_000
                < u.start_tick <= now,
            _ => false,
        }),
        SkaterActivity::SatInBox(t) => if now - t.start_tick >= PENALTY_SIT_DURATION * (
        t.penalty_count as u64) {
            // Served in full: released onto a drawn return distance.
            (match post {
                SkaterActivity::ReturningFromBox(u) => 1_000 <= u.distance_remaining < 60_000,
                _ => false,
            })
        } else {
            post == pre
        },
        SkaterActivity::ReturningFromBox(t) => (match post {
            SkaterActivity::ReturningFromBox(u) => t.distance_remaining > speed - 1_000
                && t.distance_remaining - speed - 1_000 < u.distance_remaining
                    <= t.distance_remaining - speed + 1_000,
            // Re-entry at the track's start, or a cut penalty straight back.
            SkaterActivity::SkatingOnTrack(u) => u.location == 0,
            SkaterActivity::SkatingToBox(u) => u.penalties_to_sit == 1 && 1_000
                <= u.distance_remaining < 60_000,
            _ => false,
        }),
        SkaterActivity::HeldInBox(t) => post == SkaterActivity::SatInBox(
            SatInBox {
                start_tick: (now - t.ticks_expired) as u64,
                penalty_count: t.penalty_count,
            },
        ),
    }
}

/// One skater advanced one tick: same identity, position and tunables, and
/// the activities related by the activity engine's transition relation.
pub open spec fn skater_stepped(a: JamSkater, b: JamSkater, now: u64) -> bool {
    &&& skater_like(b.details, a.details)
    &&& b.position == a.position
    &&& activity_step(a.position, a.details.base_speed, now, a.activity, b.activity)
}

/// A fielded team advanced one tick, skater by skater, in place.
pub open spec fn team_stepped(pre: Seq<JamSkater>, post: Seq<JamSkater>, now: u64) -> bool {
    &&& post.len() == pre.len()
    &&& forall|k: int|
        0 <= k < pre.len() ==> skater_stepped(#[trigger] pre[k], #[trigger] post[k], now)
}

/// A jam advanced one tick: same start and lead bookkeeping, every fielded
/// skater of both teams advanced exactly once.
pub open spec fn jam_stepped(pre: JamInProgress, post: JamInProgress, now: u64) -> bool {
    &&& post.start_tick == pre.start_tick
    &&& post.lead_jammer_team == pre.lead_jammer_team
    &&& team_stepped(pre.home_skaters@, post.home_skaters@, now)
    &&& team_stepped(pre.away_skaters@, post.away_skaters@, now)
}

/// Whether a list of jam skaters contains the identity key `id`.
pub open spec fn skaters_have_id(sk: Seq<JamSkater>, id: u64) -> bool {
    exists|i: int| 0 <= i < sk.len() && (#[trigger] sk[i]).details.id == id
}

/// Identity keys pairwise distinct within one list.
pub open spec fn ids_distinct(sk: Seq<JamSkater>) -> bool {
    forall|i: int, j: int|
        0 <= i < j < sk.len() ==> (#[trigger] sk[i]).details.id != (#[trigger] sk[j]).details.id
}

/// No identity key in common between the two lists.
pub open spec fn ids_disjoint(a: Seq<JamSkater>, b: Seq<JamSkater>) -> bool {
    forall|i: int, j: int|
        0 <= i < a.len() && 0 <= j < b.len() ==> (#[trigger] a[i]).details.id != (
        #[trigger] b[j]).details.id
}

/// Whether a roster contains the identity key `id`.
pub open spec fn roster_has_id(team: GameTeam, id: u64) -> bool {
    exists|i: int| 0 <= i < team.roster.len() && (#[trigger] team.roster[i]).details.id == id
}

/// Whether a bare roster list contains the identity key `id`.
pub open spec fn roster_has_id_seq(roster: Seq<GameSkater>, id: u64) -> bool {
    exists|i: int| 0 <= i < roster.len() && (#[trigger] roster[i]).details.id == id
}

/// An externally supplied roster fit for simulation: at least five skaters,
/// all within the tunable bounds, identities pairwise distinct.
pub open spec fn roster_acceptable_spec(roster: Seq<Skater>) -> bool {
    &&& 5 <= roster.len()
    &&& forall|i: int, j: int|
        0 <= i < j < roster.len() ==> (#[trigger] roster[i]).id != (#[trigger] roster[j]).id
    &&& forall|i: int| 0 <= i < roster.len() ==> skater_wf(#[trigger] roster[i])
}

/// No identity appears in both supplied rosters.
pub open spec fn supplied_rosters_disjoint(a: Seq<Skater>, b: Seq<Skater>) -> bool {
    forall|i: int, j: int|
        0 <= i < a.len() && 0 <= j < b.len() ==> (#[trigger] a[i]).id != (#[trigger] b[j]).id
}

/// A roster fit for simulation: at least five skaters, distinct identity
/// keys, every skater within the tunable bounds.
pub open spec fn game_roster_wf(team: GameTeam) -> bool {
    &&& 5 <= team.roster.len()
    &&& forall|i: int, j: int|
        0 <= i < j < team.roster.len() ==> (#[trigger] team.roster[i]).details.id != (
        #[trigger] team.roster[j]).details.id
    &&& forall|i: int| 0 <= i < team.roster.len() ==> skater_wf((#[trigger] team.roster[i]).details)
}

/// The two rosters share no identity key.
pub open spec fn rosters_disjoint(a: GameTeam, b: GameTeam) -> bool {
    forall|id: u64| #[trigger] roster_has_id(a, id) ==> !roster_has_id(b, id)
}

/// Every penalty-box entry is a member of one of the two rosters.
pub open spec fn box_members_of(b: Seq<JamSkater>, home: GameTeam, away: GameTeam) -> bool {
    forall|i: int|
        0 <= i < b.len() ==> roster_has_id(home, (#[trigger] b[i]).details.id) || roster_has_id(
            away,
            b[i].details.id,
        )
}

/// Every penalty-box entry is within bounds at tick `now`.
pub open spec fn box_entries_wf(b: Seq<JamSkater>, now: u64) -> bool {
    forall|i: int| 0 <= i < b.len() ==> jam_skater_wf(#[trigger] b[i], now)
}

/// Every penalty-box entry's stored activity is a box activity: the shape the
/// box has between jams, after `end_jam` freezes it.
pub open spec fn box_parked(b: Seq<JamSkater>) -> bool {
    forall|i: int| 0 <= i < b.len() ==> is_box_activity((#[trigger] b[i]).activity)
}

/// Penalty-box coherence for one fielded team: each fielded skater is within
/// bounds and their identity is in the box exactly when their activity says
/// so.
pub open spec fn team_coherent(b: Seq<JamSkater>, sk: Seq<JamSkater>, now: u64) -> bool {
    forall|i: int|
        0 <= i < sk.len() ==> jam_skater_wf(#[trigger] sk[i], now) && (skaters_have_id(
            b,
            sk[i].details.id,
        ) <==> is_box_activity(sk[i].activity))
}

/// Every fielded skater of `sk` is a member of roster `team`.
pub open spec fn fielded_from_roster(team: GameTeam, sk: Seq<JamSkater>) -> bool {
    forall|i: int| 0 <= i < sk.len() ==> roster_has_id(team, (#[trigger] sk[i]).details.id)
}

/// Every penalty-box entry's identity is fielded in one of the two lists.
pub open spec fn box_subset_fielded(b: Seq<JamSkater>, home: Seq<JamSkater>, away: Seq<JamSkater>) -> bool {
    forall|i: int|
        0 <= i < b.len() ==> skaters_have_id(home, (#[trigger] b[i]).details.id) || skaters_have_id(
            away,
            b[i].details.id,
        )
}

impl Game {
    /// The pieces of well-formedness that do not depend on the current state:
    /// sound rosters, a coherent penalty box, a well-formed record, and a
    /// period clock within its span.
    pub open spec fn core_wf(self) -> bool {
        &&& game_roster_wf(self.home_team)
        &&& game_roster_wf(self.away_team)
        &&& rosters_disjoint(self.home_team, self.away_team)
        &&& ids_distinct(self.penalty_box@)
        &&& box_members_of(self.penalty_box@, self.home_team, self.away_team)
        &&& box_entries_wf(self.penalty_box@, self.current_tick)
        &&& record_wf(self.game_json, self.current_tick)
        &&& self.period_clock <= PERIOD_DURATION
    }

    /// The extra shape a match has while a jam is under way.
    pub open spec fn jam_wf(self, jam: JamInProgress) -> bool {
        &&& 1 <= jam.start_tick <= self.current_tick
        &&& self.current_tick < jam.start_tick + JAM_DURATION
        &&& ids_distinct(jam.home_skaters@)
        &&& ids_distinct(jam.away_skaters@)
        &&& ids_disjoint(jam.home_skaters@, jam.away_skaters@)
        &&& fielded_from_roster(self.home_team, jam.home_skaters@)
        &&& fielded_from_roster(self.away_team, jam.away_skaters@)
        &&& team_coherent(self.penalty_box@, jam.home_skaters@, self.current_tick)
        &&& team_coherent(self.penalty_box@, jam.away_skaters@, self.current_tick)
        &&& box_subset_fielded(self.penalty_box@, jam.home_skaters@, jam.away_skaters@)
        &&& record_open_jam(self.game_json)
        &&& self.game_json.periods@.last().jams@.last().start_tick == jam.start_tick
        &&& self.game_json.periods@.last().start_tick <= jam.start_tick
    }

    /// The state-dependent part of well-formedness, over an explicit state
    /// value so transition functions can establish it for the state they
    /// return before it is stored.
    pub open spec fn state_wf_for(self, state: GameState) -> bool {
        match state {
            GameState::PreGame(_) => self.penalty_box@.len() == 0 && self.period_clock == 0,
            GameState::JamInProgress(jam) => self.jam_wf(jam),
            GameState::LineupInProgress(lineup) => {
                &&& 1 <= lineup.start_tick <= self.current_tick
                &&& box_parked(self.penalty_box@)
                &&& self.game_json.periods.len() > 0
                &&& self.game_json.periods@.last().jams.len() > 0
                &&& self.game_json.periods@.last().start_tick <= lineup.start_tick
            },
            GameState::TimeoutInProgress(_) => true,
            GameState::IntervalInProgress(_) => true,
            GameState::PostGame(_) => true,
        }
    }

    /// Full well-formedness: what every public entry point requires and every
    /// transition preserves.
    pub open spec fn wf(self) -> bool {
        self.core_wf() && self.state_wf_for(self.state)
    }
}

/// The rank a state holds in the termination measure: play winds down from
/// jams through lineups and the interval to the end of the bout.
pub open spec fn state_rank(s: GameState) -> int {
    match s {
        GameState::PreGame(_) => 0,
        GameState::JamInProgress(_) => 3,
        GameState::LineupInProgress(_) => 2,
        GameState::TimeoutInProgress(_) => 1,
        GameState::IntervalInProgress(_) => 1,
        GameState::PostGame(_) => 0,
    }
}

/// The simulated time a running jam may still consume.
pub open spec fn jam_remaining(g: Game) -> int {
    match g.state {
        GameState::JamInProgress(j) => if g.current_tick <= j.start_tick + JAM_DURATION {
            j.start_tick + JAM_DURATION - g.current_tick
        } else {
            0
        },
        _ => 0,
    }
}

/// A measure that strictly shrinks on every tick of a match that has not yet
/// reached the post-game state: the pre-game flag dominates the period clock,
/// which dominates the state rank, which dominates the running jam's
/// remaining time.
pub open spec fn run_measure(g: Game) -> int {
    (if g.state is PreGame {
        0x1_0000_0000_0000int
    } else {
        0int
    }) + g.period_clock * 0x10_0000 + state_rank(g.state) * 0x4_0000 + jam_remaining(g)
}

/// Which states may follow which across one tick.
pub open spec fn transition_ok(pre: Game, post: Game) -> bool {
    match pre.state {
        GameState::PreGame(_) => post.state is JamInProgress,
        GameState::JamInProgress(j) => (match post.state {
            GameState::JamInProgress(j2) => j2.start_tick == j.start_tick,
            GameState::LineupInProgress(_) => true,
            GameState::IntervalInProgress(_) => true,
            _ => false,
        }),
        GameState::LineupInProgress(l) => (match post.state {
            GameState::LineupInProgress(l2) => l2.start_tick == l.start_tick,
            GameState::JamInProgress(_) => true,
            GameState::IntervalInProgress(_) => true,
            _ => false,
        }),
        GameState::TimeoutInProgress(_) => post.state is PostGame,
        GameState::IntervalInProgress(_) => post.state is PostGame,
        GameState::PostGame(_) => post.state is PostGame,
    }
}

/// Penalty-box membership: in a well-formed match with a jam under way, a
/// fielded skater's identity is in the penalty box exactly when their
/// activity is skating to the box, sitting in it, or held in it. `tick`
/// preserves well-formedness, so this holds immediately before and after
/// every tick.
pub proof fn lemma_penalty_box_membership(g: Game, jam: JamInProgress)
    requires
        g.wf(),
        g.state == GameState::JamInProgress(jam),
    ensures
        forall|k: int|
            0 <= k < jam.home_skaters@.len() ==> (skaters_have_id(
                g.penalty_box@,
                (#[trigger] jam.home_skaters@[k]).details.id,
            ) <==> is_box_activity(jam.home_skaters@[k].activity)),
        forall|k: int|
            0 <= k < jam.away_skaters@.len() ==> (skaters_have_id(
                g.penalty_box@,
                (#[trigger] jam.away_skaters@[k]).details.id,
            ) <==> is_box_activity(jam.away_skaters@[k].activity)),
{
}

/// Jam duration bound: in a well-formed match, every closed jam record spans
/// at most 120,000 ms.
pub proof fn lemma_jam_duration_bound(g: Game, p: int, k: int)
    requires
        g.wf(),
        0 <= p < g.game_json.periods@.len(),
        0 <= k < g.game_json.periods@[p].jams@.len(),
        g.game_json.periods@[p].jams@[k].end_tick != 0,
    ensures
        g.game_json.periods@[p].jams@[k].start_tick <= g.game_json.periods@[p].jams@[k].end_tick,
        g.game_json.periods@[p].jams@[k].end_tick - g.game_json.periods@[p].jams@[k].start_tick
            <= JAM_DURATION,
{
    assert(period_record_wf(g.game_json.periods@[p], g.current_tick));
    assert(jam_record_wf(g.game_json.periods@[p].jams@[k], g.current_tick));
}

/// Trip monotonicity: in a well-formed match, trip start ticks within any
/// team-jam are non-decreasing in record order, and every trip scores at most
/// four points.
pub proof fn lemma_trip_monotonicity(g: Game, p: int, k: int, is_home_team: bool, a: int, b: int)
    requires
        g.wf(),
        0 <= p < g.game_json.periods@.len(),
        0 <= k < g.game_json.periods@[p].jams@.len(),
        ({
            let tj = if is_home_team {
                g.game_json.periods@[p].jams@[k].home_team_jam
            } else {
                g.game_json.periods@[p].jams@[k].away_team_jam
            };
            0 <= a <= b < tj.trips@.len()
        }),
    ensures
        ({
            let tj = if is_home_team {
                g.game_json.periods@[p].jams@[k].home_team_jam
            } else {
                g.game_json.periods@[p].jams@[k].away_team_jam
            };
            tj.trips@[a].start_tick <= tj.trips@[b].start_tick && tj.trips@[b].score <= 4
        }),
{
    assert(period_record_wf(g.game_json.periods@[p], g.current_tick));
    assert(jam_record_wf(g.game_json.periods@[p].jams@[k], g.current_tick));
}

/// What one tick of the match guarantees, state to state: well-formedness,
/// one simulated second, a legal transition, and untouched rosters and crew.
pub open spec fn tick_rel(a: Game, b: Game) -> bool {
    &&& b.wf()
    &&& b.current_tick == a.current_tick + 1000
    &&& transition_ok(a, b)
    &&& b.home_team == a.home_team
    &&& b.away_team == a.away_team
    &&& b.officials == a.officials
}

/// A sequence of match states in which every adjacent pair is one tick.
pub open spec fn tick_trace(tr: Seq<Game>) -> bool {
    forall|i: int| 0 <= i < tr.len() - 1 ==> tick_rel(#[trigger] tr[i], tr[i + 1])
}

/// What the fielding selector guarantees of a freshly started jam, relative
/// to the match as it stood before the starting tick. For each team: when at
/// most one boxed team member holds a position, at most one fielded skater
/// holds it; a held-over jammer stays the only jammer; with no held-over
/// jammer the team fields exactly one unless its whole roster is already in
/// the box; and a team with no one held over fields exactly five skaters with
/// exactly one jammer and one pivot.
pub open spec fn fielding_ok(pre: Game, j: JamInProgress) -> bool {
    &&& (count_team_pos(pre.penalty_box@, pre.home_team, Position::Jammer) <= 1 ==> count_pos(
        j.home_skaters@,
        Position::Jammer,
    ) <= 1)
    &&& (count_team_pos(pre.penalty_box@, pre.home_team, Position::Jammer) == 1 ==> count_pos(
        j.home_skaters@,
        Position::Jammer,
    ) == 1)
    &&& (count_team_pos(pre.penalty_box@, pre.home_team, Position::Jammer) == 0 ==> (count_pos(
        j.home_skaters@,
        Position::Jammer,
    ) == 1 || roster_all_fielded(pre.home_team, j.home_skaters@)))
    &&& (count_team_pos(pre.penalty_box@, pre.home_team, Position::Pivot) <= 1 ==> count_pos(
        j.home_skaters@,
        Position::Pivot,
    ) <= 1)
    &&& (team_box_empty(pre.penalty_box@, pre.home_team) ==> (j.home_skaters@.len() == 5
        && count_pos(j.home_skaters@, Position::Jammer) == 1 && count_pos(
        j.home_skaters@,
        Position::Pivot,
    ) == 1))
    &&& ((count_team(pre.penalty_box@, pre.home_team) <= 3 && count_team_pos(
        pre.penalty_box@,
        pre.home_team,
        Position::Jammer,
    ) <= 1 && count_team_pos(pre.penalty_box@, pre.home_team, Position::Pivot) <= 1) ==> (
    j.home_skaters@.len() == 5 && count_pos(j.home_skaters@, Position::Jammer) == 1 && count_pos(
        j.home_skaters@,
        Position::Pivot,
    ) <= 1))
    &&& (count_team_pos(pre.penalty_box@, pre.away_team, Position::Jammer) <= 1 ==> count_pos(
        j.away_skaters@,
        Position::Jammer,
    ) <= 1)
    &&& (count_team_pos(pre.penalty_box@, pre.away_team, Position::Jammer) == 1 ==> count_pos(
        j.away_skaters@,
        Position::Jammer,
    ) == 1)
    &&& (count_team_pos(pre.penalty_box@, pre.away_team, Position::Jammer) == 0 ==> (count_pos(
        j.away_skaters@,
        Position::Jammer,
    ) == 1 || roster_all_fielded(pre.away_team, j.away_skaters@)))
    &&& (count_team_pos(pre.penalty_box@, pre.away_team, Position::Pivot) <= 1 ==> count_pos(
        j.away_skaters@,
        Position::Pivot,
    ) <= 1)
    &&& (team_box_empty(pre.penalty_box@, pre.away_team) ==> (j.away_skaters@.len() == 5
        && count_pos(j.away_skaters@, Position::Jammer) == 1 && count_pos(
        j.away_skaters@,
        Position::Pivot,
    ) == 1))
    &&& ((count_team(pre.penalty_box@, pre.away_team) <= 3 && count_team_pos(
        pre.penalty_box@,
        pre.away_team,
        Position::Jammer,
    ) <= 1 && count_team_pos(pre.penalty_box@, pre.away_team, Position::Pivot) <= 1) ==> (
    j.away_skaters@.len() == 5 && count_pos(j.away_skaters@, Position::Jammer) == 1 && count_pos(
        j.away_skaters@,
        Position::Pivot,
    ) <= 1))
}

/// What starting a jam does to the record and the flags, relative to the
/// match as it stood before the starting tick: when the period clock stood at
/// zero a fresh period opens at the jam's start with duration zero, else the
/// jam joins the current period; exactly one jam is appended, open, at the
/// jam's start tick; each team-jam is born with no lead, no call-off, and one
/// zero-score, zero-duration trip at the jam's start; and the jam-wide lead
/// reopens while the call-off flag clears.
pub open spec fn jam_freshly_opened(pre: Game, post: Game, j: JamInProgress) -> bool {
    &&& post.game_json.periods@.len() == (if pre.period_clock == 0 {
        pre.game_json.periods@.len() + 1
    } else {
        pre.game_json.periods@.len()
    })
    &&& post.game_json.periods@.last().jams@.len() == (if pre.period_clock == 0 {
        1int
    } else {
        pre.game_json.periods@.last().jams@.len() as int + 1
    })
    &&& (pre.period_clock == 0 ==> post.game_json.periods@.last().start_tick == j.start_tick
        && post.game_json.periods@.last().duration == 0)
    &&& post.game_json.periods@.last().jams@.last().start_tick == j.start_tick
    &&& post.game_json.periods@.last().jams@.last().end_tick == 0
    &&& team_jam_of(post.game_json, true).trips@ == seq![
        TripJson { after_star_pass: false, start_tick: j.start_tick, duration: 0, score: 0 },
    ]
    &&& team_jam_of(post.game_json, false).trips@ == seq![
        TripJson { after_star_pass: false, start_tick: j.start_tick, duration: 0, score: 0 },
    ]
    &&& !team_jam_of(post.game_json, true).is_lead
    &&& !team_jam_of(post.game_json, false).is_lead
    &&& !team_jam_of(post.game_json, true).called_off
    &&& !team_jam_of(post.game_json, false).called_off
    &&& post.lead_is_open
    &&& !post.jam_called
}

/// Everything but the random source unchanged between two match values.
pub open spec fn only_rng_differs(a: Game, b: Game) -> bool {
    &&& b.home_team == a.home_team
    &&& b.away_team == a.away_team
    &&& b.officials == a.officials
    &&& b.game_json == a.game_json
    &&& b.state == a.state
    &&& b.current_tick == a.current_tick
    &&& b.period_clock == a.period_clock
    &&& b.penalty_box == a.penalty_box
    &&& b.lead_is_open == a.lead_is_open
    &&& b.jam_called == a.jam_called
}

/// The fields no skater tick ever touches: state, clocks, rosters, crew.
pub open spec fn skater_tick_shell(a: Game, b: Game) -> bool {
    &&& b.home_team == a.home_team
    &&& b.away_team == a.away_team
    &&& b.officials == a.officials
    &&& b.state == a.state
    &&& b.current_tick == a.current_tick
    &&& b.period_clock == a.period_clock
}

/// How the penalty box may evolve when the skater with identity `id` is
/// ticked: membership changes at most at `id`, entries stay distinct and
/// within bounds, no entry appears from outside the rosters, and every entry
/// bears `id` or an identity that was already in the box.
pub open spec fn box_delta_ok(pre: Game, post: Game, id: u64) -> bool {
    &&& ids_distinct(post.penalty_box@)
    &&& (forall|x: u64|
        x != id ==> (#[trigger] skaters_have_id(post.penalty_box@, x) <==> skaters_have_id(
            pre.penalty_box@,
            x,
        )))
    &&& (box_entries_wf(pre.penalty_box@, pre.current_tick) ==> box_entries_wf(
        post.penalty_box@,
        post.current_tick,
    ))
    &&& (forall|i: int|
        0 <= i < post.penalty_box@.len() ==> (#[trigger] post.penalty_box@[i]).details.id == id
            || skaters_have_id(pre.penalty_box@, post.penalty_box@[i].details.id))
    &&& ((box_members_of(pre.penalty_box@, pre.home_team, pre.away_team) && (roster_has_id(
        pre.home_team,
        id,
    ) || roster_has_id(pre.away_team, id))) ==> box_members_of(
        post.penalty_box@,
        pre.home_team,
        pre.away_team,
    ))
}

/// The match fields no per-skater transition touches besides the random
/// stream and the penalty box: everything but the record and the jam flags.
pub open spec fn per_skater_frame(pre: Game, post: Game) -> bool {
    &&& skater_tick_shell(pre, post)
    &&& post.game_json == pre.game_json
    &&& post.lead_is_open == pre.lead_is_open
    &&& post.jam_called == pre.jam_called
}

/// How the record may evolve across one skater tick: only the current jam's
/// two team-jams change, and both shape and well-formedness are kept.
pub open spec fn record_tick_ok(a: GameJson, b: GameJson, now: u64) -> bool {
    &&& record_frame(a, b)
    &&& (record_wf(a, now) ==> record_wf(b, now))
    &&& (record_open_jam(a) ==> record_open_jam(b))
}

/// Whether some fielded skater holds the given position.
pub open spec fn has_position(sk: Seq<JamSkater>, p: Position) -> bool {
    exists|i: int| 0 <= i < sk.len() && (#[trigger] sk[i]).position == p
}

/// How many fielded skaters hold the given position.
pub open spec fn count_pos(sk: Seq<JamSkater>, p: Position) -> int
    decreases sk.len(),
{
    if sk.len() == 0 {
        0
    } else {
        count_pos(sk.drop_last(), p) + if sk.last().position == p {
            1int
        } else {
            0int
        }
    }
}

/// Counting distributes over appending one skater.
pub proof fn lemma_count_pos_push(sk: Seq<JamSkater>, x: JamSkater, p: Position)
    ensures
        count_pos(sk.push(x), p) == count_pos(sk, p) + (if x.position == p {
            1int
        } else {
            0int
        }),
{
    assert(sk.push(x).drop_last() =~= sk);
    assert(sk.push(x).last() == x);
}

/// No member of this team is in the penalty box.
pub open spec fn team_box_empty(b: Seq<JamSkater>, team: GameTeam) -> bool {
    forall|i: int| 0 <= i < b.len() ==> !roster_has_id(team, (#[trigger] b[i]).details.id)
}

/// Every roster member of the team is fielded in `sk`.
pub open spec fn roster_all_fielded(team: GameTeam, sk: Seq<JamSkater>) -> bool {
    forall|r: int|
        0 <= r < team.roster.len() ==> skaters_have_id(sk, (#[trigger] team.roster[r]).details.id)
}

/// How many penalty-box entries belong to this team's roster and hold the
/// given position.
pub open spec fn count_team_pos(b: Seq<JamSkater>, team: GameTeam, p: Position) -> int
    decreases b.len(),
{
    if b.len() == 0 {
        0
    } else {
        count_team_pos(b.drop_last(), team, p) + if roster_has_id(team, b.last().details.id)
            && b.last().position == p {
            1int
        } else {
            0int
        }
    }
}

/// Team-position counting distributes over extending a prefix by one entry.
pub proof fn lemma_count_team_pos_prefix(b: Seq<JamSkater>, team: GameTeam, p: Position, n: int)
    requires
        0 <= n < b.len(),
    ensures
        count_team_pos(b.subrange(0, n + 1), team, p) == count_team_pos(
            b.subrange(0, n),
            team,
            p,
        ) + (if roster_has_id(team, b[n].details.id) && b[n].position == p {
            1int
        } else {
            0int
        }),
{
    assert(b.subrange(0, n + 1).drop_last() =~= b.subrange(0, n));
    assert(b.subrange(0, n + 1).last() == b[n]);
}

/// How many penalty-box entries belong to this team's roster.
pub open spec fn count_team(b: Seq<JamSkater>, team: GameTeam) -> int
    decreases b.len(),
{
    if b.len() == 0 {
        0
    } else {
        count_team(b.drop_last(), team) + if roster_has_id(team, b.last().details.id) {
            1int
        } else {
            0int
        }
    }
}

/// Team counting distributes over extending a prefix by one entry.
pub proof fn lemma_count_team_prefix(b: Seq<JamSkater>, team: GameTeam, n: int)
    requires
        0 <= n < b.len(),
    ensures
        count_team(b.subrange(0, n + 1), team) == count_team(b.subrange(0, n), team) + (
        if roster_has_id(team, b[n].details.id) {
            1int
        } else {
            0int
        }),
{
    assert(b.subrange(0, n + 1).drop_last() =~= b.subrange(0, n));
    assert(b.subrange(0, n + 1).last() == b[n]);
}

/// Team counts are never negative.
pub proof fn lemma_count_team_nonneg(b: Seq<JamSkater>, team: GameTeam)
    ensures
        count_team(b, team) >= 0,
    decreases b.len(),
{
    if b.len() > 0 {
        lemma_count_team_nonneg(b.drop_last(), team);
    }
}

/// Team position counts are never negative.
pub proof fn lemma_count_team_pos_nonneg(b: Seq<JamSkater>, team: GameTeam, p: Position)
    ensures
        count_team_pos(b, team, p) >= 0,
    decreases b.len(),
{
    if b.len() > 0 {
        lemma_count_team_pos_nonneg(b.drop_last(), team, p);
    }
}

/// A position count is never negative.
pub proof fn lemma_count_pos_nonneg(sk: Seq<JamSkater>, p: Position)
    ensures
        count_pos(sk, p) >= 0,
    decreases sk.len(),
{
    if sk.len() > 0 {
        lemma_count_pos_nonneg(sk.drop_last(), p);
    }
}

/// A position is held by someone exactly when its count is at least one.
pub proof fn lemma_count_pos_has(sk: Seq<JamSkater>, p: Position)
    ensures
        (count_pos(sk, p) >= 1) <==> has_position(sk, p),
    decreases sk.len(),
{
    lemma_count_pos_nonneg(sk, p);
    if sk.len() > 0 {
        lemma_count_pos_has(sk.drop_last(), p);
        lemma_count_pos_nonneg(sk.drop_last(), p);
        if has_position(sk.drop_last(), p) {
            let k = choose|k: int|
                0 <= k < sk.drop_last().len() && (#[trigger] sk.drop_last()[k]).position == p;
            assert(sk[k].position == p);
        }
        if sk.last().position == p {
            assert(sk[sk.len() - 1].position == p);
        }
        if has_position(sk, p) && sk.last().position != p {
            let k = choose|k: int| 0 <= k < sk.len() && (#[trigger] sk[k]).position == p;
            assert(sk.drop_last()[k].position == p);
        }
    }
}

/// Whether a pool of roster indexes contains the value `v`.
pub open spec fn pool_has(s: Seq<usize>, v: usize) -> bool {
    exists|i: int| 0 <= i < s.len() && s[i] == v
}

/// Pool entries pairwise distinct.
pub open spec fn pool_distinct(s: Seq<usize>) -> bool {
    forall|i: int, j: int| 0 <= i < j < s.len() ==> #[trigger] s[i] != #[trigger] s[j]
}





/// The fielding selector's running shape: the fielded list is distinct,
/// roster-drawn, within bounds and box-coherent; every boxed team member is
/// fielded; and the pool holds valid roster indexes of unfielded skaters.
pub open spec fn sel_inv(
    team: GameTeam,
    bx: Seq<JamSkater>,
    ot: Seq<JamSkater>,
    av: Seq<usize>,
    now: u64,
) -> bool {
    &&& ids_distinct(ot)
    &&& fielded_from_roster(team, ot)
    &&& (forall|k: int| 0 <= k < ot.len() ==> jam_skater_wf(#[trigger] ot[k], now))
    &&& (forall|k: int|
        0 <= k < ot.len() ==> (skaters_have_id(bx, (#[trigger] ot[k]).details.id)
            <==> is_box_activity(ot[k].activity)))
    &&& pool_distinct(av)
    &&& (forall|k: int| 0 <= k < av.len() ==> #[trigger] av[k] < team.roster.len())
    &&& (forall|k: int|
        0 <= k < av.len() ==> !skaters_have_id(
            ot,
            team.roster@[#[trigger] av[k] as int].details.id,
        ))
}

/// Fielding one unfielded roster skater drawn from the pool keeps the
/// selector's shape.
#[verifier::spinoff_prover]
pub proof fn lemma_sel_push(
    team: GameTeam,
    bx: Seq<JamSkater>,
    ot: Seq<JamSkater>,
    av: Seq<usize>,
    av2: Seq<usize>,
    s: JamSkater,
    ri: usize,
    now: u64,
)
    requires
        sel_inv(team, bx, ot, av, now),
        game_roster_wf(team),
        ri < team.roster.len(),
        s.details.id == team.roster@[ri as int].details.id,
        skater_wf(s.details),
        activity_wf(s.activity, now),
        !is_box_activity(s.activity),
        pool_has(av, ri),
        forall|j: int|
            0 <= j < bx.len() ==> (roster_has_id(team, (#[trigger] bx[j]).details.id)
                ==> skaters_have_id(ot, bx[j].details.id)),
        av2.len() == av.len() - 1,
        pool_distinct(av2),
        forall|k: int| 0 <= k < av2.len() ==> pool_has(av, #[trigger] av2[k]),
        forall|k: int| 0 <= k < av2.len() ==> #[trigger] av2[k] != ri,
    ensures
        sel_inv(team, bx, ot.push(s), av2, now),
        !skaters_have_id(bx, s.details.id),
        forall|j: int|
            0 <= j < bx.len() ==> (roster_has_id(team, (#[trigger] bx[j]).details.id)
                ==> skaters_have_id(ot.push(s), bx[j].details.id)),
        forall|x: u64| #[trigger] skaters_have_id(ot, x) ==> skaters_have_id(ot.push(s), x),
{
    let post = ot.push(s);
    let ki = choose|k: int| 0 <= k < av.len() && av[k] == ri;
    assert(!skaters_have_id(ot, s.details.id));
    assert(!skaters_have_id(bx, s.details.id)) by {
        if skaters_have_id(bx, s.details.id) {
            assert(roster_has_id(team, s.details.id));
        }
    }
    assert forall|x: u64| skaters_have_id(ot, x) implies skaters_have_id(post, x) by {
        let k = choose|k: int| 0 <= k < ot.len() && (#[trigger] ot[k]).details.id == x;
        assert(post[k].details.id == x);
    }
    assert(post[post.len() - 1] == s);
    assert(skaters_have_id(post, s.details.id));
    assert(ids_distinct(post)) by {
        assert forall|i: int, j: int|
            0 <= i < j < post.len() implies (#[trigger] post[i]).details.id != (
        #[trigger] post[j]).details.id by {
            if j < ot.len() {
                assert(ot[i].details.id != ot[j].details.id);
            } else {
                assert(post[j] == s);
                assert(post[i] == ot[i]);
                if ot[i].details.id == s.details.id {
                    assert(skaters_have_id(ot, s.details.id));
                }
            }
        }
    }
    assert(fielded_from_roster(team, post)) by {
        assert forall|k: int| 0 <= k < post.len() implies roster_has_id(
            team,
            (#[trigger] post[k]).details.id,
        ) by {
            if k < ot.len() {
                assert(roster_has_id(team, ot[k].details.id));
            } else {
                assert(team.roster@[ri as int].details.id == s.details.id);
            }
        }
    }
    assert forall|k: int|
        0 <= k < av2.len() implies !skaters_have_id(
        post,
        team.roster@[#[trigger] av2[k] as int].details.id,
    ) by {
        let x = av2[k];
        let km = choose|m: int| 0 <= m < av.len() && av[m] == x;
        assert(!skaters_have_id(ot, team.roster@[x as int].details.id));
        if skaters_have_id(post, team.roster@[x as int].details.id) {
            let w = choose|w: int|
                0 <= w < post.len() && (#[trigger] post[w]).details.id == team.roster@[x as int].details.id;
            if w < ot.len() {
                assert(skaters_have_id(ot, team.roster@[x as int].details.id));
            } else {
                assert(team.roster@[x as int].details.id == team.roster@[ri as int].details.id);
                assert(x != ri);
            }
        }
    }
}


/// Two fielded lists with pointwise equal identities agree on membership and
/// on distinctness.
pub proof fn lemma_same_ids_membership(a: Seq<JamSkater>, b: Seq<JamSkater>)
    requires
        a.len() == b.len(),
        forall|k: int| 0 <= k < a.len() ==> (#[trigger] a[k]).details.id == (
        #[trigger] b[k]).details.id,
    ensures
        forall|x: u64| #[trigger] skaters_have_id(a, x) <==> #[trigger] skaters_have_id(b, x),
        ids_distinct(a) ==> ids_distinct(b),
{
    assert forall|x: u64| #[trigger] skaters_have_id(a, x) <==> #[trigger] skaters_have_id(
        b,
        x,
    ) by {
        if skaters_have_id(a, x) {
            let k = choose|k: int| 0 <= k < a.len() && (#[trigger] a[k]).details.id == x;
            assert(b[k].details.id == x);
        }
        if skaters_have_id(b, x) {
            let k = choose|k: int| 0 <= k < b.len() && (#[trigger] b[k]).details.id == x;
            assert(a[k].details.id == x);
        }
    }
    if ids_distinct(a) {
        assert forall|i: int, j: int|
            0 <= i < j < b.len() implies (#[trigger] b[i]).details.id != (
        #[trigger] b[j]).details.id by {
            assert(a[i].details.id != a[j].details.id);
        }
    }
}

/// How `end_jam` finalizes one team-jam: the still-open last trip takes the
/// duration from its start to the jam end (zero if the end is stamped before
/// the start) and a score of at most four, kept at zero when it is the jam's
/// only trip; earlier trips, the fielding and the lead flag are untouched;
/// and a called jam is recorded as called off by the lead team.
pub open spec fn trips_closed(
    pre: TeamJamJson,
    post: TeamJamJson,
    jam_end_tick: u64,
    was_called: bool,
) -> bool {
    &&& post.trips.len() == pre.trips.len()
    &&& post.trips@.last().start_tick == pre.trips@.last().start_tick
    &&& post.trips@.last().duration == (if pre.trips@.last().start_tick < jam_end_tick {
        (jam_end_tick - pre.trips@.last().start_tick) as u64
    } else {
        0u64
    })
    &&& post.trips@.last().score <= 4
    &&& (pre.trips.len() == 1 ==> post.trips@.last().score == 0)
    &&& (forall|i: int| 0 <= i < pre.trips.len() - 1 ==> #[trigger] post.trips@[i] == pre.trips@[i])
    &&& post.fielding == pre.fielding
    &&& post.is_lead == pre.is_lead
    &&& post.called_off == (pre.called_off || (was_called && pre.is_lead))
}

/// How `end_jam` freezes one penalty-box entry, given the matching fielded
/// skater's activity: a traveler is held with no time served, a sitter is
/// held with the time already served, and anything else is copied as it is.
pub open spec fn held_freeze(track: SkaterActivity, frozen: SkaterActivity, end_tick: u64) -> bool {
    match track {
        SkaterActivity::SkatingToBox(t) => frozen == SkaterActivity::HeldInBox(
            HeldInBox { ticks_expired: 0, penalty_count: t.penalties_to_sit },
        ),
        SkaterActivity::SatInBox(t) => frozen == SkaterActivity::HeldInBox(
            HeldInBox {
                ticks_expired: (if t.start_tick <= end_tick {
                    (end_tick - t.start_tick) as u64
                } else {
                    0u64
                }),
                penalty_count: t.penalty_count,
            },
        ),
        _ => frozen == track,
    }
}

/// A frozen box entry derives from the fielded skater bearing its identity.
pub open spec fn frozen_from(
    home: Seq<JamSkater>,
    away: Seq<JamSkater>,
    id: u64,
    frozen: SkaterActivity,
    end_tick: u64,
) -> bool {
    (exists|i: int|
        0 <= i < home.len() && (#[trigger] home[i]).details.id == id && held_freeze(
            home[i].activity,
            frozen,
            end_tick,
        )) || (exists|i: int|
        0 <= i < away.len() && (#[trigger] away[i]).details.id == id && held_freeze(
            away[i].activity,
            frozen,
            end_tick,
        ))
}

/// A wrapped roster passes the acceptability check exactly when the supplied
/// roster it mirrors is acceptable.
pub proof fn lemma_wrapped_acceptable(wrapped: Seq<GameSkater>, supplied: Seq<Skater>)
    requires
        wrapped.len() == supplied.len(),
        forall|k: int|
            0 <= k < supplied.len() ==> skater_like((#[trigger] wrapped[k]).details, supplied[k]),
    ensures
        (5 <= wrapped.len() && (forall|i: int, j: int|
            0 <= i < j < wrapped.len() ==> (#[trigger] wrapped[i]).details.id != (
            #[trigger] wrapped[j]).details.id) && (forall|i: int|
            0 <= i < wrapped.len() ==> skater_wf((#[trigger] wrapped[i]).details)))
            <==> roster_acceptable_spec(supplied),
{
    if 5 <= wrapped.len() && (forall|i: int, j: int|
        0 <= i < j < wrapped.len() ==> (#[trigger] wrapped[i]).details.id != (
        #[trigger] wrapped[j]).details.id) && (forall|i: int|
        0 <= i < wrapped.len() ==> skater_wf((#[trigger] wrapped[i]).details)) {
        assert forall|i: int, j: int|
            0 <= i < j < supplied.len() implies (#[trigger] supplied[i]).id != (
        #[trigger] supplied[j]).id by {
            assert(wrapped[i].details.id != wrapped[j].details.id);
        }
        assert forall|i: int| 0 <= i < supplied.len() implies skater_wf(
            #[trigger] supplied[i],
        ) by {
            assert(skater_wf(wrapped[i].details));
        }
    }
    if roster_acceptable_spec(supplied) {
        assert forall|i: int, j: int|
            0 <= i < j < wrapped.len() implies (#[trigger] wrapped[i]).details.id != (
        #[trigger] wrapped[j]).details.id by {
            assert(supplied[i].id != supplied[j].id);
        }
        assert forall|i: int| 0 <= i < wrapped.len() implies skater_wf(
            (#[trigger] wrapped[i]).details,
        ) by {
            assert(skater_wf(supplied[i]));
        }
    }
}

/// Two wrapped rosters overlap exactly when the supplied rosters they mirror
/// share an identity.
pub proof fn lemma_wrapped_overlap(
    wa: Seq<GameSkater>,
    wb: Seq<GameSkater>,
    sa: Seq<Skater>,
    sb: Seq<Skater>,
)
    requires
        wa.len() == sa.len(),
        wb.len() == sb.len(),
        forall|k: int| 0 <= k < sa.len() ==> skater_like((#[trigger] wa[k]).details, sa[k]),
        forall|k: int| 0 <= k < sb.len() ==> skater_like((#[trigger] wb[k]).details, sb[k]),
    ensures
        (exists|i: int|
            0 <= i < wa.len() && roster_has_id_seq(wb, (#[trigger] wa[i]).details.id))
            <==> !supplied_rosters_disjoint(sa, sb),
{
    if exists|i: int| 0 <= i < wa.len() && roster_has_id_seq(wb, (#[trigger] wa[i]).details.id) {
        let i = choose|i: int|
            0 <= i < wa.len() && roster_has_id_seq(wb, (#[trigger] wa[i]).details.id);
        let j = choose|j: int| 0 <= j < wb.len() && (#[trigger] wb[j]).details.id
            == wa[i].details.id;
        assert(sa[i].id == sb[j].id);
        assert(!supplied_rosters_disjoint(sa, sb));
    }
    if !supplied_rosters_disjoint(sa, sb) {
        let (i, j) = choose|i: int, j: int|
            0 <= i < sa.len() && 0 <= j < sb.len() && (#[trigger] sa[i]).id == (
            #[trigger] sb[j]).id;
        assert(wa[i].details.id == wb[j].details.id);
        assert(roster_has_id_seq(wb, wa[i].details.id));
    }
}

/// An untouched penalty box satisfies the tick delta for any identity.
pub proof fn lemma_box_delta_refl(pre: Game, post: Game, id: u64)
    requires
        post.penalty_box == pre.penalty_box,
        ids_distinct(pre.penalty_box@),
        post.current_tick == pre.current_tick,
        post.home_team == pre.home_team,
        post.away_team == pre.away_team,
    ensures
        box_delta_ok(pre, post, id),
{
    assert forall|i: int|
        0 <= i < post.penalty_box@.len() implies ((#[trigger] post.penalty_box@[i]).details.id
        == id || skaters_have_id(pre.penalty_box@, post.penalty_box@[i].details.id)) by {
        assert(skaters_have_id(pre.penalty_box@, pre.penalty_box@[i].details.id));
    }
}

/// Two successive tick deltas at the same identity compose, as long as the
/// middle match kept the clock and the rosters.
pub proof fn lemma_box_delta_trans(g0: Game, g1: Game, g2: Game, id: u64)
    requires
        box_delta_ok(g0, g1, id),
        box_delta_ok(g1, g2, id),
        g1.current_tick == g0.current_tick,
        g1.home_team == g0.home_team,
        g1.away_team == g0.away_team,
    ensures
        box_delta_ok(g0, g2, id),
{
    assert forall|i: int|
        0 <= i < g2.penalty_box@.len() implies ((#[trigger] g2.penalty_box@[i]).details.id == id
        || skaters_have_id(g0.penalty_box@, g2.penalty_box@[i].details.id)) by {
        let x = g2.penalty_box@[i].details.id;
        if x != id {
            assert(skaters_have_id(g1.penalty_box@, x));
            assert(skaters_have_id(g0.penalty_box@, x));
        }
    }
}

impl Game {
    /// Records that one side's jammer earned or lost lead standing.
    fn record_set_lead(&mut self, is_home_team: bool, value: bool)
        requires
            record_open_jam(old(self).game_json),
        ensures
            skater_tick_shell(*old(self), *final(self)),
            final(self).penalty_box == old(self).penalty_box,
            final(self).lead_is_open == old(self).lead_is_open,
            final(self).jam_called == old(self).jam_called,
            record_tick_ok(old(self).game_json, final(self).game_json, old(self).current_tick),
            team_jam_of(final(self).game_json, is_home_team) == (TeamJamJson {
                is_lead: value,
                ..team_jam_of(old(self).game_json, is_home_team)
            }),
            team_jam_of(final(self).game_json, !is_home_team) == team_jam_of(
                old(self).game_json,
                !is_home_team,
            ),
    {
        let ghost a = self.game_json;
        let ghost now = self.current_tick;
        self.game_json.set_current_lead(is_home_team, value);
        proof {
            let b = self.game_json;
            assert(team_jam_of(b, is_home_team).trips == team_jam_of(a, is_home_team).trips);
            assert(team_jam_of(b, !is_home_team) == team_jam_of(a, !is_home_team));
            if record_wf(a, now) {
                assert(period_record_wf(a.periods@[a.periods.len() - 1], now));
                assert(jam_record_wf(
                    a.periods@.last().jams@[a.periods@.last().jams.len() - 1],
                    now,
                ));
                assert(trips_wf(team_jam_of(b, true).trips@, now));
                assert(trips_wf(team_jam_of(b, false).trips@, now));
                lemma_record_frame_preserves_wf(a, b, now);
            }
            assert(record_open_jam(b));
        }
    }

    /// Records a completed scoring pass on one side's current trip.
    fn record_score_trip(&mut self, is_home_team: bool, pass_completion_tick: u64)
        requires
            record_open_jam(old(self).game_json),
        ensures
            skater_tick_shell(*old(self), *final(self)),
            final(self).penalty_box == old(self).penalty_box,
            final(self).lead_is_open == old(self).lead_is_open,
            final(self).jam_called == old(self).jam_called,
            record_tick_ok(old(self).game_json, final(self).game_json, old(self).current_tick),
            team_jam_of(final(self).game_json, !is_home_team) == team_jam_of(
                old(self).game_json,
                !is_home_team,
            ),
            ({
                let pre = team_jam_of(old(self).game_json, is_home_team);
                let post = team_jam_of(final(self).game_json, is_home_team);
                &&& post.fielding == pre.fielding
                &&& post.called_off == pre.called_off
                &&& post.is_lead == pre.is_lead
                &&& post.trips.len() == pre.trips.len()
                &&& (forall|i: int|
                    0 <= i < pre.trips.len() - 1 ==> #[trigger] post.trips@[i] == pre.trips@[i])
                &&& post.trips@.last().start_tick == pre.trips@.last().start_tick
                &&& post.trips@.last().score == 4
            }),
    {
        let ghost a = self.game_json;
        let ghost now = self.current_tick;
        self.game_json.score_current_trip(is_home_team, pass_completion_tick);
        proof {
            let b = self.game_json;
            if record_wf(a, now) {
                assert(period_record_wf(a.periods@[a.periods.len() - 1], now));
                assert(jam_record_wf(
                    a.periods@.last().jams@[a.periods@.last().jams.len() - 1],
                    now,
                ));
                lemma_trips_score_wf(
                    team_jam_of(a, is_home_team).trips@,
                    team_jam_of(b, is_home_team).trips@,
                    now,
                );
                assert(trips_wf(team_jam_of(b, true).trips@, now));
                assert(trips_wf(team_jam_of(b, false).trips@, now));
                lemma_record_frame_preserves_wf(a, b, now);
            }
            assert(record_open_jam(b));
        }
    }

    /// Records a new scoring trip opening on one side.
    fn record_open_trip(&mut self, is_home_team: bool, pass_start_tick: u64)
        requires
            record_open_jam(old(self).game_json),
            pass_start_tick <= old(self).current_tick,
        ensures
            skater_tick_shell(*old(self), *final(self)),
            final(self).penalty_box == old(self).penalty_box,
            final(self).lead_is_open == old(self).lead_is_open,
            final(self).jam_called == old(self).jam_called,
            record_tick_ok(old(self).game_json, final(self).game_json, old(self).current_tick),
            team_jam_of(final(self).game_json, !is_home_team) == team_jam_of(
                old(self).game_json,
                !is_home_team,
            ),
            ({
                let pre = team_jam_of(old(self).game_json, is_home_team);
                let post = team_jam_of(final(self).game_json, is_home_team);
                &&& post.fielding == pre.fielding
                &&& post.called_off == pre.called_off
                &&& post.is_lead == pre.is_lead
                &&& post.trips.len() == pre.trips.len() + 1
                &&& (forall|i: int|
                    0 <= i < pre.trips.len() ==> #[trigger] post.trips@[i] == pre.trips@[i])
                &&& post.trips@.last().score == 0
                &&& post.trips@.last().duration == 0
            }),
    {
        let ghost a = self.game_json;
        let ghost now = self.current_tick;
        self.game_json.open_current_trip(is_home_team, pass_start_tick);
        proof {
            let b = self.game_json;
            if record_wf(a, now) {
                assert(period_record_wf(a.periods@[a.periods.len() - 1], now));
                assert(jam_record_wf(
                    a.periods@.last().jams@[a.periods@.last().jams.len() - 1],
                    now,
                ));
                assert(trips_wf(team_jam_of(a, is_home_team).trips@, now));
                lemma_trips_push_wf(
                    team_jam_of(a, is_home_team).trips@,
                    team_jam_of(b, is_home_team).trips@,
                    now,
                );
                assert(trips_wf(team_jam_of(b, true).trips@, now));
                assert(trips_wf(team_jam_of(b, false).trips@, now));
                lemma_record_frame_preserves_wf(a, b, now);
            }
            assert(record_open_jam(b));
        }
    }

    /// A tick happening "now" is stamped up to a second earlier, spreading
    /// recorded event times inside the one-second tick.
    fn get_random_current_tick(&mut self) -> (t: u64)
        requires
            old(self).current_tick >= 1000,
        ensures
            only_rng_differs(*old(self), *final(self)),
            old(self).current_tick - 1000 < t <= old(self).current_tick,
    {
        let offset = rng_range_u64(&mut self.random_source, 0, 1000);
        self.current_tick - offset
    }

    /// Removes the entry bearing `id` from the penalty box, if present.
    fn remove_from_box(&mut self, id: u64)
        requires
            ids_distinct(old(self).penalty_box@),
        ensures
            skater_tick_shell(*old(self), *final(self)),
            final(self).game_json == old(self).game_json,
            final(self).lead_is_open == old(self).lead_is_open,
            final(self).jam_called == old(self).jam_called,
            ids_distinct(final(self).penalty_box@),
            !skaters_have_id(final(self).penalty_box@, id),
            forall|x: u64|
                x != id ==> (#[trigger] skaters_have_id(final(self).penalty_box@, x)
                    <==> skaters_have_id(old(self).penalty_box@, x)),
            box_entries_wf(old(self).penalty_box@, old(self).current_tick) ==> box_entries_wf(
                final(self).penalty_box@,
                final(self).current_tick,
            ),
            box_members_of(old(self).penalty_box@, old(self).home_team, old(self).away_team)
                ==> box_members_of(
                final(self).penalty_box@,
                final(self).home_team,
                final(self).away_team,
            ),
            box_parked(old(self).penalty_box@) ==> box_parked(final(self).penalty_box@),
    {
        let ghost pre = self.penalty_box@;
        let mut i: usize = 0;
        while i < self.penalty_box.len()
            invariant
                self.penalty_box@ == pre,
                pre == old(self).penalty_box@,
                ids_distinct(pre),
                i <= pre.len(),
                forall|k: int| 0 <= k < i ==> (#[trigger] pre[k]).details.id != id,
                skater_tick_shell(*old(self), *self),
                self.game_json == old(self).game_json,
                self.lead_is_open == old(self).lead_is_open,
                self.jam_called == old(self).jam_called,
            decreases pre.len() - i,
        {
            if self.penalty_box[i].details.id == id {
                self.penalty_box.remove(i);
                proof {
                    assert(self.penalty_box@ == pre.subrange(0, i as int) + pre.subrange(
                        i + 1,
                        pre.len() as int,
                    ));
                    assert forall|x: u64|
                        x != id implies (#[trigger] skaters_have_id(self.penalty_box@, x)
                        <==> skaters_have_id(pre, x)) by {
                        if skaters_have_id(self.penalty_box@, x) {
                            let k = choose|k: int|
                                0 <= k < self.penalty_box@.len() && (
                                #[trigger] self.penalty_box@[k]).details.id == x;
                            if k < i {
                                assert(pre[k].details.id == x);
                            } else {
                                assert(pre[k + 1].details.id == x);
                            }
                        }
                        if skaters_have_id(pre, x) {
                            let k = choose|k: int|
                                0 <= k < pre.len() && (#[trigger] pre[k]).details.id == x;
                            if k < i {
                                assert(self.penalty_box@[k].details.id == x);
                            } else {
                                assert(k != i);
                                assert(self.penalty_box@[k - 1].details.id == x);
                            }
                        }
                    }
                    assert(!skaters_have_id(self.penalty_box@, id)) by {
                        if skaters_have_id(self.penalty_box@, id) {
                            let k = choose|k: int|
                                0 <= k < self.penalty_box@.len() && (
                                #[trigger] self.penalty_box@[k]).details.id == id;
                            if k < i {
                                assert(pre[k].details.id == id);
                            } else {
                                assert(pre[k + 1].details.id == id);
                            }
                        }
                    }
                    assert forall|m: int|
                        0 <= m < self.penalty_box@.len() implies (#[trigger] self.penalty_box@[m])
                        == pre[if m < i { m } else { m + 1 }] by {}
                }
                return ;
            }
            i = i + 1;
        }
        proof {
            assert(!skaters_have_id(self.penalty_box@, id));
        }
    }

    /// Sends a skater toward the penalty box: strips their lead standing,
    /// enters their identity in the box, and starts them on a drawn travel
    /// distance owing one penalty. The caller stores the returned activity.
    fn give_skater_penalty(&mut self, skater: &mut JamSkater) -> (act: SkaterActivity)
        requires
            old(self).current_tick >= 1000,
            ids_distinct(old(self).penalty_box@),
            !skaters_have_id(old(self).penalty_box@, old(skater).details.id),
            skater_wf(old(skater).details),
            activity_wf(old(skater).activity, old(self).current_tick),
        ensures
            per_skater_frame(*old(self), *final(self)),
            box_delta_ok(*old(self), *final(self), old(skater).details.id),
            skaters_have_id(final(self).penalty_box@, old(skater).details.id),
            skater_like(final(skater).details, old(skater).details),
            final(skater).position == old(skater).position,
            final(skater).activity == old(skater).activity,
            !final(skater).is_lead,
            !final(skater).can_receive_lead,
            act is SkatingToBox,
            is_box_activity(act),
            activity_wf(act, final(self).current_tick),
            (match act {
                SkaterActivity::SkatingToBox(t) => t.penalties_to_sit == 1 && 1_000
                    <= t.distance_remaining < 60_000,
                _ => false,
            }),
    {
        skater.is_lead = false;
        skater.can_receive_lead = false;
        let entry = skater.clone();
        let ghost esnap = entry;
        let ghost pre = self.penalty_box@;
        self.penalty_box.push(entry);
        proof {
            let post = self.penalty_box@;
            let id = old(skater).details.id;
            assert(post == pre.push(esnap));
            assert(esnap.details.id == id);
            assert forall|i: int| 0 <= i < pre.len() implies (#[trigger] pre[i]).details.id
                != id by {
                if pre[i].details.id == id {
                    assert(skaters_have_id(pre, id));
                }
            }
            assert forall|x: u64|
                x != id implies (#[trigger] skaters_have_id(post, x) <==> skaters_have_id(
                pre,
                x,
            )) by {
                if skaters_have_id(post, x) {
                    let k = choose|k: int|
                        0 <= k < post.len() && (#[trigger] post[k]).details.id == x;
                    assert(k < pre.len());
                    assert(pre[k].details.id == x);
                }
                if skaters_have_id(pre, x) {
                    let k = choose|k: int| 0 <= k < pre.len() && (#[trigger] pre[k]).details.id
                        == x;
                    assert(post[k].details.id == x);
                }
            }
            assert(post[post.len() - 1].details.id == id);
            assert forall|i: int|
                0 <= i < post.len() implies ((#[trigger] post[i]).details.id == id
                || skaters_have_id(pre, post[i].details.id)) by {
                if i < pre.len() {
                    assert(pre[i].details.id == post[i].details.id);
                    assert(skaters_have_id(pre, post[i].details.id));
                }
            }
            if box_entries_wf(pre, old(self).current_tick) {
                assert forall|i: int| 0 <= i < post.len() implies jam_skater_wf(
                    #[trigger] post[i],
                    self.current_tick,
                ) by {
                    if i < pre.len() {
                        assert(jam_skater_wf(pre[i], old(self).current_tick));
                    } else {
                        assert(post[i] == esnap);
                    }
                }
            }
            if box_members_of(pre, old(self).home_team, old(self).away_team) && (roster_has_id(
                old(self).home_team,
                id,
            ) || roster_has_id(old(self).away_team, id)) {
                assert forall|i: int| 0 <= i < post.len() implies (roster_has_id(
                    old(self).home_team,
                    (#[trigger] post[i]).details.id,
                ) || roster_has_id(old(self).away_team, post[i].details.id)) by {
                    if i < pre.len() {
                        assert(roster_has_id(old(self).home_team, pre[i].details.id)
                            || roster_has_id(old(self).away_team, pre[i].details.id));
                    }
                }
            }
        }
        let distance = rng_range_i64(&mut self.random_source, 1_000, 60_000);
        SkaterActivity::SkatingToBox(
            SkatingToBox { distance_remaining: distance, penalties_to_sit: 1 },
        )
    }

    /// A held-over sit resumes on the next tick it is observed: it converts
    /// back into a sit whose start tick preserves the time already served.
    fn tick_held_in_box_skater(&self, held_in_box: &HeldInBox) -> (act: SkaterActivity)
        requires
            held_in_box.ticks_expired <= self.current_tick,
            1 <= held_in_box.penalty_count <= 2,
        ensures
            act == SkaterActivity::SatInBox(
                SatInBox {
                    start_tick: (self.current_tick - held_in_box.ticks_expired) as u64,
                    penalty_count: held_in_box.penalty_count,
                },
            ),
            is_box_activity(act),
            activity_wf(act, self.current_tick),
    {
        SkaterActivity::SatInBox(
            SatInBox {
                start_tick: self.current_tick - held_in_box.ticks_expired,
                penalty_count: held_in_box.penalty_count,
            },
        )
    }

    /// A sitting skater is released once they have served thirty seconds per
    /// penalty: their identity leaves the box and they start a drawn return
    /// distance. Before that the activity is unchanged.
    fn tick_sat_in_box_skater(&mut self, sat_in_box: &SatInBox, skater: &JamSkater) -> (act:
        SkaterActivity)
        requires
            old(self).current_tick >= 1000,
            ids_distinct(old(self).penalty_box@),
            skaters_have_id(old(self).penalty_box@, skater.details.id),
            sat_in_box.start_tick <= old(self).current_tick,
            1 <= sat_in_box.penalty_count <= 2,
        ensures
            per_skater_frame(*old(self), *final(self)),
            box_delta_ok(*old(self), *final(self), skater.details.id),
            skaters_have_id(final(self).penalty_box@, skater.details.id) <==> is_box_activity(
                act,
            ),
            activity_wf(act, final(self).current_tick),
            act is SatInBox || act is ReturningFromBox,
            (act is SatInBox ==> act == SkaterActivity::SatInBox(*sat_in_box)
                && final(self).penalty_box == old(self).penalty_box),
            activity_step(
                skater.position,
                skater.details.base_speed,
                old(self).current_tick,
                SkaterActivity::SatInBox(*sat_in_box),
                act,
            ),
            (box_parked(old(self).penalty_box@) ==> box_parked(final(self).penalty_box@)),
    {
        let has_completed_penalties = self.current_tick - sat_in_box.start_tick
            >= PENALTY_SIT_DURATION * (sat_in_box.penalty_count as u64);
        if has_completed_penalties {
            self.remove_from_box(skater.details.id);
            proof {
                assert forall|i: int|
                    0 <= i < self.penalty_box@.len() implies ((
                #[trigger] self.penalty_box@[i]).details.id == skater.details.id
                    || skaters_have_id(
                    old(self).penalty_box@,
                    self.penalty_box@[i].details.id,
                )) by {
                    assert(skaters_have_id(
                        self.penalty_box@,
                        self.penalty_box@[i].details.id,
                    ));
                }
            }
            let distance = rng_range_i64(&mut self.random_source, 1_000, 60_000);
            SkaterActivity::ReturningFromBox(ReturningFromBox { distance_remaining: distance })
        } else {
            SkaterActivity::SatInBox(
                SatInBox {
                    start_tick: sat_in_box.start_tick,
                    penalty_count: sat_in_box.penalty_count,
                },
            )
        }
    }

    /// A skater traveling to the box covers a drawn stretch of distance; while
    /// one penalty is owed there is a small chance a second accrues. On
    /// arrival the sit begins, carrying the penalties owed.
    fn tick_skating_to_box_skater(&mut self, to_box: &SkatingToBox, skater: &JamSkater) -> (act:
        SkaterActivity)
        requires
            old(self).current_tick >= 1000,
            skater_wf(skater.details),
            0 < to_box.distance_remaining <= 60_000,
            1 <= to_box.penalties_to_sit <= 2,
        ensures
            per_skater_frame(*old(self), *final(self)),
            final(self).penalty_box == old(self).penalty_box,
            is_box_activity(act),
            activity_wf(act, final(self).current_tick),
            act is SkatingToBox || act is SatInBox,
            activity_step(
                skater.position,
                skater.details.base_speed,
                old(self).current_tick,
                SkaterActivity::SkatingToBox(*to_box),
                act,
            ),
    {
        let distance_covered = skater.details.base_speed + rng_range_i64(
            &mut self.random_source,
            -1_000,
            1_000,
        );
        if to_box.distance_remaining > distance_covered {
            let should_get_second_penalty = if to_box.penalties_to_sit == 1 {
                rng_ratio(&mut self.random_source, 1, 20)
            } else {
                false
            };
            SkaterActivity::SkatingToBox(
                SkatingToBox {
                    distance_remaining: to_box.distance_remaining - distance_covered,
                    penalties_to_sit: if should_get_second_penalty {
                        2
                    } else {
                        to_box.penalties_to_sit
                    },
                },
            )
        } else {
            let start_tick = self.get_random_current_tick();
            SkaterActivity::SatInBox(
                SatInBox { start_tick, penalty_count: to_box.penalties_to_sit },
            )
        }
    }

    /// A returning skater covers a drawn stretch of distance; on re-entering
    /// the track there is a small chance of a cut penalty sending them
    /// straight back, otherwise they rejoin the track at position zero.
    fn tick_returning_from_box_skater(
        &mut self,
        returning: &ReturningFromBox,
        skater: &mut JamSkater,
    ) -> (act: SkaterActivity)
        requires
            old(self).current_tick >= 1000,
            ids_distinct(old(self).penalty_box@),
            !skaters_have_id(old(self).penalty_box@, old(skater).details.id),
            skater_wf(old(skater).details),
            activity_wf(old(skater).activity, old(self).current_tick),
            0 < returning.distance_remaining <= 60_000,
        ensures
            per_skater_frame(*old(self), *final(self)),
            box_delta_ok(*old(self), *final(self), old(skater).details.id),
            skaters_have_id(final(self).penalty_box@, old(skater).details.id) <==> is_box_activity(
                act,
            ),
            skater_like(final(skater).details, old(skater).details),
            final(skater).position == old(skater).position,
            final(skater).activity == old(skater).activity,
            activity_wf(act, final(self).current_tick),
            act is ReturningFromBox || act is SkatingOnTrack || act is SkatingToBox,
            activity_step(
                old(skater).position,
                old(skater).details.base_speed,
                old(self).current_tick,
                SkaterActivity::ReturningFromBox(*returning),
                act,
            ),
            (act is SkatingToBox ==> !final(skater).is_lead && !final(skater).can_receive_lead),
            (!(act is SkatingToBox) ==> final(skater).is_lead == old(skater).is_lead
                && final(skater).can_receive_lead == old(skater).can_receive_lead),
    {
        let distance_covered = skater.details.base_speed + rng_range_i64(
            &mut self.random_source,
            -1_000,
            1_000,
        );
        if returning.distance_remaining > distance_covered {
            SkaterActivity::ReturningFromBox(
                ReturningFromBox {
                    distance_remaining: returning.distance_remaining - distance_covered,
                },
            )
        } else {
            let should_get_cut_penalty = rng_ratio(&mut self.random_source, 1, 100);
            if should_get_cut_penalty {
                self.give_skater_penalty(skater)
            } else {
                SkaterActivity::SkatingOnTrack(SkatingOnTrack { location: 0 })
            }
        }
    }

    /// One tick for a skater on the track. Every on-track skater first rolls
    /// their penalty chance (a penalty also clears the team's recorded lead).
    /// A jammer inside the pack advances by a drawn fraction of their speed;
    /// crossing the pack threshold completes the scoring pass: the current
    /// trip is scored, a lead jammer may call the jam off, and an eligible
    /// jammer may earn lead while the jam-wide lead is open. A jammer outside
    /// the pack advances at full speed and wraps past the loop's end into a
    /// fresh trip. Blockers and pivots hold their position.
    fn tick_on_track_skater(
        &mut self,
        on_track: &SkatingOnTrack,
        skater: &mut JamSkater,
        is_home_team: bool,
    ) -> (act: SkaterActivity)
        requires
            old(self).current_tick >= 1000,
            ids_distinct(old(self).penalty_box@),
            !skaters_have_id(old(self).penalty_box@, old(skater).details.id),
            skater_wf(old(skater).details),
            old(skater).activity == SkaterActivity::SkatingOnTrack(*on_track),
            activity_wf(old(skater).activity, old(self).current_tick),
            -100_000 <= on_track.location <= 100_000,
            record_open_jam(old(self).game_json),
        ensures
            skater_tick_shell(*old(self), *final(self)),
            box_delta_ok(*old(self), *final(self), old(skater).details.id),
            (skaters_have_id(final(self).penalty_box@, old(skater).details.id)
                <==> is_box_activity(act)),
            skater_like(final(skater).details, old(skater).details),
            final(skater).position == old(skater).position,
            activity_wf(act, final(self).current_tick),
            record_tick_ok(old(self).game_json, final(self).game_json, old(self).current_tick),
            activity_step(
                old(skater).position,
                old(skater).details.base_speed,
                old(self).current_tick,
                old(skater).activity,
                act,
            ),
            // A penalty strips the skater's lead standing.
            (act is SkatingToBox ==> !final(skater).is_lead && !final(skater).can_receive_lead),
            // Only an in-pack lead jammer's pack exit can touch the jam-call
            // roll or close the jam-wide lead opportunity.
            (!(old(skater).position == Position::Jammer && on_track.location < 20_000)
                ==> final(self).lead_is_open == old(self).lead_is_open
                && final(self).jam_called == old(self).jam_called),
            (!old(skater).is_lead ==> final(self).jam_called == old(self).jam_called),
            // A non-jammer either takes a penalty, which also clears the
            // team's recorded lead, or is left entirely alone.
            (old(skater).position != Position::Jammer ==> ((act == old(skater).activity
                && *final(skater) == *old(skater) && final(self).game_json == old(
                self,
            ).game_json) || (act is SkatingToBox && (final(self).game_json == old(self).game_json
                || (record_frame(old(self).game_json, final(self).game_json) && team_jam_of(
                final(self).game_json,
                is_home_team,
            ) == (TeamJamJson { is_lead: false, ..team_jam_of(old(self).game_json, is_home_team) })
                && team_jam_of(final(self).game_json, !is_home_team) == team_jam_of(
                old(self).game_json,
                !is_home_team,
            )))))),
            // A penalized jammer outside the pack was caught by the leading
            // roll alone: the team's recorded lead is cleared, nothing else.
            ((old(skater).position == Position::Jammer && on_track.location >= 20_000
                && act is SkatingToBox) ==> (record_frame(
                old(self).game_json,
                final(self).game_json,
            ) && team_jam_of(final(self).game_json, is_home_team) == (TeamJamJson {
                is_lead: false,
                ..team_jam_of(old(self).game_json, is_home_team)
            }) && team_jam_of(final(self).game_json, !is_home_team) == team_jam_of(
                old(self).game_json,
                !is_home_team,
            ))),
            // A penalized jammer inside the pack: the leading roll clears the
            // recorded lead; the follow-up roll leaves the record alone when
            // the pack was not exited, or on top of the scored pass when it
            // was.
            ((old(skater).position == Position::Jammer && on_track.location < 20_000
                && act is SkatingToBox) ==> ((record_frame(
                old(self).game_json,
                final(self).game_json,
            ) && team_jam_of(final(self).game_json, is_home_team) == (TeamJamJson {
                is_lead: false,
                ..team_jam_of(old(self).game_json, is_home_team)
            }) && team_jam_of(final(self).game_json, !is_home_team) == team_jam_of(
                old(self).game_json,
                !is_home_team,
            )) || (final(self).game_json == old(self).game_json) || ({
                let pre = team_jam_of(old(self).game_json, is_home_team);
                let post = team_jam_of(final(self).game_json, is_home_team);
                &&& record_frame(old(self).game_json, final(self).game_json)
                &&& team_jam_of(final(self).game_json, !is_home_team) == team_jam_of(
                    old(self).game_json,
                    !is_home_team,
                )
                &&& post.fielding == pre.fielding
                &&& post.called_off == pre.called_off
                &&& post.trips.len() == pre.trips.len()
                &&& post.trips@.last().score == 4
                &&& post.trips@.last().start_tick == pre.trips@.last().start_tick
                &&& (forall|i: int|
                    0 <= i < pre.trips.len() - 1 ==> #[trigger] post.trips@[i] == pre.trips@[i])
            }))),
            // A jammer's pack exit completes the scoring pass: the current
            // trip is scored with four points and a used lead chance closes.
            ((old(skater).position == Position::Jammer && on_track.location < 20_000 && (
            match act {
                SkaterActivity::SkatingOnTrack(u) => u.location >= 20_000,
                _ => false,
            })) ==> ({
                let pre = team_jam_of(old(self).game_json, is_home_team);
                let post = team_jam_of(final(self).game_json, is_home_team);
                &&& team_jam_of(final(self).game_json, !is_home_team) == team_jam_of(
                    old(self).game_json,
                    !is_home_team,
                )
                &&& post.fielding == pre.fielding
                &&& post.called_off == pre.called_off
                &&& post.trips.len() == pre.trips.len()
                &&& post.trips@.last().score == 4
                &&& post.trips@.last().start_tick == pre.trips@.last().start_tick
                &&& (forall|i: int|
                    0 <= i < pre.trips.len() - 1 ==> #[trigger] post.trips@[i] == pre.trips@[i])
                &&& ((old(self).lead_is_open && old(skater).can_receive_lead)
                    ==> !final(skater).can_receive_lead)
                &&& ((final(self).lead_is_open == old(self).lead_is_open && final(skater).is_lead
                    == old(skater).is_lead && post.is_lead == pre.is_lead) || (old(
                    self,
                ).lead_is_open && old(skater).can_receive_lead && !final(self).lead_is_open
                    && final(skater).is_lead && post.is_lead))
            })),
            // A jammer who neither exits nor is penalized inside the pack
            // changes nothing but their position on the track.
            ((old(skater).position == Position::Jammer && on_track.location < 20_000 && (
            match act {
                SkaterActivity::SkatingOnTrack(u) => u.location < 20_000,
                _ => false,
            })) ==> (final(self).game_json == old(self).game_json
                && final(skater).is_lead == old(skater).is_lead
                && final(skater).can_receive_lead == old(skater).can_receive_lead)),
            // Wrapping past the loop's end opens a fresh scoring trip for the
            // jammer's team; advancing without wrapping touches nothing.
            ((old(skater).position == Position::Jammer && on_track.location >= 20_000 && (
            match act {
                SkaterActivity::SkatingOnTrack(u) => u.location == 0,
                _ => false,
            })) ==> ({
                let pre = team_jam_of(old(self).game_json, is_home_team);
                let post = team_jam_of(final(self).game_json, is_home_team);
                &&& team_jam_of(final(self).game_json, !is_home_team) == team_jam_of(
                    old(self).game_json,
                    !is_home_team,
                )
                &&& post.fielding == pre.fielding
                &&& post.called_off == pre.called_off
                &&& post.is_lead == pre.is_lead
                &&& post.trips.len() == pre.trips.len() + 1
                &&& post.trips@.last().score == 0
                &&& post.trips@.last().duration == 0
                &&& (forall|i: int|
                    0 <= i < pre.trips.len() ==> #[trigger] post.trips@[i] == pre.trips@[i])
            })),
            ((old(skater).position == Position::Jammer && on_track.location >= 20_000 && (
            match act {
                SkaterActivity::SkatingOnTrack(u) => u.location != 0,
                _ => false,
            })) ==> (final(self).game_json == old(self).game_json && (*final(skater)) == (*old(
                skater,
            )))),
    {
        let ghost g0 = *self;
        let has_committed_penalty = rng_ratio(
            &mut self.random_source,
            skater.details.penalty_chance_ppm,
            1_000_000,
        );
        if has_committed_penalty {
            self.record_set_lead(is_home_team, false);
            let ghost g1 = *self;
            let act = self.give_skater_penalty(skater);
            proof {
                lemma_box_delta_refl(g0, g1, old(skater).details.id);
                lemma_box_delta_trans(g0, g1, *self, old(skater).details.id);
            }
            act
        } else if skater.position == Position::Jammer {
            let is_in_pack = on_track.location < 20_000;
            if is_in_pack {
                let delta = rng_range_i64(
                    &mut self.random_source,
                    skater.details.base_speed / 4 - 2_000,
                    skater.details.base_speed / 4 + 2_000,
                );
                let new_location = on_track.location + delta;
                let has_exited_pack = new_location >= 20_000;
                if has_exited_pack {
                    let pass_completion_tick = self.get_random_current_tick();
                    self.record_score_trip(is_home_team, pass_completion_tick);
                    if skater.is_lead {
                        self.jam_called = rng_ratio(&mut self.random_source, 1, 2);
                    }
                    let could_receive_lead = self.lead_is_open && skater.can_receive_lead;
                    if could_receive_lead {
                        let lead_earned = !rng_ratio(&mut self.random_source, 1, 50);
                        if lead_earned {
                            let ghost gm = *self;
                            self.record_set_lead(is_home_team, true);
                            proof {
                                lemma_record_frame_trans(
                                    g0.game_json,
                                    gm.game_json,
                                    self.game_json,
                                );
                            }
                            self.lead_is_open = false;
                            skater.is_lead = true;
                        }
                        skater.can_receive_lead = false;
                    }
                }
                let ghost g1 = *self;
                let has_received_penalty = rng_ratio(
                    &mut self.random_source,
                    skater.details.penalty_chance_ppm,
                    1_000_000,
                );
                if has_received_penalty {
                    let act = self.give_skater_penalty(skater);
                    proof {
                        lemma_box_delta_refl(g0, g1, old(skater).details.id);
                        lemma_box_delta_trans(g0, g1, *self, old(skater).details.id);
                    }
                    act
                } else {
                    proof {
                        lemma_box_delta_refl(g0, *self, old(skater).details.id);
                    }
                    SkaterActivity::SkatingOnTrack(SkatingOnTrack { location: new_location })
                }
            } else {
                let mut new_location = on_track.location + skater.details.base_speed;
                if new_location > 100_000 {
                    new_location = 0;
                    let pass_start_tick = self.get_random_current_tick();
                    self.record_open_trip(is_home_team, pass_start_tick);
                }
                proof {
                    lemma_box_delta_refl(g0, *self, old(skater).details.id);
                }
                SkaterActivity::SkatingOnTrack(SkatingOnTrack { location: new_location })
            }
        } else {
            let has_received_penalty = rng_ratio(
                &mut self.random_source,
                skater.details.penalty_chance_ppm,
                1_000_000,
            );
            if has_received_penalty {
                self.give_skater_penalty(skater)
            } else {
                proof {
                    lemma_box_delta_refl(g0, *self, old(skater).details.id);
                }
                SkaterActivity::SkatingOnTrack(SkatingOnTrack { location: on_track.location })
            }
        }
    }

    /// Whether the team's roster holds a skater with identity `id`.
    fn roster_contains(team: &GameTeam, id: u64) -> (r: bool)
        ensures
            r == roster_has_id(*team, id),
    {
        let mut i: usize = 0;
        while i < team.roster.len()
            invariant
                i <= team.roster.len(),
                forall|k: int| 0 <= k < i ==> (#[trigger] team.roster@[k]).details.id != id,
            decreases team.roster.len() - i,
        {
            if team.roster[i].details.id == id {
                return true;
            }
            i = i + 1;
        }
        false
    }

    /// Whether a fielded list holds a skater with identity `id`.
    fn skaters_contain(sk: &Vec<JamSkater>, id: u64) -> (r: bool)
        ensures
            r == skaters_have_id(sk@, id),
    {
        let mut i: usize = 0;
        while i < sk.len()
            invariant
                i <= sk.len(),
                forall|k: int| 0 <= k < i ==> (#[trigger] sk@[k]).details.id != id,
            decreases sk.len() - i,
        {
            if sk[i].details.id == id {
                return true;
            }
            i = i + 1;
        }
        false
    }

    /// Whether a fielded list holds a skater at position `p`.
    fn contains_position(sk: &Vec<JamSkater>, p: Position) -> (r: bool)
        ensures
            r == has_position(sk@, p),
    {
        let mut i: usize = 0;
        while i < sk.len()
            invariant
                i <= sk.len(),
                forall|k: int| 0 <= k < i ==> (#[trigger] sk@[k]).position != p,
            decreases sk.len() - i,
        {
            if sk[i].position == p {
                return true;
            }
            i = i + 1;
        }
        false
    }

    /// How well a favored position fits the jammer slot.
    fn get_position_jammer_value(preference: Position) -> u8 {
        match preference {
            Position::Jammer => 2,
            Position::Blocker => 1,
            Position::Pivot => 0,
        }
    }

    /// How well a favored position fits the pivot slot.
    fn get_position_pivot_value(preference: Position) -> u8 {
        match preference {
            Position::Pivot => 2,
            Position::Blocker => 1,
            Position::Jammer => 0,
        }
    }

    /// How well a favored position fits a blocker slot.
    fn get_position_blocker_value(preference: Position) -> u8 {
        match preference {
            Position::Blocker => 2,
            Position::Pivot => 1,
            Position::Jammer => 0,
        }
    }

    /// How well a favored position fits the slot being filled.
    fn preference_value(preference: Position, target: Position) -> u8 {
        match target {
            Position::Jammer => Self::get_position_jammer_value(preference),
            Position::Pivot => Self::get_position_pivot_value(preference),
            Position::Blocker => Self::get_position_blocker_value(preference),
        }
    }

    /// The pool position of the most preferred candidate for `target`,
    /// skipping up to two pool positions (pass `available.len()` to skip
    /// none). Ties go to the earliest candidate, preserving the pool's
    /// rest-based order.
    fn best_candidate_excluding(
        team: &GameTeam,
        available: &Vec<usize>,
        target: Position,
        skip1: usize,
        skip2: usize,
    ) -> (k: usize)
        requires
            forall|i: int| 0 <= i < available@.len() ==> #[trigger] available@[i]
                < team.roster.len(),
            available@.len() >= 1,
            skip1 < available@.len() ==> available@.len() >= 2,
            skip2 < available@.len() ==> available@.len() >= 3 && skip1 != skip2,
        ensures
            k < available@.len(),
            k != skip1,
            k != skip2,
    {
        let mut best: usize = if skip1 != 0 && skip2 != 0 {
            0
        } else if skip1 != 1 && skip2 != 1 {
            1
        } else {
            2
        };
        let mut best_value: u8 = Self::preference_value(
            team.roster[available[best]].details.favored_position,
            target,
        );
        let mut i: usize = 0;
        while i < available.len()
            invariant
                i <= available@.len(),
                best < available@.len(),
                best != skip1,
                best != skip2,
                forall|m: int| 0 <= m < available@.len() ==> #[trigger] available@[m]
                    < team.roster.len(),
            decreases available@.len() - i,
        {
            if i != skip1 && i != skip2 {
                let value = Self::preference_value(
                    team.roster[available[i]].details.favored_position,
                    target,
                );
                if value > best_value {
                    best = i;
                    best_value = value;
                }
            }
            i = i + 1;
        }
        best
    }

    /// Draws one candidate for `target` uniformly from the up-to-three most
    /// preferred pool members, removes them from the pool, and returns their
    /// roster index.
    fn pick_from_pool(
        source: &mut rand::rngs::StdRng,
        team: &GameTeam,
        available: &mut Vec<usize>,
        target: Position,
    ) -> (ri: usize)
        requires
            old(available)@.len() > 0,
            pool_distinct(old(available)@),
            forall|i: int| 0 <= i < old(available)@.len() ==> #[trigger] old(available)@[i]
                < team.roster.len(),
        ensures
            ri < team.roster.len(),
            pool_has(old(available)@, ri),
            final(available)@.len() == old(available)@.len() - 1,
            pool_distinct(final(available)@),
            forall|k: int| 0 <= k < final(available)@.len() ==> pool_has(
                old(available)@,
                #[trigger] final(available)@[k],
            ),
            forall|k: int| 0 <= k < final(available)@.len() ==> #[trigger] final(available)@[k]
                != ri,
    {
        let none = available.len();
        let k1 = Self::best_candidate_excluding(team, available, target, none, none);
        let window = if available.len() < 3 {
            available.len()
        } else {
            3
        };
        let draw = rng_range_u64(source, 0, window as u64) as usize;
        let k = if draw == 0 {
            k1
        } else if draw == 1 {
            Self::best_candidate_excluding(team, available, target, k1, none)
        } else {
            let k2 = Self::best_candidate_excluding(team, available, target, k1, none);
            Self::best_candidate_excluding(team, available, target, k1, k2)
        };
        let ri = available[k];
        let ghost pre = available@;
        available.remove(k);
        proof {
            assert(available@ == pre.subrange(0, k as int) + pre.subrange(
                k + 1,
                pre.len() as int,
            ));
            assert(pool_has(pre, ri));
            assert forall|m: int|
                0 <= m < available@.len() implies pool_has(pre, #[trigger] available@[m])
                && available@[m] != ri by {
                if m < k {
                    assert(available@[m] == pre[m]);
                } else {
                    assert(available@[m] == pre[m + 1]);
                }
            }
        }
        ri
    }

    /// Fields one team for a jam. Skaters of this team still in the penalty
    /// box stay in the lineup (a boxed jammer regains lead eligibility); the
    /// open slots are filled from the rest of the roster — a jammer if none is
    /// fielded, entering outside the pack, then a pivot if none, then blockers
    /// until five skaters are on track or the roster is exhausted. Each fill
    /// picks uniformly among the up-to-three best-suited candidates. With the
    /// last-played bookkeeping never written, the rest-based ordering is the
    /// roster order itself.
    #[verifier::rlimit(60)]
    #[verifier::spinoff_prover]
    fn get_random_jam_team(
        source: &mut rand::rngs::StdRng,
        penalty_box: &Vec<JamSkater>,
        team: &GameTeam,
        Ghost(now): Ghost<u64>,
    ) -> (sk: Vec<JamSkater>)
        requires
            game_roster_wf(*team),
            ids_distinct(penalty_box@),
            box_parked(penalty_box@),
            box_entries_wf(penalty_box@, now),
        ensures
            ids_distinct(sk@),
            fielded_from_roster(*team, sk@),
            forall|i: int| 0 <= i < sk@.len() ==> jam_skater_wf(#[trigger] sk@[i], now),
            forall|i: int|
                0 <= i < sk@.len() ==> (skaters_have_id(
                    penalty_box@,
                    (#[trigger] sk@[i]).details.id,
                ) <==> is_box_activity(sk@[i].activity)),
            forall|i: int|
                0 <= i < penalty_box@.len() ==> (roster_has_id(
                    *team,
                    (#[trigger] penalty_box@[i]).details.id,
                ) ==> skaters_have_id(sk@, penalty_box@[i].details.id)),
            team_box_empty(penalty_box@, *team) ==> (sk@.len() == 5 && count_pos(
                sk@,
                Position::Jammer,
            ) == 1 && count_pos(sk@, Position::Pivot) == 1),
            count_team_pos(penalty_box@, *team, Position::Jammer) <= 1 ==> count_pos(
                sk@,
                Position::Jammer,
            ) <= 1,
            count_team_pos(penalty_box@, *team, Position::Pivot) <= 1 ==> count_pos(
                sk@,
                Position::Pivot,
            ) <= 1,
            count_team_pos(penalty_box@, *team, Position::Jammer) == 1 ==> count_pos(
                sk@,
                Position::Jammer,
            ) == 1,
            count_team_pos(penalty_box@, *team, Position::Jammer) == 0 ==> (count_pos(
                sk@,
                Position::Jammer,
            ) == 1 || roster_all_fielded(*team, sk@)),
            (count_team(penalty_box@, *team) <= 3 && count_team_pos(
                penalty_box@,
                *team,
                Position::Jammer,
            ) <= 1 && count_team_pos(penalty_box@, *team, Position::Pivot) <= 1) ==> (sk@.len()
                == 5 && count_pos(sk@, Position::Jammer) == 1 && count_pos(
                sk@,
                Position::Pivot,
            ) <= 1),
            sk@.len() >= 1,
    {
        let ghost seeded_jammers = count_team_pos(penalty_box@, *team, Position::Jammer);
        let ghost seeded_pivots = count_team_pos(penalty_box@, *team, Position::Pivot);
        let ghost seeded_count = count_team(penalty_box@, *team);
        let ghost seeded_empty = team_box_empty(penalty_box@, *team);
        let mut on_track_skaters: Vec<JamSkater> = Vec::new();
        let mut bi: usize = 0;
        while bi < penalty_box.len()
            invariant
                bi <= penalty_box@.len(),
                ids_distinct(penalty_box@),
                box_parked(penalty_box@),
                box_entries_wf(penalty_box@, now),
                game_roster_wf(*team),
                seeded_empty == team_box_empty(penalty_box@, *team),
                seeded_empty ==> on_track_skaters@.len() == 0,
                sel_inv(*team, penalty_box@, on_track_skaters@, Seq::<usize>::empty(), now),
                forall|k: int|
                    0 <= k < on_track_skaters@.len() ==> exists|j: int|
                        0 <= j < bi && (#[trigger] penalty_box@[j]).details.id == (
                        #[trigger] on_track_skaters@[k]).details.id,
                forall|j: int|
                    0 <= j < bi ==> (roster_has_id(*team, (#[trigger] penalty_box@[j]).details.id)
                        ==> skaters_have_id(on_track_skaters@, penalty_box@[j].details.id)),
                count_pos(on_track_skaters@, Position::Jammer) == count_team_pos(
                    penalty_box@.subrange(0, bi as int),
                    *team,
                    Position::Jammer,
                ),
                count_pos(on_track_skaters@, Position::Pivot) == count_team_pos(
                    penalty_box@.subrange(0, bi as int),
                    *team,
                    Position::Pivot,
                ),
                on_track_skaters@.len() == count_team(
                    penalty_box@.subrange(0, bi as int),
                    *team,
                ),
            decreases penalty_box@.len() - bi,
        {
            proof {
                lemma_count_team_pos_prefix(penalty_box@, *team, Position::Jammer, bi as int);
                lemma_count_team_pos_prefix(penalty_box@, *team, Position::Pivot, bi as int);
                lemma_count_team_prefix(penalty_box@, *team, bi as int);
            }
            let in_roster = Self::roster_contains(team, penalty_box[bi].details.id);
            if in_roster {
                let mut seeded = penalty_box[bi].clone();
                if seeded.position == Position::Jammer {
                    seeded.can_receive_lead = true;
                    seeded.is_lead = false;
                }
                let ghost pre_ot = on_track_skaters@;
                let ghost snew = seeded;
                proof {
                    assert forall|k: int| 0 <= k < pre_ot.len() implies (
                    #[trigger] pre_ot[k]).details.id != penalty_box@[bi as int].details.id by {
                        let j = choose|j: int|
                            0 <= j < bi && (#[trigger] penalty_box@[j]).details.id == (
                            #[trigger] pre_ot[k]).details.id;
                        assert(penalty_box@[j].details.id != penalty_box@[bi as int].details.id);
                    }
                }
                on_track_skaters.push(seeded);
                proof {
                    let post = on_track_skaters@;
                    assert(post == pre_ot.push(snew));
                    assert(snew.details.id == penalty_box@[bi as int].details.id);
                    assert forall|x: u64| skaters_have_id(pre_ot, x) implies skaters_have_id(
                        post,
                        x,
                    ) by {
                        let k = choose|k: int|
                            0 <= k < pre_ot.len() && (#[trigger] pre_ot[k]).details.id == x;
                        assert(post[k].details.id == x);
                    }
                    assert(post[post.len() - 1] == snew);
                    assert(skaters_have_id(post, penalty_box@[bi as int].details.id));
                    assert(skaters_have_id(penalty_box@, snew.details.id));
                    assert forall|k: int| 0 <= k < post.len() implies exists|j: int|
                        0 <= j < bi + 1 && (#[trigger] penalty_box@[j]).details.id == (
                        #[trigger] post[k]).details.id by {
                        if k < pre_ot.len() {
                            let j = choose|j: int|
                                0 <= j < bi && (#[trigger] penalty_box@[j]).details.id == (
                                #[trigger] pre_ot[k]).details.id;
                            assert(penalty_box@[j].details.id == post[k].details.id);
                        } else {
                            assert(penalty_box@[bi as int].details.id == post[k].details.id);
                        }
                    }
                    lemma_count_pos_push(pre_ot, snew, Position::Jammer);
                    lemma_count_pos_push(pre_ot, snew, Position::Pivot);
                    assert(snew.position == penalty_box@[bi as int].position);
                }
            }
            bi = bi + 1;
        }
        let ghost after_seed = on_track_skaters@;
        let mut available: Vec<usize> = Vec::new();
        let mut ri: usize = 0;
        while ri < team.roster.len()
            invariant
                ri <= team.roster@.len(),
                available@.len() == ri,
                forall|k: int| 0 <= k < ri ==> #[trigger] available@[k] == k,
            decreases team.roster@.len() - ri,
        {
            available.push(ri);
            ri = ri + 1;
        }
        proof {
            assert forall|j: int| 0 <= j < team.roster@.len() implies #[trigger] pool_has(
                available@,
                j as usize,
            ) by {
                assert(available@[j] == j as usize);
            }
        }
        // Strike every fielded skater's roster index from the pool. Each pass
        // removes at most one entry, so the pool keeps at least the roster
        // minus the fielded count -- the arithmetic the five-skater guarantee
        // rests on.
        let mut si: usize = 0;
        while si < on_track_skaters.len()
            invariant
                si <= on_track_skaters@.len(),
                on_track_skaters@ == after_seed,
                game_roster_wf(*team),
                fielded_from_roster(*team, on_track_skaters@),
                ids_distinct(on_track_skaters@),
                available@.len() + si >= team.roster@.len(),
                available@.len() <= team.roster@.len(),
                pool_distinct(available@),
                forall|k: int| 0 <= k < available@.len() ==> #[trigger] available@[k]
                    < team.roster@.len(),
                forall|m: int, k: int|
                    0 <= m < si && 0 <= k < available@.len() ==> (
                    #[trigger] on_track_skaters@[m]).details.id != team.roster@[(
                    #[trigger] available@[k]) as int].details.id,
                forall|j: int|
                    0 <= j < team.roster@.len() ==> (pool_has(available@, j as usize) || exists|
                        m: int,
                    |
                        0 <= m < si && (#[trigger] on_track_skaters@[m]).details.id == (
                        #[trigger] team.roster@[j]).details.id),
            decreases on_track_skaters@.len() - si,
        {
            let target_id = on_track_skaters[si].details.id;
            let mut found: usize = available.len();
            let mut k: usize = 0;
            while k < available.len()
                invariant
                    k <= available@.len(),
                    game_roster_wf(*team),
                    forall|c: int| 0 <= c < available@.len() ==> #[trigger] available@[c]
                        < team.roster@.len(),
                    found == available@.len() || (found < k
                        && team.roster@[available@[found as int] as int].details.id == target_id),
                    found == available@.len() ==> (forall|c: int|
                        0 <= c < k ==> team.roster@[(#[trigger] available@[c]) as int].details.id
                            != target_id),
                decreases available@.len() - k,
            {
                if team.roster[available[k]].details.id == target_id {
                    found = k;
                }
                k = k + 1;
            }
            let ghost pre_av = available@;
            if found < available.len() {
                available.remove(found);
                proof {
                    assert(available@ == pre_av.subrange(0, found as int) + pre_av.subrange(
                        found + 1,
                        pre_av.len() as int,
                    ));
                    assert forall|m: int|
                        0 <= m < available@.len() implies (#[trigger] available@[m]) == pre_av[
                        if m < found { m } else { m + 1 }] by {}
                    // The struck entry was the only one bearing the target id:
                    // pool indexes are distinct and roster identities unique.
                    assert forall|c: int|
                        0 <= c < available@.len() implies team.roster@[(
                    #[trigger] available@[c]) as int].details.id != target_id by {
                        let src = if c < found { c } else { c + 1 };
                        assert(pre_av[src] != pre_av[found as int]);
                        if team.roster@[pre_av[src] as int].details.id == target_id {
                            assert(team.roster@[pre_av[src] as int].details.id
                                == team.roster@[pre_av[found as int] as int].details.id);
                        }
                    }
                    assert forall|j: int|
                        0 <= j < team.roster@.len() implies (pool_has(available@, j as usize)
                        || exists|m: int|
                        0 <= m < si + 1 && (#[trigger] on_track_skaters@[m]).details.id == (
                        #[trigger] team.roster@[j]).details.id) by {
                        if j == pre_av[found as int] {
                            assert(on_track_skaters@[si as int].details.id
                                == team.roster@[j].details.id);
                        } else if pool_has(pre_av, j as usize) {
                            let c = choose|c: int|
                                0 <= c < pre_av.len() && pre_av[c] == j as usize;
                            if c < found {
                                assert(available@[c] == j as usize);
                            } else {
                                assert(c != found);
                                assert(available@[c - 1] == j as usize);
                            }
                        }
                    }
                }
            } else {
                proof {
                    assert forall|j: int|
                        0 <= j < team.roster@.len() implies (pool_has(available@, j as usize)
                        || exists|m: int|
                        0 <= m < si + 1 && (#[trigger] on_track_skaters@[m]).details.id == (
                        #[trigger] team.roster@[j]).details.id) by {
                        if pool_has(pre_av, j as usize) {
                            let c = choose|c: int|
                                0 <= c < pre_av.len() && pre_av[c] == j as usize;
                            assert(available@[c] == j as usize);
                        }
                    }
                }
            }
            si = si + 1;
        }
        proof {
            // The pool now holds exactly the unfielded roster indexes.
            assert forall|k: int|
                0 <= k < available@.len() implies !skaters_have_id(
                on_track_skaters@,
                team.roster@[(#[trigger] available@[k]) as int].details.id,
            ) by {
                if skaters_have_id(
                    on_track_skaters@,
                    team.roster@[available@[k] as int].details.id,
                ) {
                    let m = choose|m: int|
                        0 <= m < on_track_skaters@.len() && (
                        #[trigger] on_track_skaters@[m]).details.id == team.roster@[available@[k] as int].details.id;
                }
            }
            assert forall|j: int|
                0 <= j < team.roster@.len() implies (skaters_have_id(
                on_track_skaters@,
                (#[trigger] team.roster@[j]).details.id,
            ) || pool_has(available@, j as usize)) by {
                if !pool_has(available@, j as usize) {
                    let m = choose|m: int|
                        0 <= m < on_track_skaters@.len() && (
                        #[trigger] on_track_skaters@[m]).details.id
                            == team.roster@[j].details.id;
                }
            }
            if seeded_empty {
                assert(available@.len() == team.roster@.len());
            }
        }
        proof {
            assert(penalty_box@.subrange(0, penalty_box@.len() as int) =~= penalty_box@);
            assert(count_pos(after_seed, Position::Jammer) == seeded_jammers);
            assert(count_pos(after_seed, Position::Pivot) == seeded_pivots);
            assert(after_seed.len() == seeded_count);
            lemma_count_pos_has(after_seed, Position::Jammer);
        }
        let ghost av_before_jammer = available@;
        let has_jammer = Self::contains_position(&on_track_skaters, Position::Jammer);
        if !has_jammer && available.len() > 0 {
            let ghost pre_av = available@;
            let ghost pre_ot = on_track_skaters@;
            let jammer_ri = Self::pick_from_pool(source, team, &mut available, Position::Jammer);
            let fielded_jammer = JamSkater {
                details: team.roster[jammer_ri].details.clone(),
                position: Position::Jammer,
                activity: SkaterActivity::SkatingOnTrack(SkatingOnTrack { location: 95_000 }),
                can_receive_lead: true,
                is_lead: false,
            };
            let ghost snew = fielded_jammer;
            proof {
                lemma_sel_push(
                    *team,
                    penalty_box@,
                    pre_ot,
                    pre_av,
                    available@,
                    snew,
                    jammer_ri,
                    now,
                );
                lemma_count_pos_push(pre_ot, snew, Position::Jammer);
                lemma_count_pos_push(pre_ot, snew, Position::Pivot);
            }
            on_track_skaters.push(fielded_jammer);
        }
        let ghost after_jammer_ot = on_track_skaters@;
        proof {
            if seeded_count <= 3 && seeded_jammers == 0 {
                assert(av_before_jammer.len() > 0);
                assert(count_pos(after_jammer_ot, Position::Jammer) == 1);
            }
            if seeded_jammers == 0 && !has_position(after_seed, Position::Jammer)
                && available@.len() == 0 {
                assert forall|r: int| 0 <= r < team.roster@.len() implies skaters_have_id(
                    after_jammer_ot,
                    (#[trigger] team.roster@[r]).details.id,
                ) by {
                    assert(!pool_has(available@, r as usize));
                }
            }
            lemma_count_pos_has(after_jammer_ot, Position::Pivot);
        }
        let has_pivot = Self::contains_position(&on_track_skaters, Position::Pivot);
        if !has_pivot && available.len() > 0 {
            let ghost pre_av = available@;
            let ghost pre_ot = on_track_skaters@;
            let pivot_ri = Self::pick_from_pool(source, team, &mut available, Position::Pivot);
            let fielded_pivot = JamSkater {
                details: team.roster[pivot_ri].details.clone(),
                position: Position::Pivot,
                activity: SkaterActivity::SkatingOnTrack(SkatingOnTrack { location: 0 }),
                can_receive_lead: false,
                is_lead: false,
            };
            let ghost snew = fielded_pivot;
            proof {
                lemma_sel_push(
                    *team,
                    penalty_box@,
                    pre_ot,
                    pre_av,
                    available@,
                    snew,
                    pivot_ri,
                    now,
                );
                lemma_count_pos_push(pre_ot, snew, Position::Jammer);
                lemma_count_pos_push(pre_ot, snew, Position::Pivot);
            }
            on_track_skaters.push(fielded_pivot);
        }
        while on_track_skaters.len() < 5 && available.len() > 0
            invariant
                game_roster_wf(*team),
                ids_distinct(penalty_box@),
                sel_inv(*team, penalty_box@, on_track_skaters@, available@, now),
                on_track_skaters@.len() >= after_jammer_ot.len(),
                forall|j: int|
                    0 <= j < penalty_box@.len() ==> (roster_has_id(
                        *team,
                        (#[trigger] penalty_box@[j]).details.id,
                    ) ==> skaters_have_id(on_track_skaters@, penalty_box@[j].details.id)),
                seeded_empty ==> (available@.len() + on_track_skaters@.len()
                    == team.roster@.len() && count_pos(on_track_skaters@, Position::Jammer) == 1
                    && count_pos(on_track_skaters@, Position::Pivot) == 1
                    && on_track_skaters@.len() >= 2),
                seeded_empty ==> on_track_skaters@.len() <= 5,
                available@.len() + on_track_skaters@.len() >= team.roster@.len(),
                seeded_count <= 3 ==> on_track_skaters@.len() <= 5,
                (seeded_count <= 3 && seeded_jammers == 0) ==> count_pos(
                    on_track_skaters@,
                    Position::Jammer,
                ) == 1,
                seeded_jammers <= 1 ==> count_pos(on_track_skaters@, Position::Jammer) <= 1,
                seeded_jammers == 1 ==> count_pos(on_track_skaters@, Position::Jammer) == 1,
                seeded_jammers == 0 ==> (count_pos(on_track_skaters@, Position::Jammer) == 1
                    || roster_all_fielded(*team, on_track_skaters@)),
                seeded_pivots <= 1 ==> count_pos(on_track_skaters@, Position::Pivot) <= 1,
            decreases available@.len(),
        {
            let ghost pre_av = available@;
            let ghost pre_ot = on_track_skaters@;
            let blocker_ri = Self::pick_from_pool(source, team, &mut available, Position::Blocker);
            let fielded_blocker = JamSkater {
                details: team.roster[blocker_ri].details.clone(),
                position: Position::Blocker,
                activity: SkaterActivity::SkatingOnTrack(SkatingOnTrack { location: 0 }),
                can_receive_lead: false,
                is_lead: false,
            };
            let ghost snew = fielded_blocker;
            proof {
                lemma_sel_push(
                    *team,
                    penalty_box@,
                    pre_ot,
                    pre_av,
                    available@,
                    snew,
                    blocker_ri,
                    now,
                );
                lemma_count_pos_push(pre_ot, snew, Position::Jammer);
                lemma_count_pos_push(pre_ot, snew, Position::Pivot);
                assert forall|x: u64| skaters_have_id(pre_ot, x) implies skaters_have_id(
                    pre_ot.push(snew),
                    x,
                ) by {
                    let k = choose|k: int|
                        0 <= k < pre_ot.len() && (#[trigger] pre_ot[k]).details.id == x;
                    assert(pre_ot.push(snew)[k].details.id == x);
                }
            }
            on_track_skaters.push(fielded_blocker);
        }
        proof {
            if !team_box_empty(penalty_box@, *team) {
                let j = choose|j: int|
                    0 <= j < penalty_box@.len() && roster_has_id(
                        *team,
                        (#[trigger] penalty_box@[j]).details.id,
                    );
                assert(skaters_have_id(on_track_skaters@, penalty_box@[j].details.id));
                let w = choose|w: int|
                    0 <= w < on_track_skaters@.len() && (
                    #[trigger] on_track_skaters@[w]).details.id == penalty_box@[j].details.id;
                assert(on_track_skaters@.len() >= 1);
            }
            lemma_count_team_pos_nonneg(penalty_box@, *team, Position::Jammer);
            lemma_count_team_pos_nonneg(penalty_box@, *team, Position::Pivot);
            lemma_count_team_nonneg(penalty_box@, *team);
            if seeded_count <= 3 && seeded_jammers <= 1 && seeded_pivots <= 1 {
                assert(on_track_skaters@.len() == 5);
                assert(count_pos(on_track_skaters@, Position::Jammer) == 1);
                assert(count_pos(on_track_skaters@, Position::Pivot) <= 1);
            }
            assert((count_team(penalty_box@, *team) <= 3 && count_team_pos(
                penalty_box@,
                *team,
                Position::Jammer,
            ) <= 1 && count_team_pos(penalty_box@, *team, Position::Pivot) <= 1) ==> (
            on_track_skaters@.len() == 5 && count_pos(on_track_skaters@, Position::Jammer) == 1
                && count_pos(on_track_skaters@, Position::Pivot) <= 1));
        }
        on_track_skaters
    }

    /// The index of the first skater holding position `p`, if any.
    fn index_of_position(sk: &Vec<JamSkater>, p: Position) -> (r: Option<usize>)
        ensures
            (match r {
                Some(k) => k < sk@.len() && sk@[k as int].position == p,
                None => !has_position(sk@, p),
            }),
    {
        let mut i: usize = 0;
        while i < sk.len()
            invariant
                i <= sk@.len(),
                forall|m: int| 0 <= m < i ==> (#[trigger] sk@[m]).position != p,
            decreases sk@.len() - i,
        {
            if sk[i].position == p {
                return Some(i);
            }
            i = i + 1;
        }
        None
    }

    /// The fielding snapshot the record keeps for one team-jam: the jammer
    /// slot goes to the first fielded jammer, the pivot slot to the first
    /// fielded pivot (or a further blocker when none was fielded), and the
    /// three blocker slots to the remaining skaters in order.
    fn fielding_snapshot(sk: &Vec<JamSkater>) -> (f: TeamJamFielding)
        requires
            sk@.len() >= 1,
        ensures
            skaters_have_id(sk@, f.jammer.skater_id),
            skaters_have_id(sk@, f.pivot.skater_id),
            skaters_have_id(sk@, f.blocker1.skater_id),
            skaters_have_id(sk@, f.blocker2.skater_id),
            skaters_have_id(sk@, f.blocker3.skater_id),
            has_position(sk@, Position::Jammer) ==> (exists|i: int|
                0 <= i < sk@.len() && (#[trigger] sk@[i]).position == Position::Jammer
                    && sk@[i].details.id == f.jammer.skater_id),
    {
        let jammer_idx = match Self::index_of_position(sk, Position::Jammer) {
            Some(k) => k,
            None => 0,
        };
        let pivot_found = Self::index_of_position(sk, Position::Pivot);
        let skip_pivot = match pivot_found {
            Some(k) => k,
            None => sk.len(),
        };
        let mut others: Vec<usize> = Vec::new();
        let mut i: usize = 0;
        while i < sk.len() && others.len() < 4
            invariant
                i <= sk@.len(),
                others@.len() <= 4,
                forall|m: int| 0 <= m < others@.len() ==> #[trigger] others@[m] < sk@.len(),
            decreases sk@.len() - i,
        {
            if i != jammer_idx && i != skip_pivot {
                others.push(i);
            }
            i = i + 1;
        }
        let b1 = if others.len() > 0 {
            others[0]
        } else {
            jammer_idx
        };
        let b2 = if others.len() > 1 {
            others[1]
        } else {
            b1
        };
        let b3 = if others.len() > 2 {
            others[2]
        } else {
            b2
        };
        let pivot_idx = match pivot_found {
            Some(k) => k,
            None => if others.len() > 3 {
                others[3]
            } else {
                b3
            },
        };
        proof {
            assert(skaters_have_id(sk@, sk@[jammer_idx as int].details.id));
            assert(skaters_have_id(sk@, sk@[pivot_idx as int].details.id));
            assert(skaters_have_id(sk@, sk@[b1 as int].details.id));
            assert(skaters_have_id(sk@, sk@[b2 as int].details.id));
            assert(skaters_have_id(sk@, sk@[b3 as int].details.id));
        }
        TeamJamFielding {
            jammer: FieldingSkaterJson {
                skater_id: sk[jammer_idx].details.id,
                number: String::new(),
            },
            pivot: FieldingSkaterJson {
                skater_id: sk[pivot_idx].details.id,
                number: String::new(),
            },
            blocker1: FieldingSkaterJson { skater_id: sk[b1].details.id, number: String::new() },
            blocker2: FieldingSkaterJson { skater_id: sk[b2].details.id, number: String::new() },
            blocker3: FieldingSkaterJson { skater_id: sk[b3].details.id, number: String::new() },
        }
    }

    /// Starts a jam: opens a fresh period (and resets the period clock to 30
    /// minutes) when the clock stands at zero, fields both teams, records the
    /// new jam with one open scoring trip per team at the jam's start tick,
    /// reopens the jam-wide lead opportunity and clears the call-off flag.
    fn start_jam(&mut self) -> (next: GameState)
        requires
            old(self).core_wf(),
            old(self).current_tick >= 1000,
            box_parked(old(self).penalty_box@),
            old(self).period_clock > 0 ==> (old(self).game_json.periods.len() > 0 && old(
                self,
            ).game_json.periods@.last().start_tick + 1000 <= old(self).current_tick),
        ensures
            final(self).core_wf(),
            final(self).state_wf_for(next),
            next is JamInProgress,
            final(self).home_team == old(self).home_team,
            final(self).away_team == old(self).away_team,
            final(self).officials == old(self).officials,
            final(self).current_tick == old(self).current_tick,
            final(self).penalty_box == old(self).penalty_box,
            final(self).period_clock == (if old(self).period_clock == 0 {
                PERIOD_DURATION
            } else {
                old(self).period_clock
            }),
            final(self).lead_is_open,
            !final(self).jam_called,
            (match next {
                GameState::JamInProgress(j) => {
                    &&& old(self).current_tick - 1000 < j.start_tick <= old(self).current_tick
                    &&& fielding_ok(*old(self), j)
                    &&& jam_freshly_opened(*old(self), *final(self), j)
                },
                _ => false,
            }),
    {
        let ghost now = self.current_tick;
        let jam_start_tick = self.get_random_current_tick();
        if self.period_clock == 0 {
            let ghost j0 = self.game_json;
            self.game_json.add_period(jam_start_tick);
            self.period_clock = PERIOD_DURATION;
            proof {
                assert forall|i: int| 0 <= i < self.game_json.periods.len() implies
                    period_record_wf(#[trigger] self.game_json.periods@[i], now) by {
                    if i < j0.periods.len() {
                        assert(self.game_json.periods@[i] == j0.periods@[i]);
                        assert(period_record_wf(j0.periods@[i], now));
                    }
                }
            }
        }
        let ghost j1 = self.game_json;
        let home_skaters = Self::get_random_jam_team(
            &mut self.random_source,
            &self.penalty_box,
            &self.home_team,
            Ghost(self.current_tick),
        );
        let away_skaters = Self::get_random_jam_team(
            &mut self.random_source,
            &self.penalty_box,
            &self.away_team,
            Ghost(self.current_tick),
        );
        let home_fielding = Self::fielding_snapshot(&home_skaters);
        let away_fielding = Self::fielding_snapshot(&away_skaters);
        let period = self.game_json.current_period_mut();
        period.add_jam(jam_start_tick, home_fielding, away_fielding);
        proof {
            let j2 = self.game_json;
            assert forall|i: int| 0 <= i < j2.periods.len() implies period_record_wf(
                #[trigger] j2.periods@[i],
                now,
            ) by {
                assert(period_record_wf(j1.periods@[i], now));
                if i < j1.periods.len() - 1 {
                    assert(j2.periods@[i] == j1.periods@[i]);
                } else {
                    let pa = j1.periods@.last();
                    let pb = j2.periods@.last();
                    assert forall|m: int| 0 <= m < pb.jams.len() implies jam_record_wf(
                        #[trigger] pb.jams@[m],
                        now,
                    ) && pb.start_tick <= pb.jams@[m].start_tick by {
                        if m < pa.jams.len() {
                            assert(pb.jams@[m] == pa.jams@[m]);
                            assert(jam_record_wf(pa.jams@[m], now));
                            assert(pa.start_tick <= pa.jams@[m].start_tick);
                        } else {
                            assert(pb.jams@[m] == pb.jams@.last());
                        }
                    }
                }
            }
        }
        let ghost j2 = self.game_json;
        let home_team_jam = self.game_json.current_team_jam_mut(true);
        home_team_jam.add_trip(jam_start_tick);
        let ghost j3 = self.game_json;
        proof {
            assert(record_wf(j3, now)) by {
                assert(trips_wf(team_jam_of(j3, true).trips@, now));
                assert(trips_wf(team_jam_of(j3, false).trips@, now));
                lemma_record_frame_preserves_wf(j2, j3, now);
            }
        }
        let away_team_jam = self.game_json.current_team_jam_mut(false);
        away_team_jam.add_trip(jam_start_tick);
        proof {
            let j4 = self.game_json;
            assert(record_wf(j4, now)) by {
                assert(trips_wf(team_jam_of(j4, true).trips@, now));
                assert(trips_wf(team_jam_of(j4, false).trips@, now));
                lemma_record_frame_preserves_wf(j3, j4, now);
            }
        }
        self.lead_is_open = true;
        self.jam_called = false;
        proof {
            let post = self.game_json;
            assert(team_jam_of(post, true).trips@ =~= seq![
                TripJson {
                    after_star_pass: false,
                    start_tick: jam_start_tick,
                    duration: 0,
                    score: 0,
                },
            ]);
            assert(team_jam_of(post, false).trips@ =~= seq![
                TripJson {
                    after_star_pass: false,
                    start_tick: jam_start_tick,
                    duration: 0,
                    score: 0,
                },
            ]);
        }
        proof {
            assert(ids_disjoint(home_skaters@, away_skaters@)) by {
                assert forall|i: int, j: int|
                    0 <= i < home_skaters@.len() && 0 <= j < away_skaters@.len() implies (
                #[trigger] home_skaters@[i]).details.id != (
                #[trigger] away_skaters@[j]).details.id by {
                    assert(roster_has_id(self.home_team, home_skaters@[i].details.id));
                    assert(roster_has_id(self.away_team, away_skaters@[j].details.id));
                    if home_skaters@[i].details.id == away_skaters@[j].details.id {
                        assert(!roster_has_id(self.away_team, home_skaters@[i].details.id));
                    }
                }
            }
            assert(box_subset_fielded(self.penalty_box@, home_skaters@, away_skaters@)) by {
                assert forall|i: int|
                    0 <= i < self.penalty_box@.len() implies skaters_have_id(
                    home_skaters@,
                    (#[trigger] self.penalty_box@[i]).details.id,
                ) || skaters_have_id(away_skaters@, self.penalty_box@[i].details.id) by {
                    assert(roster_has_id(self.home_team, self.penalty_box@[i].details.id)
                        || roster_has_id(self.away_team, self.penalty_box@[i].details.id));
                }
            }
        }
        GameState::JamInProgress(
            JamInProgress {
                start_tick: jam_start_tick,
                home_skaters,
                away_skaters,
                lead_jammer_team: LeadJammerTeam::Neither,
            },
        )
    }

    /// The stored activity of the fielded skater bearing `id`, if fielded.
    fn find_fielded_activity(home: &Vec<JamSkater>, away: &Vec<JamSkater>, id: u64) -> (r: Option<
        SkaterActivity,
    >)
        ensures
            (match r {
                Some(a) => (exists|i: int|
                    0 <= i < home@.len() && (#[trigger] home@[i]).details.id == id
                        && home@[i].activity == a) || (exists|i: int|
                    0 <= i < away@.len() && (#[trigger] away@[i]).details.id == id
                        && away@[i].activity == a),
                None => !skaters_have_id(home@, id) && !skaters_have_id(away@, id),
            }),
    {
        let mut i: usize = 0;
        while i < home.len()
            invariant
                i <= home@.len(),
                forall|k: int| 0 <= k < i ==> (#[trigger] home@[k]).details.id != id,
            decreases home@.len() - i,
        {
            if home[i].details.id == id {
                return Some(home[i].activity);
            }
            i = i + 1;
        }
        let mut j: usize = 0;
        while j < away.len()
            invariant
                j <= away@.len(),
                forall|k: int| 0 <= k < j ==> (#[trigger] away@[k]).details.id != id,
                !skaters_have_id(home@, id),
            decreases away@.len() - j,
        {
            if away[j].details.id == id {
                return Some(away[j].activity);
            }
            j = j + 1;
        }
        None
    }

    /// Ends a jam at `jam_end_tick`: finalizes each team's still-open trip (a
    /// random score when the jam had more than one trip, zero otherwise),
    /// closes the jam record, freezes every penalty-box entry into its
    /// held-over form so sit progress survives into the next jam, and signals
    /// the interval when the period clock has run out, else the lineup.
    #[verifier::rlimit(60)]
    fn end_jam(&mut self, jam: &JamInProgress, jam_end_tick: u64, was_called: bool) -> (next:
        GameState)
        requires
            old(self).core_wf(),
            team_coherent(old(self).penalty_box@, jam.home_skaters@, old(self).current_tick),
            team_coherent(old(self).penalty_box@, jam.away_skaters@, old(self).current_tick),
            box_subset_fielded(old(self).penalty_box@, jam.home_skaters@, jam.away_skaters@),
            record_open_jam(old(self).game_json),
            old(self).game_json.periods@.last().jams@.last().start_tick == jam.start_tick,
            old(self).game_json.periods@.last().start_tick <= jam.start_tick,
            1 <= jam.start_tick,
            jam.start_tick <= jam_end_tick <= jam.start_tick + JAM_DURATION,
            jam_end_tick <= old(self).current_tick,
            old(self).current_tick >= 1000,
        ensures
            final(self).core_wf(),
            final(self).state_wf_for(next),
            final(self).home_team == old(self).home_team,
            final(self).away_team == old(self).away_team,
            final(self).officials == old(self).officials,
            final(self).current_tick == old(self).current_tick,
            final(self).period_clock == old(self).period_clock,
            (if old(self).period_clock == 0 {
                next is IntervalInProgress
            } else {
                next is LineupInProgress
            }),
            (match next {
                GameState::IntervalInProgress(s) => s.start_tick == jam_end_tick,
                GameState::LineupInProgress(s) => s.start_tick == jam_end_tick,
                _ => false,
            }),
            final(self).game_json.periods@.last().jams@.last().end_tick == jam_end_tick,
            final(self).game_json.periods.len() == old(self).game_json.periods.len(),
            final(self).game_json.periods@.last().jams.len() == old(
                self,
            ).game_json.periods@.last().jams.len(),
            trips_closed(
                team_jam_of(old(self).game_json, true),
                team_jam_of(final(self).game_json, true),
                jam_end_tick,
                was_called,
            ),
            trips_closed(
                team_jam_of(old(self).game_json, false),
                team_jam_of(final(self).game_json, false),
                jam_end_tick,
                was_called,
            ),
            final(self).penalty_box@.len() == old(self).penalty_box@.len(),
            box_parked(final(self).penalty_box@),
            forall|k: int|
                0 <= k < old(self).penalty_box@.len() ==> ((
                #[trigger] final(self).penalty_box@[k]).details.id == (
                #[trigger] old(self).penalty_box@[k]).details.id
                    && final(self).penalty_box@[k].position == old(
                    self,
                ).penalty_box@[k].position && frozen_from(
                    jam.home_skaters@,
                    jam.away_skaters@,
                    old(self).penalty_box@[k].details.id,
                    final(self).penalty_box@[k].activity,
                    jam_end_tick,
                )),
            old(self).period_clock == 0 ==> final(self).game_json.periods@.last().duration == (
            jam_end_tick - old(self).game_json.periods@.last().start_tick) as u64,
            old(self).period_clock != 0 ==> final(self).game_json.periods@.last().duration == old(
                self,
            ).game_json.periods@.last().duration,
    {
        let ghost now = self.current_tick;
        let p_idx = self.game_json.periods.len() - 1;
        let j_idx = self.game_json.periods[p_idx].jams.len() - 1;
        let home_trip_count =
            self.game_json.periods[p_idx].jams[j_idx].home_team_jam.trips.len();
        let home_score: u8 = if home_trip_count > 1 {
            rng_range_u64(&mut self.random_source, 0, 5) as u8
        } else {
            0
        };
        let ghost ja = self.game_json;
        self.game_json.finish_current_trip(true, jam_end_tick, home_score);
        proof {
            let jb = self.game_json;
            lemma_trips_score_wf(team_jam_of(ja, true).trips@, team_jam_of(jb, true).trips@, now);
            lemma_record_frame_preserves_wf(ja, jb, now);
        }
        let away_trip_count =
            self.game_json.periods[p_idx].jams[j_idx].away_team_jam.trips.len();
        let away_score: u8 = if away_trip_count > 1 {
            rng_range_u64(&mut self.random_source, 0, 5) as u8
        } else {
            0
        };
        let ghost jb = self.game_json;
        self.game_json.finish_current_trip(false, jam_end_tick, away_score);
        proof {
            let jc = self.game_json;
            lemma_trips_score_wf(
                team_jam_of(jb, false).trips@,
                team_jam_of(jc, false).trips@,
                now,
            );
            lemma_record_frame_preserves_wf(jb, jc, now);
        }
        let ghost jc = self.game_json;
        self.game_json.close_current_jam(jam_end_tick);
        proof {
            let jd = self.game_json;
            assert forall|i: int| 0 <= i < jd.periods.len() implies period_record_wf(
                #[trigger] jd.periods@[i],
                now,
            ) by {
                assert(period_record_wf(jc.periods@[i], now));
                if i < jc.periods.len() - 1 {
                    assert(jd.periods@[i] == jc.periods@[i]);
                } else {
                    let pa = jc.periods@.last();
                    let pb = jd.periods@.last();
                    assert forall|m: int| 0 <= m < pb.jams.len() implies jam_record_wf(
                        #[trigger] pb.jams@[m],
                        now,
                    ) && pb.start_tick <= pb.jams@[m].start_tick by {
                        assert(jam_record_wf(pa.jams@[m], now));
                        assert(pa.start_tick <= pa.jams@[m].start_tick);
                        if m < pa.jams.len() - 1 {
                            assert(pb.jams@[m] == pa.jams@[m]);
                        } else {
                            assert(pb.jams@[m] == pb.jams@.last());
                            assert(pa.jams@[m] == pa.jams@.last());
                        }
                    }
                }
            }
        }
        if was_called {
            let home_is_lead = self.game_json.periods[p_idx].jams[j_idx].home_team_jam.is_lead;
            if home_is_lead {
                let ghost jd = self.game_json;
                self.game_json.set_current_called_off(true, true);
                proof {
                    let je = self.game_json;
                    assert(trips_wf(team_jam_of(je, true).trips@, now)) by {
                        assert(trips_wf(team_jam_of(jd, true).trips@, now));
                    }
                    assert(trips_wf(team_jam_of(je, false).trips@, now)) by {
                        assert(trips_wf(team_jam_of(jd, false).trips@, now));
                    }
                    lemma_record_frame_preserves_wf(jd, je, now);
                }
            }
            let away_is_lead = self.game_json.periods[p_idx].jams[j_idx].away_team_jam.is_lead;
            if away_is_lead {
                let ghost jd = self.game_json;
                self.game_json.set_current_called_off(false, true);
                proof {
                    let je = self.game_json;
                    assert(trips_wf(team_jam_of(je, true).trips@, now)) by {
                        assert(trips_wf(team_jam_of(jd, true).trips@, now));
                    }
                    assert(trips_wf(team_jam_of(je, false).trips@, now)) by {
                        assert(trips_wf(team_jam_of(jd, false).trips@, now));
                    }
                    lemma_record_frame_preserves_wf(jd, je, now);
                }
            }
        }
        let period_has_expired = self.period_clock == 0;
        let ghost box0 = self.penalty_box@;
        let ghost shell0 = *self;
        let mut i: usize = 0;
        while i < self.penalty_box.len()
            invariant
                i <= self.penalty_box@.len(),
                self.penalty_box@.len() == box0.len(),
                ids_distinct(box0),
                box_entries_wf(box0, now),
                forall|k: int| 0 <= k < box0.len() ==> (#[trigger] self.penalty_box@[k]).details.id
                    == box0[k].details.id,
                forall|k: int| 0 <= k < box0.len() ==> (#[trigger] self.penalty_box@[k]).position
                    == box0[k].position,
                forall|k: int| i <= k < box0.len() ==> #[trigger] self.penalty_box@[k] == box0[k],
                forall|k: int|
                    0 <= k < i ==> is_box_activity((#[trigger] self.penalty_box@[k]).activity),
                forall|k: int|
                    0 <= k < i ==> frozen_from(
                        jam.home_skaters@,
                        jam.away_skaters@,
                        box0[k].details.id,
                        (#[trigger] self.penalty_box@[k]).activity,
                        jam_end_tick,
                    ),
                forall|k: int|
                    0 <= k < self.penalty_box@.len() ==> jam_skater_wf(
                        #[trigger] self.penalty_box@[k],
                        now,
                    ),
                skater_tick_shell(shell0, *self),
                self.game_json == shell0.game_json,
                self.lead_is_open == shell0.lead_is_open,
                self.jam_called == shell0.jam_called,
                self.current_tick == now,
                team_coherent(box0, jam.home_skaters@, now),
                team_coherent(box0, jam.away_skaters@, now),
                box_subset_fielded(box0, jam.home_skaters@, jam.away_skaters@),
                jam_end_tick <= now,
            decreases box0.len() - i,
        {
            let id = self.penalty_box[i].details.id;
            proof {
                assert(self.penalty_box@[i as int] == box0[i as int]);
                assert(skaters_have_id(jam.home_skaters@, id) || skaters_have_id(
                    jam.away_skaters@,
                    id,
                ));
            }
            let found = Self::find_fielded_activity(&jam.home_skaters, &jam.away_skaters, id);
            let track_activity = match found {
                Some(a) => a,
                None => {
                    proof {
                        assert(false);
                    }
                    self.penalty_box[i].activity
                },
            };
            proof {
                assert(skaters_have_id(box0, id)) by {
                    assert(box0[i as int].details.id == id);
                }
                assert(is_box_activity(track_activity));
                assert(activity_wf(track_activity, now));
            }
            let new_activity = match track_activity {
                SkaterActivity::SkatingToBox(t) => SkaterActivity::HeldInBox(
                    HeldInBox { ticks_expired: 0, penalty_count: t.penalties_to_sit },
                ),
                SkaterActivity::SatInBox(t) => SkaterActivity::HeldInBox(
                    HeldInBox {
                        ticks_expired: if t.start_tick <= jam_end_tick {
                            jam_end_tick - t.start_tick
                        } else {
                            0
                        },
                        penalty_count: t.penalty_count,
                    },
                ),
                other => other,
            };
            proof {
                assert(held_freeze(track_activity, new_activity, jam_end_tick));
                assert(frozen_from(
                    jam.home_skaters@,
                    jam.away_skaters@,
                    id,
                    new_activity,
                    jam_end_tick,
                ));
            }
            let mut entry = self.penalty_box[i].clone();
            entry.activity = new_activity;
            self.penalty_box.set(i, entry);
            i = i + 1;
        }
        proof {
            assert(ids_distinct(self.penalty_box@));
            assert forall|k: int| 0 <= k < self.penalty_box@.len() implies (roster_has_id(
                self.home_team,
                (#[trigger] self.penalty_box@[k]).details.id,
            ) || roster_has_id(self.away_team, self.penalty_box@[k].details.id)) by {
                assert(roster_has_id(shell0.home_team, box0[k].details.id) || roster_has_id(
                    shell0.away_team,
                    box0[k].details.id,
                ));
            }
        }
        if period_has_expired {
            let period_start = self.game_json.periods[p_idx].start_tick;
            let ghost je = self.game_json;
            self.game_json.close_current_period(jam_end_tick - period_start);
            proof {
                let jf = self.game_json;
                assert forall|k: int| 0 <= k < jf.periods.len() implies period_record_wf(
                    #[trigger] jf.periods@[k],
                    now,
                ) by {
                    assert(period_record_wf(je.periods@[k], now));
                    if k < je.periods.len() - 1 {
                        assert(jf.periods@[k] == je.periods@[k]);
                    } else {
                        assert(jf.periods@[k] == jf.periods@.last());
                        assert(je.periods@[k] == je.periods@.last());
                    }
                }
            }
            GameState::IntervalInProgress(IntervalInProgress { start_tick: jam_end_tick })
        } else {
            GameState::LineupInProgress(LineupInProgress { start_tick: jam_end_tick })
        }
    }

    /// Advances both fielded teams by one tick while ticking the period clock
    /// down. The jam ends on natural expiry two minutes after its start, or
    /// when a lead jammer's pack exit called it off; otherwise it continues.
    fn tick_jam(&mut self, jam: JamInProgress) -> (next: GameState)
        requires
            old(self).core_wf(),
            old(self).current_tick >= 1000,
            1 <= jam.start_tick,
            jam.start_tick + 1000 <= old(self).current_tick < jam.start_tick + JAM_DURATION
                + 1000,
            ids_distinct(jam.home_skaters@),
            ids_distinct(jam.away_skaters@),
            ids_disjoint(jam.home_skaters@, jam.away_skaters@),
            fielded_from_roster(old(self).home_team, jam.home_skaters@),
            fielded_from_roster(old(self).away_team, jam.away_skaters@),
            team_coherent(old(self).penalty_box@, jam.home_skaters@, old(self).current_tick),
            team_coherent(old(self).penalty_box@, jam.away_skaters@, old(self).current_tick),
            box_subset_fielded(old(self).penalty_box@, jam.home_skaters@, jam.away_skaters@),
            record_open_jam(old(self).game_json),
            old(self).game_json.periods@.last().jams@.last().start_tick == jam.start_tick,
            old(self).game_json.periods@.last().start_tick <= jam.start_tick,
        ensures
            final(self).core_wf(),
            final(self).state_wf_for(next),
            final(self).home_team == old(self).home_team,
            final(self).away_team == old(self).away_team,
            final(self).officials == old(self).officials,
            final(self).current_tick == old(self).current_tick,
            final(self).period_clock == (if old(self).period_clock >= 1000 {
                (old(self).period_clock - 1000) as u64
            } else {
                0u64
            }),
            (next is JamInProgress || next is LineupInProgress || next is IntervalInProgress),
            next is IntervalInProgress ==> final(self).period_clock == 0,
            next is JamInProgress ==> !final(self).jam_called,
            (match next {
                GameState::JamInProgress(j2) => j2.start_tick == jam.start_tick && old(
                    self,
                ).current_tick < jam.start_tick + JAM_DURATION && jam_stepped(
                    jam,
                    j2,
                    old(self).current_tick,
                ),
                _ => true,
            }),
    {
        let jam_has_expired = self.current_tick - jam.start_tick >= JAM_DURATION;
        self.period_clock = if self.period_clock >= 1000 {
            self.period_clock - 1000
        } else {
            0
        };
        if jam_has_expired {
            let jam_end_tick = jam.start_tick + JAM_DURATION;
            self.end_jam(&jam, jam_end_tick, false)
        } else {
            let JamInProgress { start_tick, mut home_skaters, mut away_skaters, lead_jammer_team } =
                jam;
            let ghost g_in = *self;
            let ghost pre_home = home_skaters@;
            let ghost pre_away = away_skaters@;
            let mut i: usize = 0;
            while i < home_skaters.len()
                invariant
                    i <= pre_home.len(),
                    home_skaters@.len() == pre_home.len(),
                    away_skaters@ == pre_away,
                    forall|k: int|
                        0 <= k < pre_home.len() ==> (#[trigger] home_skaters@[k]).details.id == (
                        #[trigger] pre_home[k]).details.id,
                    forall|k: int|
                        0 <= k < i ==> skater_stepped(
                            #[trigger] pre_home[k],
                            #[trigger] home_skaters@[k],
                            self.current_tick,
                        ),
                    forall|k: int|
                        i <= k < pre_home.len() ==> #[trigger] home_skaters@[k] == pre_home[k],
                    ids_distinct(pre_home),
                    ids_distinct(pre_away),
                    ids_disjoint(pre_home, pre_away),
                    skater_tick_shell(g_in, *self),
                    g_in.current_tick >= 1000,
                    game_roster_wf(g_in.home_team),
                    game_roster_wf(g_in.away_team),
                    rosters_disjoint(g_in.home_team, g_in.away_team),
                    g_in.period_clock <= PERIOD_DURATION,
                    fielded_from_roster(g_in.home_team, home_skaters@),
                    fielded_from_roster(g_in.away_team, away_skaters@),
                    ids_distinct(self.penalty_box@),
                    box_entries_wf(self.penalty_box@, self.current_tick),
                    box_members_of(self.penalty_box@, self.home_team, self.away_team),
                    team_coherent(self.penalty_box@, home_skaters@, self.current_tick),
                    team_coherent(self.penalty_box@, away_skaters@, self.current_tick),
                    box_subset_fielded(self.penalty_box@, home_skaters@, away_skaters@),
                    record_wf(self.game_json, self.current_tick),
                    record_open_jam(self.game_json),
                    record_frame(g_in.game_json, self.game_json),
                decreases pre_home.len() - i,
            {
                let ghost g_pre = *self;
                let mut s = home_skaters[i].clone();
                let ghost sid = s.details.id;
                proof {
                    assert(jam_skater_like(home_skaters@[i as int], s));
                }
                self.tick_skater(&mut s, true);
                proof {
                    lemma_record_frame_trans(g_in.game_json, g_pre.game_json, self.game_json);
                }
                let ghost mid_home = home_skaters@;
                home_skaters.set(i, s);
                proof {
                    lemma_same_ids_membership(mid_home, home_skaters@);
                    assert forall|k: int|
                        0 <= k < home_skaters@.len() implies jam_skater_wf(
                        #[trigger] home_skaters@[k],
                        self.current_tick,
                    ) && (skaters_have_id(self.penalty_box@, home_skaters@[k].details.id)
                        <==> is_box_activity(home_skaters@[k].activity)) by {
                        if k != i {
                            assert(home_skaters@[k] == mid_home[k]);
                            assert(mid_home[k].details.id == pre_home[k].details.id);
                            assert(sid == pre_home[i as int].details.id);
                            if k < i {
                                assert(pre_home[k].details.id != pre_home[i as int].details.id);
                            } else {
                                assert(pre_home[i as int].details.id != pre_home[k].details.id);
                            }
                            assert(mid_home[k].details.id != sid);
                            assert(skaters_have_id(g_pre.penalty_box@, mid_home[k].details.id)
                                <==> is_box_activity(mid_home[k].activity));
                        }
                    }
                    assert forall|k: int|
                        0 <= k < away_skaters@.len() implies jam_skater_wf(
                        #[trigger] away_skaters@[k],
                        self.current_tick,
                    ) && (skaters_have_id(self.penalty_box@, away_skaters@[k].details.id)
                        <==> is_box_activity(away_skaters@[k].activity)) by {
                        assert(away_skaters@[k].details.id != sid) by {
                            assert(pre_home[i as int].details.id == sid);
                        }
                    }
                    assert forall|k: int|
                        0 <= k < self.penalty_box@.len() implies (skaters_have_id(
                        home_skaters@,
                        (#[trigger] self.penalty_box@[k]).details.id,
                    ) || skaters_have_id(away_skaters@, self.penalty_box@[k].details.id)) by {
                        let x = self.penalty_box@[k].details.id;
                        if x != sid {
                            assert(skaters_have_id(g_pre.penalty_box@, x));
                            assert(skaters_have_id(mid_home, x) || skaters_have_id(
                                pre_away,
                                x,
                            ));
                        } else {
                            assert(home_skaters@[i as int].details.id == sid);
                        }
                    }
                    assert(box_members_of(
                        self.penalty_box@,
                        self.home_team,
                        self.away_team,
                    )) by {
                        assert(roster_has_id(g_pre.home_team, sid));
                    }
                }
                i = i + 1;
            }
            let ghost home_after = home_skaters@;
            proof {
                lemma_same_ids_membership(pre_home, home_skaters@);
            }
            let mut j: usize = 0;
            while j < away_skaters.len()
                invariant
                    j <= pre_away.len(),
                    away_skaters@.len() == pre_away.len(),
                    forall|k: int|
                        0 <= k < pre_away.len() ==> (#[trigger] away_skaters@[k]).details.id == (
                        #[trigger] pre_away[k]).details.id,
                    forall|k: int|
                        0 <= k < j ==> skater_stepped(
                            #[trigger] pre_away[k],
                            #[trigger] away_skaters@[k],
                            self.current_tick,
                        ),
                    forall|k: int|
                        j <= k < pre_away.len() ==> #[trigger] away_skaters@[k] == pre_away[k],
                    forall|k: int|
                        0 <= k < pre_home.len() ==> skater_stepped(
                            #[trigger] pre_home[k],
                            #[trigger] home_skaters@[k],
                            self.current_tick,
                        ),
                    home_skaters@ == home_after,
                    ids_distinct(home_skaters@),
                    ids_distinct(pre_away),
                    ids_disjoint(home_skaters@, pre_away),
                    skater_tick_shell(g_in, *self),
                    g_in.current_tick >= 1000,
                    game_roster_wf(g_in.home_team),
                    game_roster_wf(g_in.away_team),
                    rosters_disjoint(g_in.home_team, g_in.away_team),
                    g_in.period_clock <= PERIOD_DURATION,
                    fielded_from_roster(g_in.home_team, home_skaters@),
                    fielded_from_roster(g_in.away_team, away_skaters@),
                    ids_distinct(self.penalty_box@),
                    box_entries_wf(self.penalty_box@, self.current_tick),
                    box_members_of(self.penalty_box@, self.home_team, self.away_team),
                    team_coherent(self.penalty_box@, home_skaters@, self.current_tick),
                    team_coherent(self.penalty_box@, away_skaters@, self.current_tick),
                    box_subset_fielded(self.penalty_box@, home_skaters@, away_skaters@),
                    record_wf(self.game_json, self.current_tick),
                    record_open_jam(self.game_json),
                    record_frame(g_in.game_json, self.game_json),
                decreases pre_away.len() - j,
            {
                let ghost g_pre = *self;
                let mut s = away_skaters[j].clone();
                let ghost sid = s.details.id;
                proof {
                    assert(jam_skater_like(away_skaters@[j as int], s));
                }
                self.tick_skater(&mut s, false);
                proof {
                    lemma_record_frame_trans(g_in.game_json, g_pre.game_json, self.game_json);
                }
                let ghost mid_away = away_skaters@;
                away_skaters.set(j, s);
                proof {
                    lemma_same_ids_membership(mid_away, away_skaters@);
                    assert forall|k: int|
                        0 <= k < away_skaters@.len() implies jam_skater_wf(
                        #[trigger] away_skaters@[k],
                        self.current_tick,
                    ) && (skaters_have_id(self.penalty_box@, away_skaters@[k].details.id)
                        <==> is_box_activity(away_skaters@[k].activity)) by {
                        if k != j {
                            assert(away_skaters@[k] == mid_away[k]);
                            assert(mid_away[k].details.id == pre_away[k].details.id);
                            assert(sid == pre_away[j as int].details.id);
                            if k < j {
                                assert(pre_away[k].details.id != pre_away[j as int].details.id);
                            } else {
                                assert(pre_away[j as int].details.id != pre_away[k].details.id);
                            }
                            assert(mid_away[k].details.id != sid);
                            assert(skaters_have_id(g_pre.penalty_box@, mid_away[k].details.id)
                                <==> is_box_activity(mid_away[k].activity));
                        }
                    }
                    assert forall|k: int|
                        0 <= k < home_skaters@.len() implies jam_skater_wf(
                        #[trigger] home_skaters@[k],
                        self.current_tick,
                    ) && (skaters_have_id(self.penalty_box@, home_skaters@[k].details.id)
                        <==> is_box_activity(home_skaters@[k].activity)) by {
                        assert(home_skaters@[k].details.id != sid) by {
                            assert(pre_away[j as int].details.id == sid);
                        }
                    }
                    assert forall|k: int|
                        0 <= k < self.penalty_box@.len() implies (skaters_have_id(
                        home_skaters@,
                        (#[trigger] self.penalty_box@[k]).details.id,
                    ) || skaters_have_id(away_skaters@, self.penalty_box@[k].details.id)) by {
                        let x = self.penalty_box@[k].details.id;
                        if x != sid {
                            assert(skaters_have_id(g_pre.penalty_box@, x));
                            assert(skaters_have_id(home_skaters@, x) || skaters_have_id(
                                mid_away,
                                x,
                            ));
                        } else {
                            assert(away_skaters@[j as int].details.id == sid);
                        }
                    }
                    assert(box_members_of(
                        self.penalty_box@,
                        self.home_team,
                        self.away_team,
                    )) by {
                        assert(roster_has_id(g_pre.away_team, sid));
                    }
                }
                j = j + 1;
            }
            proof {
                lemma_same_ids_membership(pre_away, away_skaters@);
                assert(ids_disjoint(home_skaters@, away_skaters@)) by {
                    assert forall|a: int, b: int|
                        0 <= a < home_skaters@.len() && 0 <= b < away_skaters@.len() implies (
                    #[trigger] home_skaters@[a]).details.id != (
                    #[trigger] away_skaters@[b]).details.id by {
                        assert(home_skaters@[a].details.id == pre_home[a].details.id);
                        assert(away_skaters@[b].details.id == pre_away[b].details.id);
                        assert(pre_home[a].details.id != pre_away[b].details.id);
                    }
                }
            }
            if self.jam_called {
                let jam_end_tick = self.get_random_current_tick();
                let continued = JamInProgress {
                    start_tick,
                    home_skaters,
                    away_skaters,
                    lead_jammer_team,
                };
                self.end_jam(&continued, jam_end_tick, true)
            } else {
                GameState::JamInProgress(
                    JamInProgress { start_tick, home_skaters, away_skaters, lead_jammer_team },
                )
            }
        }
    }

    /// One tick of a lineup: the period clock counts down; when it reaches
    /// zero the interval begins, once thirty seconds of lineup have elapsed
    /// the next jam starts, and otherwise the lineup continues.
    fn tick_lineup(&mut self, lineup: &LineupInProgress) -> (next: GameState)
        requires
            old(self).core_wf(),
            old(self).current_tick >= 1000,
            1 <= lineup.start_tick <= old(self).current_tick - 1000,
            box_parked(old(self).penalty_box@),
            old(self).game_json.periods.len() > 0,
            old(self).game_json.periods@.last().jams.len() > 0,
            old(self).game_json.periods@.last().start_tick <= lineup.start_tick,
        ensures
            final(self).core_wf(),
            final(self).state_wf_for(next),
            final(self).home_team == old(self).home_team,
            final(self).away_team == old(self).away_team,
            final(self).officials == old(self).officials,
            final(self).current_tick == old(self).current_tick,
            final(self).period_clock == (if old(self).period_clock >= 1000 {
                (old(self).period_clock - 1000) as u64
            } else {
                0u64
            }),
            (next is LineupInProgress || next is JamInProgress || next is IntervalInProgress),
            (match next {
                GameState::LineupInProgress(l2) => l2.start_tick == lineup.start_tick
                    && final(self).period_clock > 0 && final(self).game_json == old(
                    self,
                ).game_json && final(self).penalty_box == old(self).penalty_box
                    && final(self).lead_is_open == old(self).lead_is_open
                    && final(self).jam_called == old(self).jam_called,
                GameState::IntervalInProgress(_) => final(self).period_clock == 0,
                GameState::JamInProgress(j) => final(self).period_clock > 0 && fielding_ok(
                    *old(self),
                    j,
                ) && jam_freshly_opened(*old(self), *final(self), j),
                _ => false,
            }),
            (final(self).period_clock > 0 && old(self).current_tick - lineup.start_tick
                >= LINEUP_DURATION) ==> next is JamInProgress,
    {
        self.period_clock = if self.period_clock >= 1000 {
            self.period_clock - 1000
        } else {
            0
        };
        let period_has_expired = self.period_clock == 0;
        if period_has_expired {
            let start_tick = self.get_random_current_tick();
            GameState::IntervalInProgress(IntervalInProgress { start_tick })
        } else {
            let should_start_new_jam = self.current_tick - lineup.start_tick >= LINEUP_DURATION;
            if should_start_new_jam {
                self.start_jam()
            } else {
                GameState::LineupInProgress(LineupInProgress { start_tick: lineup.start_tick })
            }
        }
    }

    /// The unconditional fallthrough into the terminal state: timeouts and
    /// intervals have no resumption logic, so the match ends one tick after
    /// entering either.
    fn end_game(&self) -> (next: GameState)
        ensures
            next == GameState::PostGame(PostGame { start_tick: self.current_tick }),
    {
        GameState::PostGame(PostGame { start_tick: self.current_tick })
    }

    /// One tick of the match: one simulated second passes and the state
    /// machine takes exactly one transition. Exactly one state is active
    /// before and after, well-formedness is preserved, and the termination
    /// measure shrinks until the post-game state is reached.
    pub fn tick(&mut self)
        requires
            old(self).wf(),
            old(self).current_tick + 1000 <= u64::MAX,
        ensures
            final(self).wf(),
            final(self).current_tick == old(self).current_tick + 1000,
            final(self).home_team == old(self).home_team,
            final(self).away_team == old(self).away_team,
            final(self).officials == old(self).officials,
            transition_ok(*old(self), *final(self)),
            !(old(self).state is PostGame) ==> run_measure(*final(self)) < run_measure(
                *old(self),
            ),
            final(self).state is IntervalInProgress ==> final(self).period_clock == 0,
            (match final(self).state {
                GameState::JamInProgress(j) => (old(self).state is PreGame || old(
                    self,
                ).state is LineupInProgress) ==> (fielding_ok(*old(self), j)
                    && jam_freshly_opened(*old(self), *final(self), j)),
                _ => true,
            }),
            old(self).state is PreGame ==> final(self).state is JamInProgress,
            old(self).state is PreGame ==> final(self).period_clock == PERIOD_DURATION,
            (match old(self).state {
                GameState::JamInProgress(j) => (match final(self).state {
                    GameState::JamInProgress(j2) => jam_stepped(
                        j,
                        j2,
                        (old(self).current_tick + 1000) as u64,
                    ) && !final(self).jam_called,
                    _ => true,
                }),
                _ => true,
            }),
            (old(self).state is JamInProgress || old(self).state is LineupInProgress)
                ==> final(self).period_clock == (if old(self).period_clock >= 1000 {
                (old(self).period_clock - 1000) as u64
            } else {
                0u64
            }),
    {
        self.current_tick = self.current_tick + 1000;
        proof {
            assert forall|k: int|
                0 <= k < self.penalty_box@.len() implies jam_skater_wf(
                #[trigger] self.penalty_box@[k],
                self.current_tick,
            ) by {
                assert(jam_skater_wf(old(self).penalty_box@[k], old(self).current_tick));
            }
            assert forall|k: int| 0 <= k < self.game_json.periods.len() implies period_record_wf(
                #[trigger] self.game_json.periods@[k],
                self.current_tick,
            ) by {
                assert(period_record_wf(old(self).game_json.periods@[k], old(self).current_tick));
                let p = self.game_json.periods@[k];
                assert forall|m: int| 0 <= m < p.jams.len() implies jam_record_wf(
                    #[trigger] p.jams@[m],
                    self.current_tick,
                ) by {
                    assert(jam_record_wf(p.jams@[m], old(self).current_tick));
                }
            }
        }
        let mut taken = GameState::PreGame(PreGame {});
        core::mem::swap(&mut self.state, &mut taken);
        let next = match taken {
            GameState::PreGame(_) => {
                let n = self.start_jam();
                proof {
                    assert(state_rank(n) == 3);
                }
                n
            },
            GameState::JamInProgress(jam) => {
                proof {
                    assert(old(self).state == GameState::JamInProgress(jam));
                    assert(old(self).jam_wf(jam));
                    assert(jam.start_tick <= old(self).current_tick);
                    assert(team_coherent(
                        self.penalty_box@,
                        jam.home_skaters@,
                        self.current_tick,
                    )) by {
                        assert forall|k: int|
                            0 <= k < jam.home_skaters@.len() implies jam_skater_wf(
                            #[trigger] jam.home_skaters@[k],
                            self.current_tick,
                        ) && (skaters_have_id(
                            self.penalty_box@,
                            jam.home_skaters@[k].details.id,
                        ) <==> is_box_activity(jam.home_skaters@[k].activity)) by {
                            assert(jam_skater_wf(jam.home_skaters@[k], old(self).current_tick));
                            assert(skaters_have_id(
                                old(self).penalty_box@,
                                jam.home_skaters@[k].details.id,
                            ) <==> is_box_activity(jam.home_skaters@[k].activity));
                        }
                    }
                    assert(team_coherent(
                        self.penalty_box@,
                        jam.away_skaters@,
                        self.current_tick,
                    )) by {
                        assert forall|k: int|
                            0 <= k < jam.away_skaters@.len() implies jam_skater_wf(
                            #[trigger] jam.away_skaters@[k],
                            self.current_tick,
                        ) && (skaters_have_id(
                            self.penalty_box@,
                            jam.away_skaters@[k].details.id,
                        ) <==> is_box_activity(jam.away_skaters@[k].activity)) by {
                            assert(jam_skater_wf(jam.away_skaters@[k], old(self).current_tick));
                            assert(skaters_have_id(
                                old(self).penalty_box@,
                                jam.away_skaters@[k].details.id,
                            ) <==> is_box_activity(jam.away_skaters@[k].activity));
                        }
                    }
                }
                let n = self.tick_jam(jam);
                n
            },
            GameState::LineupInProgress(lineup) => self.tick_lineup(&lineup),
            GameState::TimeoutInProgress(_) => self.end_game(),
            GameState::IntervalInProgress(_) => self.end_game(),
            GameState::PostGame(_) => self.end_game(),
        };
        self.state = next;
        proof {
            let pre = *old(self);
            let post = *self;
            assert(jam_remaining(post) <= JAM_DURATION) by {
                match post.state {
                    GameState::JamInProgress(j2) => {
                        assert(post.jam_wf(j2));
                    },
                    _ => {},
                }
            }
            assert(jam_remaining(pre) <= JAM_DURATION) by {
                match pre.state {
                    GameState::JamInProgress(j2) => {
                        assert(pre.jam_wf(j2));
                    },
                    _ => {},
                }
            }
            if !(pre.state is PostGame) {
                match pre.state {
                    GameState::PreGame(_) => {
                        assert(post.period_clock <= PERIOD_DURATION);
                        assert(run_measure(post) < run_measure(pre));
                    },
                    GameState::JamInProgress(j) => {
                        assert(post.period_clock <= pre.period_clock);
                        match post.state {
                            GameState::JamInProgress(j2) => {
                                assert(j2.start_tick == j.start_tick);
                                assert(jam_remaining(post) + 1000 <= jam_remaining(pre));
                                assert(run_measure(post) < run_measure(pre));
                            },
                            _ => {
                                assert(state_rank(post.state) < state_rank(pre.state));
                                assert(run_measure(post) < run_measure(pre));
                            },
                        }
                    },
                    GameState::LineupInProgress(_) => {
                        match post.state {
                            GameState::LineupInProgress(_) => {
                                assert(post.period_clock > 0);
                                assert(pre.period_clock >= 1000);
                                assert(run_measure(post) < run_measure(pre));
                            },
                            GameState::JamInProgress(_) => {
                                assert(post.period_clock > 0);
                                assert(pre.period_clock >= 1000);
                                assert(post.period_clock == pre.period_clock - 1000);
                                assert(run_measure(post) < run_measure(pre));
                            },
                            _ => {
                                assert(post.period_clock <= pre.period_clock);
                                assert(state_rank(post.state) < state_rank(pre.state));
                                assert(run_measure(post) < run_measure(pre));
                            },
                        }
                    },
                    _ => {
                        assert(post.period_clock == pre.period_clock);
                        assert(state_rank(post.state) < state_rank(pre.state));
                        assert(run_measure(post) < run_measure(pre));
                    },
                }
            }
        }
    }

    /// Runs the match to completion: ticks until the post-game state. The
    /// whole run is one chain of `tick` transitions, witnessed by a trace
    /// from the starting match to the finished one.
    pub fn run(&mut self)
        requires
            old(self).wf(),
            old(self).current_tick <= 1_000_000_000,
        ensures
            final(self).wf(),
            final(self).state is PostGame,
            exists|tr: Seq<Game>|
                tr.len() >= 1 && tr[0] == *old(self) && tr.last() == *final(self) && #[trigger]
                tick_trace(tr),
    {
        let ghost mut trace: Seq<Game> = seq![*self];
        let mut done = match self.state {
            GameState::PostGame(_) => true,
            _ => false,
        };
        while !done
            invariant
                self.wf(),
                done == (self.state is PostGame),
                self.current_tick + 1000 * run_measure(*self) <= 1_000_000_000
                    + 0x400_0000_0000_0000,
                run_measure(*self) >= 0,
                trace.len() >= 1,
                trace[0] == *old(self),
                trace.last() == *self,
                tick_trace(trace),
            decreases run_measure(*self),
        {
            let ghost prev = *self;
            self.tick();
            proof {
                let pre_trace = trace;
                trace = trace.push(*self);
                assert(tick_rel(prev, *self));
                assert forall|m: int| 0 <= m < trace.len() - 1 implies tick_rel(
                    #[trigger] trace[m],
                    trace[m + 1],
                ) by {
                    if m < pre_trace.len() - 1 {
                        assert(trace[m] == pre_trace[m]);
                        assert(trace[m + 1] == pre_trace[m + 1]);
                        assert(tick_rel(pre_trace[m], pre_trace[m + 1]));
                    } else {
                        assert(trace[m] == pre_trace.last());
                        assert(trace[m + 1] == *self);
                    }
                }
            }
            done = match self.state {
                GameState::PostGame(_) => true,
                _ => false,
            };
        }
        proof {
            assert(trace.len() >= 1 && trace[0] == *old(self) && trace.last() == *self
                && tick_trace(trace));
        }
    }

    /// Builds one randomized team and wraps its roster in the persistent
    /// per-skater records, with full timeouts and the official review in hand.
    fn get_random_team(source: &mut rand::rngs::StdRng, team_id: u64, base_id: u64) -> (gt:
        GameTeam)
        requires
            base_id + 15 <= u64::MAX,
        ensures
            game_roster_wf(gt),
            8 <= gt.roster@.len() <= 15,
            forall|k: int| 0 <= k < gt.roster@.len() ==> (#[trigger] gt.roster@[k]).details.id
                == base_id + k,
            gt.timeouts_remaining == 3,
            gt.has_official_review,
            !gt.official_review_retained,
            gt.details.roster@.len() == gt.roster@.len(),
            forall|k: int|
                0 <= k < gt.roster@.len() ==> (skater_like(
                    (#[trigger] gt.roster@[k]).details,
                    gt.details.roster@[k],
                ) && gt.roster@[k].penalties@.len() == 0 && gt.roster@[k].last_jam_tick == 0),
            forall|k: int| 0 <= k < gt.roster@.len() ==> skater_drawn(
                (#[trigger] gt.roster@[k]).details,
            ),
    {
        let team = Team::random(source, team_id, base_id);
        let mut roster: Vec<GameSkater> = Vec::new();
        let mut i: usize = 0;
        while i < team.roster.len()
            invariant
                i <= team.roster@.len(),
                crate::team::roster_wf(team.roster@, base_id),
                8 <= team.roster@.len() <= 15,
                forall|k: int| 0 <= k < team.roster@.len() ==> skater_drawn(
                    #[trigger] team.roster@[k],
                ),
                roster@.len() == i,
                forall|k: int| 0 <= k < i ==> (#[trigger] roster@[k]).details.id == base_id + k,
                forall|k: int| 0 <= k < i ==> skater_wf((#[trigger] roster@[k]).details),
                forall|k: int|
                    0 <= k < i ==> (skater_like(
                        (#[trigger] roster@[k]).details,
                        team.roster@[k],
                    ) && roster@[k].penalties@.len() == 0 && roster@[k].last_jam_tick == 0),
                forall|k: int| 0 <= k < i ==> skater_drawn((#[trigger] roster@[k]).details),
            decreases team.roster@.len() - i,
        {
            roster.push(
                GameSkater {
                    details: team.roster[i].clone(),
                    penalties: Vec::new(),
                    last_jam_tick: 0,
                },
            );
            i = i + 1;
        }
        GameTeam {
            details: team,
            timeouts_remaining: 3,
            has_official_review: true,
            official_review_retained: false,
            roster,
        }
    }

    /// Builds a whole randomized match from the given random stream: two
    /// rosters, the officiating crew (copied into the record), and a
    /// pre-game state with the clocks at zero and the penalty box empty.
    pub fn random(random_source: rand::rngs::StdRng) -> (game: Game)
        ensures
            game.wf(),
            game.state is PreGame,
            game.current_tick == 0,
            game.period_clock == 0,
            game.penalty_box@.len() == 0,
            game.game_json.periods@.len() == 0,
            8 <= game.home_team.roster@.len() <= 15,
            8 <= game.away_team.roster@.len() <= 15,
            !game.lead_is_open,
            !game.jam_called,
            game.officials@.len() == 18,
            game.game_json.officials_crew@.len() == 18,
            forall|i: int|
                0 <= i < 18 ==> official_like(
                    #[trigger] game.game_json.officials_crew@[i],
                    game.officials@[i],
                ),
    {
        let mut source = random_source;
        let home_team = Self::get_random_team(&mut source, 1, 10);
        let away_team = Self::get_random_team(&mut source, 2, 100);
        let officials = Official::random_crew(&mut source, 200);
        let mut game_json = GameJson::new();
        let mut i: usize = 0;
        while i < officials.len()
            invariant
                i <= officials@.len(),
                game_json.officials_crew@.len() == i,
                game_json.periods@.len() == 0,
                forall|k: int|
                    0 <= k < i ==> official_like(
                        #[trigger] game_json.officials_crew@[k],
                        officials@[k],
                    ),
            decreases officials@.len() - i,
        {
            game_json.add_official(officials[i].clone());
            i = i + 1;
        }
        proof {
            assert forall|id: u64| #[trigger] roster_has_id(home_team, id) implies !roster_has_id(
                away_team,
                id,
            ) by {
                if roster_has_id(home_team, id) && roster_has_id(away_team, id) {
                    let a = choose|a: int|
                        0 <= a < home_team.roster@.len() && (
                        #[trigger] home_team.roster@[a]).details.id == id;
                    let b = choose|b: int|
                        0 <= b < away_team.roster@.len() && (
                        #[trigger] away_team.roster@[b]).details.id == id;
                    assert(home_team.roster@[a].details.id < 25);
                    assert(away_team.roster@[b].details.id >= 100);
                }
            }
        }
        Game {
            random_source: source,
            home_team,
            away_team,
            officials,
            game_json,
            state: GameState::PreGame(PreGame {  }),
            current_tick: 0,
            period_clock: 0,
            penalty_box: Vec::new(),
            lead_is_open: false,
            jam_called: false,
        }
    }

    /// Whether a roster is fit for simulation: at least five skaters, all
    /// within the tunable bounds, identities pairwise distinct.
    fn roster_acceptable(roster: &Vec<GameSkater>) -> (r: bool)
        ensures
            r == (5 <= roster@.len() && (forall|i: int, j: int|
                0 <= i < j < roster@.len() ==> (#[trigger] roster@[i]).details.id != (
                #[trigger] roster@[j]).details.id) && (forall|i: int|
                0 <= i < roster@.len() ==> skater_wf((#[trigger] roster@[i]).details))),
    {
        if roster.len() < 5 {
            return false;
        }
        let mut i: usize = 0;
        while i < roster.len()
            invariant
                i <= roster@.len(),
                forall|a: int, b: int|
                    0 <= a < b < roster@.len() && a < i ==> (#[trigger] roster@[a]).details.id != (
                    #[trigger] roster@[b]).details.id,
                forall|a: int| 0 <= a < i ==> skater_wf((#[trigger] roster@[a]).details),
            decreases roster@.len() - i,
        {
            let s = &roster[i];
            if s.details.base_speed < 15_000 || s.details.base_speed > 20_000
                || s.details.penalty_chance_ppm > 1_000_000 {
                return false;
            }
            let mut j: usize = i + 1;
            while j < roster.len()
                invariant
                    i < j <= roster@.len(),
                    i < roster@.len(),
                    forall|b: int| i < b < j ==> (#[trigger] roster@[b]).details.id
                        != roster@[i as int].details.id,
                decreases roster@.len() - j,
            {
                if roster[j].details.id == roster[i].details.id {
                    return false;
                }
                j = j + 1;
            }
            i = i + 1;
        }
        true
    }

    /// Whether any identity appears in both rosters.
    fn rosters_overlap(a: &Vec<GameSkater>, b: &Vec<GameSkater>) -> (r: bool)
        ensures
            r == (exists|i: int|
                0 <= i < a@.len() && roster_has_id_seq(b@, (#[trigger] a@[i]).details.id)),
    {
        let mut i: usize = 0;
        while i < a.len()
            invariant
                i <= a@.len(),
                forall|k: int| 0 <= k < i ==> !roster_has_id_seq(b@, (#[trigger] a@[k]).details.id),
            decreases a@.len() - i,
        {
            let mut j: usize = 0;
            let id = a[i].details.id;
            while j < b.len()
                invariant
                    j <= b@.len(),
                    i < a@.len(),
                    id == a@[i as int].details.id,
                    forall|k: int| 0 <= k < j ==> (#[trigger] b@[k]).details.id != id,
                decreases b@.len() - j,
            {
                if b[j].details.id == id {
                    proof {
                        assert(roster_has_id_seq(b@, id));
                    }
                    return true;
                }
                j = j + 1;
            }
            i = i + 1;
        }
        false
    }

    /// Builds a match from externally supplied teams and officials, after
    /// validating the rosters: each team needs at least five skaters within
    /// the tunable bounds, and no identity may repeat within or across the
    /// rosters. Returns the ready pre-game match, or nothing exactly when
    /// validation fails — the fatal configuration error the rules require to
    /// be reported before simulation, never tolerated during it.
    pub fn from_teams(
        random_source: rand::rngs::StdRng,
        home: Team,
        away: Team,
        officials: Vec<Official>,
    ) -> (r: Option<Game>)
        ensures
            (match r {
                Some(game) => {
                    &&& game.wf()
                    &&& game.state is PreGame
                    &&& game.current_tick == 0
                    &&& game.period_clock == 0
                    &&& game.penalty_box@.len() == 0
                    &&& game.game_json.periods@.len() == 0
                    &&& game.home_team.details == home
                    &&& game.away_team.details == away
                    &&& game.home_team.roster@.len() == home.roster@.len()
                    &&& game.away_team.roster@.len() == away.roster@.len()
                },
                None => true,
            }),
            r is Some <==> (roster_acceptable_spec(home.roster@) && roster_acceptable_spec(
                away.roster@,
            ) && supplied_rosters_disjoint(home.roster@, away.roster@)),
    {
        let ghost home_roster = home.roster@;
        let ghost away_roster = away.roster@;
        let source = random_source;
        let home_wrapped = Self::wrap_roster(&home.roster);
        let away_wrapped = Self::wrap_roster(&away.roster);
        let home_team = GameTeam {
            details: home,
            timeouts_remaining: 3,
            has_official_review: true,
            official_review_retained: false,
            roster: home_wrapped,
        };
        let away_team = GameTeam {
            details: away,
            timeouts_remaining: 3,
            has_official_review: true,
            official_review_retained: false,
            roster: away_wrapped,
        };
        proof {
            lemma_wrapped_acceptable(home_team.roster@, home_roster);
            lemma_wrapped_acceptable(away_team.roster@, away_roster);
            lemma_wrapped_overlap(home_team.roster@, away_team.roster@, home_roster, away_roster);
        }
        if !Self::roster_acceptable(&home_team.roster) || !Self::roster_acceptable(
            &away_team.roster,
        ) {
            return None;
        }
        if Self::rosters_overlap(&home_team.roster, &away_team.roster) {
            return None;
        }
        proof {
            assert forall|id: u64| #[trigger] roster_has_id(home_team, id) implies !roster_has_id(
                away_team,
                id,
            ) by {
                if roster_has_id(home_team, id) && roster_has_id(away_team, id) {
                    let a = choose|a: int|
                        0 <= a < home_team.roster@.len() && (
                        #[trigger] home_team.roster@[a]).details.id == id;
                    assert(roster_has_id_seq(away_team.roster@, home_team.roster@[a].details.id));
                }
            }
        }
        let mut game_json = GameJson::new();
        let mut i: usize = 0;
        while i < officials.len()
            invariant
                i <= officials@.len(),
                game_json.periods@.len() == 0,
            decreases officials@.len() - i,
        {
            game_json.add_official(officials[i].clone());
            i = i + 1;
        }
        Some(
            Game {
                random_source: source,
                home_team,
                away_team,
                officials,
                game_json,
                state: GameState::PreGame(PreGame {  }),
                current_tick: 0,
                period_clock: 0,
                penalty_box: Vec::new(),
                lead_is_open: false,
                jam_called: false,
            },
        )
    }

    /// Wraps bare skaters in the persistent per-skater records.
    fn wrap_roster(roster: &Vec<Skater>) -> (r: Vec<GameSkater>)
        ensures
            r@.len() == roster@.len(),
            forall|k: int| 0 <= k < roster@.len() ==> skater_like(
                (#[trigger] r@[k]).details,
                roster@[k],
            ),
    {
        let mut wrapped: Vec<GameSkater> = Vec::new();
        let mut i: usize = 0;
        while i < roster.len()
            invariant
                i <= roster@.len(),
                wrapped@.len() == i,
                forall|k: int| 0 <= k < i ==> skater_like(
                    (#[trigger] wrapped@[k]).details,
                    roster@[k],
                ),
            decreases roster@.len() - i,
        {
            wrapped.push(
                GameSkater {
                    details: roster[i].clone(),
                    penalties: Vec::new(),
                    last_jam_tick: 0,
                },
            );
            i = i + 1;
        }
        wrapped
    }

    /// One tick for one fielded skater: dispatches on the current activity
    /// and stores the successor activity. Penalty-box membership stays
    /// coherent with the stored activity, and the box changes at most at this
    /// skater's identity.
    fn tick_skater(&mut self, skater: &mut JamSkater, is_home_team: bool)
        requires
            old(self).current_tick >= 1000,
            ids_distinct(old(self).penalty_box@),
            (skaters_have_id(old(self).penalty_box@, old(skater).details.id) <==> is_box_activity(
                old(skater).activity,
            )),
            skater_wf(old(skater).details),
            activity_wf(old(skater).activity, old(self).current_tick),
            record_open_jam(old(self).game_json),
        ensures
            skater_tick_shell(*old(self), *final(self)),
            box_delta_ok(*old(self), *final(self), old(skater).details.id),
            (skaters_have_id(final(self).penalty_box@, old(skater).details.id)
                <==> is_box_activity(final(skater).activity)),
            skater_like(final(skater).details, old(skater).details),
            final(skater).position == old(skater).position,
            activity_wf(final(skater).activity, final(self).current_tick),
            record_tick_ok(old(self).game_json, final(self).game_json, old(self).current_tick),
            activity_step(
                old(skater).position,
                old(skater).details.base_speed,
                old(self).current_tick,
                old(skater).activity,
                final(skater).activity,
            ),
    {
        let current_activity = skater.activity;
        let act = match current_activity {
            SkaterActivity::SkatingOnTrack(on_track) => {
                self.tick_on_track_skater(&on_track, skater, is_home_team)
            },
            SkaterActivity::SkatingToBox(to_box) => {
                let act = self.tick_skating_to_box_skater(&to_box, skater);
                proof {
                    lemma_box_delta_refl(*old(self), *self, old(skater).details.id);
                }
                act
            },
            SkaterActivity::SatInBox(sat_in_box) => {
                self.tick_sat_in_box_skater(&sat_in_box, skater)
            },
            SkaterActivity::ReturningFromBox(returning) => {
                self.tick_returning_from_box_skater(&returning, skater)
            },
            SkaterActivity::HeldInBox(held_in_box) => {
                let act = self.tick_held_in_box_skater(&held_in_box);
                proof {
                    lemma_box_delta_refl(*old(self), *self, old(skater).details.id);
                }
                act
            },
        };
        skater.activity = act;
    }
}

} // verus!
