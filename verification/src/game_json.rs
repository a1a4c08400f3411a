//! The play-by-play record: an append-only tree of periods, jams, team-jams
//! and scoring trips that the engine pushes completed structure into. Only
//! the tail entry of each level is ever mutated. The exporter consumes it
//! after the simulation ends.

use vstd::prelude::*;

use crate::official::Official;

verus! {

/// One scoring trip of a jammer: when it began, how long it ran, and the
/// points it earned (0 to 4).
#[derive(Debug, PartialEq)]
pub struct TripJson {
    pub after_star_pass: bool,
    pub start_tick: u64,
    pub duration: u64,
    pub score: u8,
}

/// A fielded skater as the record keeps it: identity key and number.
#[derive(Debug, PartialEq)]
pub struct FieldingSkaterJson {
    pub skater_id: u64,
    pub number: String,
}

/// The five fielded slots of one team for one jam.
#[derive(Debug, PartialEq)]
pub struct TeamJamFielding {
    pub jammer: FieldingSkaterJson,
    pub pivot: FieldingSkaterJson,
    pub blocker1: FieldingSkaterJson,
    pub blocker2: FieldingSkaterJson,
    pub blocker3: FieldingSkaterJson,
}

/// One team's side of a jam: its fielding snapshot, whether its jammer earned
/// lead and whether it called the jam off, and its ordered scoring trips.
#[derive(Debug, PartialEq)]
pub struct TeamJamJson {
    pub fielding: TeamJamFielding,
    pub called_off: bool,
    pub is_lead: bool,
    pub trips: Vec<TripJson>,
}

/// One jam: its bounds and both team-jams. An `end_tick` of zero marks the
/// jam still open (real end ticks are positive).
#[derive(Debug, PartialEq)]
pub struct JamJson {
    pub start_tick: u64,
    pub end_tick: u64,
    pub home_team_jam: TeamJamJson,
    pub away_team_jam: TeamJamJson,
}

/// One period: when it began, its recorded duration, and its jams.
#[derive(Debug, PartialEq)]
pub struct PeriodJson {
    pub start_tick: u64,
    pub duration: u64,
    pub jams: Vec<JamJson>,
}

/// The whole record: the officiating crew and the periods played.
#[derive(Debug, PartialEq)]
pub struct GameJson {
    pub officials_crew: Vec<Official>,
    pub periods: Vec<PeriodJson>,
}

/// The standing shape of one team-jam's trips at tick `now`: every trip began
/// by `now` with a score of at most four points, and trip start ticks are
/// non-decreasing in record order.
pub open spec fn trips_wf(trips: Seq<TripJson>, now: u64) -> bool {
    &&& forall|i: int| 0 <= i < trips.len() ==> (#[trigger] trips[i]).start_tick <= now
    &&& forall|i: int| 0 <= i < trips.len() ==> (#[trigger] trips[i]).score <= 4
    &&& forall|i: int, j: int|
        0 <= i <= j < trips.len() ==> #[trigger] trips[i].start_tick
            <= #[trigger] trips[j].start_tick
}

/// The standing shape of one jam record at tick `now`: both trip lists are
/// well formed, the jam began by `now`, and a closed jam's recorded span never
/// exceeds the two-minute jam limit.
pub open spec fn jam_record_wf(j: JamJson, now: u64) -> bool {
    &&& trips_wf(j.home_team_jam.trips@, now)
    &&& trips_wf(j.away_team_jam.trips@, now)
    &&& j.start_tick <= now
    &&& j.end_tick != 0 ==> j.start_tick <= j.end_tick <= j.start_tick + 120_000
}

/// The standing shape of one period record at tick `now`: it began no later
/// than any of its jams, and every jam in it is well formed.
pub open spec fn period_record_wf(p: PeriodJson, now: u64) -> bool {
    &&& p.start_tick <= now
    &&& forall|i: int| 0 <= i < p.jams.len() ==> jam_record_wf(#[trigger] p.jams[i], now)
    &&& forall|i: int| 0 <= i < p.jams.len() ==> p.start_tick <= (#[trigger] p.jams[i]).start_tick
}

/// The standing shape of the whole record at tick `now`.
pub open spec fn record_wf(g: GameJson, now: u64) -> bool {
    forall|i: int| 0 <= i < g.periods.len() ==> period_record_wf(#[trigger] g.periods[i], now)
}

/// The open shape the record has while a jam is in progress: there is a
/// current period, it holds a current jam, that jam is still open, and both
/// of its team-jams have a current trip.
pub open spec fn record_open_jam(g: GameJson) -> bool {
    &&& g.periods.len() > 0
    &&& g.periods@.last().jams.len() > 0
    &&& g.periods@.last().jams@.last().end_tick == 0
    &&& g.periods@.last().jams@.last().home_team_jam.trips.len() > 0
    &&& g.periods@.last().jams@.last().away_team_jam.trips.len() > 0
}

/// The current jam's team-jam for one side.
pub open spec fn team_jam_of(g: GameJson, is_home_team: bool) -> TeamJamJson {
    if is_home_team {
        g.periods@.last().jams@.last().home_team_jam
    } else {
        g.periods@.last().jams@.last().away_team_jam
    }
}

/// Two records that agree everywhere except possibly inside the current jam's
/// two team-jams: same crew, same periods but the last, same jams but the
/// last, and the current jam's bounds unchanged.
pub open spec fn record_frame(a: GameJson, b: GameJson) -> bool {
    &&& a.periods.len() > 0
    &&& a.periods@.last().jams.len() > 0
    &&& b.officials_crew == a.officials_crew
    &&& b.periods.len() == a.periods.len()
    &&& (forall|i: int| 0 <= i < a.periods.len() - 1 ==> #[trigger] b.periods@[i] == a.periods@[i])
    &&& b.periods@.last().start_tick == a.periods@.last().start_tick
    &&& b.periods@.last().duration == a.periods@.last().duration
    &&& b.periods@.last().jams.len() == a.periods@.last().jams.len()
    &&& (forall|i: int|
        0 <= i < a.periods@.last().jams.len() - 1 ==> #[trigger] b.periods@.last().jams@[i]
            == a.periods@.last().jams@[i])
    &&& b.periods@.last().jams@.last().start_tick == a.periods@.last().jams@.last().start_tick
    &&& b.periods@.last().jams@.last().end_tick == a.periods@.last().jams@.last().end_tick
}

/// A frame-respecting change keeps the whole record well formed as long as
/// the two current team-jams' trips stay well formed.
pub proof fn lemma_record_frame_preserves_wf(a: GameJson, b: GameJson, now: u64)
    requires
        record_frame(a, b),
        record_wf(a, now),
        trips_wf(team_jam_of(b, true).trips@, now),
        trips_wf(team_jam_of(b, false).trips@, now),
    ensures
        record_wf(b, now),
{
    assert forall|i: int| 0 <= i < b.periods.len() implies period_record_wf(
        #[trigger] b.periods@[i],
        now,
    ) by {
        assert(period_record_wf(a.periods@[i], now));
        if i < a.periods.len() - 1 {
            assert(b.periods@[i] == a.periods@[i]);
        } else {
            let pa = a.periods@.last();
            let pb = b.periods@.last();
            assert(b.periods@[i] == pb);
            assert(a.periods@[i] == pa);
            assert forall|j: int| 0 <= j < pb.jams.len() implies jam_record_wf(
                #[trigger] pb.jams@[j],
                now,
            ) && pb.start_tick <= pb.jams@[j].start_tick by {
                assert(jam_record_wf(pa.jams@[j], now));
                assert(pa.start_tick <= pa.jams@[j].start_tick);
                if j < pa.jams.len() - 1 {
                    assert(pb.jams@[j] == pa.jams@[j]);
                } else {
                    assert(pb.jams@[j] == pb.jams@.last());
                    assert(pa.jams@[j] == pa.jams@.last());
                }
            }
        }
    }
}

/// The record frame relation is transitive.
pub proof fn lemma_record_frame_trans(a: GameJson, b: GameJson, c: GameJson)
    requires
        record_frame(a, b),
        record_frame(b, c),
    ensures
        record_frame(a, c),
{
    assert forall|i: int| 0 <= i < a.periods.len() - 1 implies #[trigger] c.periods@[i]
        == a.periods@[i] by {
        assert(b.periods@[i] == a.periods@[i]);
        assert(c.periods@[i] == b.periods@[i]);
    }
    assert forall|i: int|
        0 <= i < a.periods@.last().jams.len() - 1 implies #[trigger] c.periods@.last().jams@[i]
        == a.periods@.last().jams@[i] by {
        assert(b.periods@.last().jams@[i] == a.periods@.last().jams@[i]);
        assert(c.periods@.last().jams@[i] == b.periods@.last().jams@[i]);
    }
}

/// Rewriting only the last trip's score (to at most four) and duration keeps
/// a trip list well formed.
pub proof fn lemma_trips_score_wf(pre: Seq<TripJson>, post: Seq<TripJson>, now: u64)
    requires
        trips_wf(pre, now),
        pre.len() > 0,
        post.len() == pre.len(),
        forall|i: int| 0 <= i < pre.len() - 1 ==> #[trigger] post[i] == pre[i],
        post.last().start_tick == pre.last().start_tick,
        post.last().score <= 4,
    ensures
        trips_wf(post, now),
{
    assert forall|i: int| 0 <= i < post.len() implies (#[trigger] post[i]).start_tick <= now && (
    #[trigger] post[i]).score <= 4 by {
        assert(pre[i].start_tick <= now && pre[i].score <= 4);
    }
    assert forall|i: int, j: int| 0 <= i <= j < post.len() implies #[trigger] post[i].start_tick
        <= #[trigger] post[j].start_tick by {
        assert(pre[i].start_tick <= pre[j].start_tick);
    }
}

/// Appending a trip whose start is between the previous last start and `now`,
/// with a zero score, keeps a trip list well formed.
pub proof fn lemma_trips_push_wf(pre: Seq<TripJson>, post: Seq<TripJson>, now: u64)
    requires
        trips_wf(pre, now),
        pre.len() > 0,
        post.len() == pre.len() + 1,
        forall|i: int| 0 <= i < pre.len() ==> #[trigger] post[i] == pre[i],
        post.last().score == 0,
        pre.last().start_tick <= post.last().start_tick <= now,
    ensures
        trips_wf(post, now),
{
    assert forall|i: int| 0 <= i < post.len() implies (#[trigger] post[i]).start_tick <= now && (
    #[trigger] post[i]).score <= 4 by {
        if i < pre.len() {
            assert(pre[i].start_tick <= now && pre[i].score <= 4);
        }
    }
    assert forall|i: int, j: int| 0 <= i <= j < post.len() implies #[trigger] post[i].start_tick
        <= #[trigger] post[j].start_tick by {
        if j < pre.len() {
            assert(pre[i].start_tick <= pre[j].start_tick);
        } else if i < pre.len() {
            assert(pre[i].start_tick <= pre[pre.len() - 1].start_tick);
        }
    }
}

impl TeamJamJson {
    /// Mutable access to the still-open (last) trip.
    pub fn current_trip_mut(&mut self) -> (trip: &mut TripJson)
        requires
            old(self).trips.len() > 0,
        ensures
            *trip == old(self).trips@.last(),
            final(self).trips@ == old(self).trips@.update(
                old(self).trips.len() - 1,
                *final(trip),
            ),
            final(self).fielding == old(self).fielding,
            final(self).called_off == old(self).called_off,
            final(self).is_lead == old(self).is_lead,
    {
        let i = self.trips.len() - 1;
        &mut self.trips[i]
    }

    /// How many trips this team-jam has recorded.
    pub fn trip_count(&self) -> (n: usize)
        ensures
            n == self.trips.len(),
    {
        self.trips.len()
    }

    /// The start tick of the still-open (last) trip.
    pub fn current_trip_start(&self) -> (t: u64)
        requires
            self.trips.len() > 0,
        ensures
            t == self.trips@.last().start_tick,
    {
        self.trips[self.trips.len() - 1].start_tick
    }

    /// Opens a new scoring trip at `start_tick`, score zero.
    pub fn add_trip(&mut self, start_tick: u64)
        ensures
            final(self).trips@ == old(self).trips@.push(
                TripJson { after_star_pass: false, start_tick, duration: 0, score: 0 },
            ),
            final(self).fielding == old(self).fielding,
            final(self).called_off == old(self).called_off,
            final(self).is_lead == old(self).is_lead,
    {
        self.trips.push(
            TripJson { after_star_pass: false, start_tick: start_tick, duration: 0, score: 0 },
        );
    }
}

impl PeriodJson {
    /// Mutable access to the current (last) jam.
    pub fn current_jam_mut(&mut self) -> (jam: &mut JamJson)
        requires
            old(self).jams.len() > 0,
        ensures
            *jam == old(self).jams@.last(),
            final(self).jams@ == old(self).jams@.update(old(self).jams.len() - 1, *final(jam)),
            final(self).start_tick == old(self).start_tick,
            final(self).duration == old(self).duration,
    {
        let i = self.jams.len() - 1;
        &mut self.jams[i]
    }

    /// How many jams this period has recorded.
    pub fn jam_count(&self) -> (n: usize)
        ensures
            n == self.jams.len(),
    {
        self.jams.len()
    }

    /// Opens a new jam at `start_tick` with the two fielding snapshots; both
    /// team-jams start with no trips, no lead and no call-off.
    pub fn add_jam(
        &mut self,
        start_tick: u64,
        home_team_fielding: TeamJamFielding,
        away_team_fielding: TeamJamFielding,
    )
        ensures
            final(self).jams.len() == old(self).jams.len() + 1,
            final(self).jams@.subrange(0, old(self).jams.len() as int) == old(self).jams@,
            final(self).jams@.last() == (JamJson {
                start_tick,
                end_tick: 0,
                home_team_jam: TeamJamJson {
                    fielding: home_team_fielding,
                    called_off: false,
                    is_lead: false,
                    trips: final(self).jams@.last().home_team_jam.trips,
                },
                away_team_jam: TeamJamJson {
                    fielding: away_team_fielding,
                    called_off: false,
                    is_lead: false,
                    trips: final(self).jams@.last().away_team_jam.trips,
                },
            }),
            final(self).jams@.last().home_team_jam.trips@.len() == 0,
            final(self).jams@.last().away_team_jam.trips@.len() == 0,
            final(self).start_tick == old(self).start_tick,
            final(self).duration == old(self).duration,
    {
        self.jams.push(
            JamJson {
                start_tick: start_tick,
                end_tick: 0,
                home_team_jam: TeamJamJson {
                    fielding: home_team_fielding,
                    called_off: false,
                    is_lead: false,
                    trips: Vec::new(),
                },
                away_team_jam: TeamJamJson {
                    fielding: away_team_fielding,
                    called_off: false,
                    is_lead: false,
                    trips: Vec::new(),
                },
            },
        );
        proof {
            assert(final(self).jams@.subrange(0, old(self).jams.len() as int) =~= old(
                self,
            ).jams@);
        }
    }
}

impl GameJson {
    /// An empty record: no officials, no periods.
    pub fn new() -> (g: GameJson)
        ensures
            g.officials_crew.len() == 0,
            g.periods.len() == 0,
    {
        GameJson { officials_crew: Vec::new(), periods: Vec::new() }
    }

    /// Mutable access to the current (last) period.
    pub fn current_period_mut(&mut self) -> (period: &mut PeriodJson)
        requires
            old(self).periods.len() > 0,
        ensures
            *period == old(self).periods@.last(),
            final(self).periods@ == old(self).periods@.update(
                old(self).periods.len() - 1,
                *final(period),
            ),
            final(self).officials_crew == old(self).officials_crew,
    {
        let i = self.periods.len() - 1;
        &mut self.periods[i]
    }

    /// Opens a new period at `start_tick` with no jams yet.
    pub fn add_period(&mut self, start_tick: u64)
        ensures
            final(self).periods@ == old(self).periods@.push(
                PeriodJson { start_tick, duration: 0, jams: final(self).periods@.last().jams },
            ),
            final(self).periods@.last().jams.len() == 0,
            final(self).periods@.last().start_tick == start_tick,
            final(self).periods@.last().duration == 0,
            final(self).officials_crew == old(self).officials_crew,
    {
        self.periods.push(PeriodJson { start_tick: start_tick, duration: 0, jams: Vec::new() });
    }

    /// Mutable access to the current jam's team-jam for one side.
    pub fn current_team_jam_mut(&mut self, is_home_team: bool) -> (tj: &mut TeamJamJson)
        requires
            old(self).periods.len() > 0,
            old(self).periods@.last().jams.len() > 0,
        ensures
            *tj == team_jam_of(*old(self), is_home_team),
            team_jam_of(*final(self), is_home_team) == *final(tj),
            team_jam_of(*final(self), !is_home_team) == team_jam_of(*old(self), !is_home_team),
            record_frame(*old(self), *final(self)),
    {
        let period = self.current_period_mut();
        let jam = period.current_jam_mut();
        if is_home_team {
            &mut jam.home_team_jam
        } else {
            &mut jam.away_team_jam
        }
    }

    /// Sets the lead flag of the current jam's team-jam for one side; nothing
    /// else in the record changes.
    pub fn set_current_lead(&mut self, is_home_team: bool, value: bool)
        requires
            old(self).periods.len() > 0,
            old(self).periods@.last().jams.len() > 0,
        ensures
            record_frame(*old(self), *final(self)),
            team_jam_of(*final(self), is_home_team) == (TeamJamJson {
                is_lead: value,
                ..team_jam_of(*old(self), is_home_team)
            }),
            team_jam_of(*final(self), !is_home_team) == team_jam_of(*old(self), !is_home_team),
    {
        let team_jam = self.current_team_jam_mut(is_home_team);
        team_jam.is_lead = value;
    }

    /// Sets the called-off flag of the current jam's team-jam for one side;
    /// nothing else in the record changes.
    pub fn set_current_called_off(&mut self, is_home_team: bool, value: bool)
        requires
            old(self).periods.len() > 0,
            old(self).periods@.last().jams.len() > 0,
        ensures
            record_frame(*old(self), *final(self)),
            team_jam_of(*final(self), is_home_team) == (TeamJamJson {
                called_off: value,
                ..team_jam_of(*old(self), is_home_team)
            }),
            team_jam_of(*final(self), !is_home_team) == team_jam_of(*old(self), !is_home_team),
    {
        let team_jam = self.current_team_jam_mut(is_home_team);
        team_jam.called_off = value;
    }

    /// Marks the current trip of one side's team-jam as a completed scoring
    /// pass: four points, with a duration measured from the trip's start to
    /// `pass_completion_tick` (zero if the pass is stamped before the start).
    pub fn score_current_trip(&mut self, is_home_team: bool, pass_completion_tick: u64)
        requires
            old(self).periods.len() > 0,
            old(self).periods@.last().jams.len() > 0,
            team_jam_of(*old(self), is_home_team).trips.len() > 0,
        ensures
            record_frame(*old(self), *final(self)),
            team_jam_of(*final(self), !is_home_team) == team_jam_of(*old(self), !is_home_team),
            ({
                let pre = team_jam_of(*old(self), is_home_team);
                let post = team_jam_of(*final(self), is_home_team);
                &&& post.fielding == pre.fielding
                &&& post.called_off == pre.called_off
                &&& post.is_lead == pre.is_lead
                &&& post.trips.len() == pre.trips.len()
                &&& (forall|i: int|
                    0 <= i < pre.trips.len() - 1 ==> #[trigger] post.trips@[i] == pre.trips@[i])
                &&& post.trips@.last().start_tick == pre.trips@.last().start_tick
                &&& post.trips@.last().score == 4
            }),
    {
        let team_jam = self.current_team_jam_mut(is_home_team);
        let trip = team_jam.current_trip_mut();
        trip.score = 4;
        trip.duration = if trip.start_tick < pass_completion_tick {
            pass_completion_tick - trip.start_tick
        } else {
            0
        };
    }

    /// Opens a new scoring trip on one side's team-jam. The recorded start is
    /// `pass_start_tick`, nudged up to the previous trip's start if the drawn
    /// stamp would run backwards, keeping trip starts non-decreasing.
    pub fn open_current_trip(&mut self, is_home_team: bool, pass_start_tick: u64)
        requires
            old(self).periods.len() > 0,
            old(self).periods@.last().jams.len() > 0,
            team_jam_of(*old(self), is_home_team).trips.len() > 0,
        ensures
            record_frame(*old(self), *final(self)),
            team_jam_of(*final(self), !is_home_team) == team_jam_of(*old(self), !is_home_team),
            ({
                let pre = team_jam_of(*old(self), is_home_team);
                let post = team_jam_of(*final(self), is_home_team);
                &&& post.fielding == pre.fielding
                &&& post.called_off == pre.called_off
                &&& post.is_lead == pre.is_lead
                &&& post.trips.len() == pre.trips.len() + 1
                &&& (forall|i: int|
                    0 <= i < pre.trips.len() ==> #[trigger] post.trips@[i] == pre.trips@[i])
                &&& post.trips@.last().score == 0
                &&& post.trips@.last().duration == 0
                &&& post.trips@.last().start_tick >= pre.trips@.last().start_tick
                &&& post.trips@.last().start_tick == (if pass_start_tick
                    >= pre.trips@.last().start_tick {
                    pass_start_tick
                } else {
                    pre.trips@.last().start_tick
                })
            }),
    {
        let team_jam = self.current_team_jam_mut(is_home_team);
        let previous_start = team_jam.current_trip_start();
        let start = if pass_start_tick >= previous_start {
            pass_start_tick
        } else {
            previous_start
        };
        team_jam.add_trip(start);
    }

    /// Finalizes one side's still-open trip at jam end: the duration runs
    /// from the trip's start to `jam_end_tick` (zero if the jam end is
    /// stamped before the trip began), and the score is overwritten with the
    /// given value.
    pub fn finish_current_trip(&mut self, is_home_team: bool, jam_end_tick: u64, score: u8)
        requires
            old(self).periods.len() > 0,
            old(self).periods@.last().jams.len() > 0,
            team_jam_of(*old(self), is_home_team).trips.len() > 0,
            score <= 4,
        ensures
            record_frame(*old(self), *final(self)),
            team_jam_of(*final(self), !is_home_team) == team_jam_of(*old(self), !is_home_team),
            ({
                let pre = team_jam_of(*old(self), is_home_team);
                let post = team_jam_of(*final(self), is_home_team);
                &&& post.fielding == pre.fielding
                &&& post.called_off == pre.called_off
                &&& post.is_lead == pre.is_lead
                &&& post.trips.len() == pre.trips.len()
                &&& (forall|i: int|
                    0 <= i < pre.trips.len() - 1 ==> #[trigger] post.trips@[i] == pre.trips@[i])
                &&& post.trips@.last().start_tick == pre.trips@.last().start_tick
                &&& post.trips@.last().score == score
                &&& post.trips@.last().duration == (if pre.trips@.last().start_tick
                    < jam_end_tick {
                    (jam_end_tick - pre.trips@.last().start_tick) as u64
                } else {
                    0u64
                })
            }),
    {
        let team_jam = self.current_team_jam_mut(is_home_team);
        let trip = team_jam.current_trip_mut();
        trip.duration = if trip.start_tick < jam_end_tick {
            jam_end_tick - trip.start_tick
        } else {
            0
        };
        trip.score = score;
    }

    /// Closes the current jam at `end_tick`.
    pub fn close_current_jam(&mut self, end_tick: u64)
        requires
            old(self).periods.len() > 0,
            old(self).periods@.last().jams.len() > 0,
            old(self).periods@.last().jams@.last().start_tick <= end_tick <= old(
                self,
            ).periods@.last().jams@.last().start_tick + 120_000,
        ensures
            final(self).officials_crew == old(self).officials_crew,
            final(self).periods.len() == old(self).periods.len(),
            forall|i: int|
                0 <= i < old(self).periods.len() - 1 ==> (#[trigger] final(self).periods@[i])
                    == old(self).periods@[i],
            final(self).periods@.last().start_tick == old(self).periods@.last().start_tick,
            final(self).periods@.last().duration == old(self).periods@.last().duration,
            final(self).periods@.last().jams.len() == old(self).periods@.last().jams.len(),
            forall|i: int|
                0 <= i < old(self).periods@.last().jams.len() - 1
                    ==> (#[trigger] final(self).periods@.last().jams@[i])
                    == old(self).periods@.last().jams@[i],
            final(self).periods@.last().jams@.last() == (JamJson {
                end_tick,
                ..old(self).periods@.last().jams@.last()
            }),
    {
        let period = self.current_period_mut();
        let jam = period.current_jam_mut();
        jam.end_tick = end_tick;
    }

    /// Records the current period's total duration.
    pub fn close_current_period(&mut self, duration: u64)
        requires
            old(self).periods.len() > 0,
        ensures
            final(self).officials_crew == old(self).officials_crew,
            final(self).periods.len() == old(self).periods.len(),
            forall|i: int|
                0 <= i < old(self).periods.len() - 1 ==> (#[trigger] final(self).periods@[i])
                    == old(self).periods@[i],
            final(self).periods@.last() == (PeriodJson {
                duration,
                ..old(self).periods@.last()
            }),
    {
        let period = self.current_period_mut();
        period.duration = duration;
    }

    /// Appends one official to the recorded crew.
    pub fn add_official(&mut self, official: Official)
        ensures
            final(self).officials_crew@ == old(self).officials_crew@.push(official),
            final(self).periods == old(self).periods,
    {
        self.officials_crew.push(official);
    }
}

} // verus!
