use derby_sim::game::Game;
use derby_sim::game_json::{GameJson, TeamJamFielding, FieldingSkaterJson};
use derby_sim::official::{Official, OfficialRole};
use derby_sim::skater::{Position, Skater};
use derby_sim::team::Team;
use rand::SeedableRng;

fn seeded(seed: u64) -> rand::rngs::StdRng {
    rand::rngs::StdRng::seed_from_u64(seed)
}

#[test]
fn skater_tunables_stay_in_range() {
    let mut source = seeded(31);
    for i in 0..50u64 {
        let s = Skater::random(&mut source, i);
        assert_eq!(s.id, i);
        assert!(s.base_speed >= 15_000 && s.base_speed <= 20_000);
        assert!(s.penalty_chance_ppm >= 500 && s.penalty_chance_ppm < 1_000);
        assert!(!s.name.is_empty());
        let digits = s.number.len();
        assert!(digits >= 1 && digits <= 4);
        assert!(s.number.chars().all(|c| c.is_ascii_digit()));
        assert!(matches!(
            s.favored_position,
            Position::Jammer | Position::Pivot | Position::Blocker
        ));
    }
}

#[test]
fn skater_draws_vary_with_the_stream() {
    let mut source = seeded(31);
    let a = Skater::random(&mut source, 0);
    let b = Skater::random(&mut source, 1);
    let c = Skater::random(&mut source, 2);
    assert!(
        a.base_speed != b.base_speed
            || b.base_speed != c.base_speed
            || a.number != b.number
            || b.number != c.number,
        "successive draws must consume the stream"
    );
}

#[test]
fn team_roster_sizes_and_ids() {
    let mut source = seeded(47);
    let team = Team::random(&mut source, 1, 10);
    assert!(team.roster.len() >= 8 && team.roster.len() <= 15);
    for (i, s) in team.roster.iter().enumerate() {
        assert_eq!(s.id, 10 + i as u64);
    }
    assert!(team.name.ends_with("Roller Derby"));
    assert!(!team.color.is_empty());
}

#[test]
fn crew_has_eighteen_officials_with_heads() {
    let mut source = seeded(53);
    let crew = Official::random_crew(&mut source, 200);
    assert_eq!(crew.len(), 18);
    assert!(crew
        .iter()
        .any(|o| o.is_head && o.role == OfficialRole::InsidePackReferee));
    assert!(crew
        .iter()
        .any(|o| o.is_head && o.role != OfficialRole::InsidePackReferee));
    assert_eq!(crew.iter().filter(|o| o.is_head).count(), 2);
    for (i, o) in crew.iter().enumerate() {
        assert_eq!(o.id, 200 + i as u64);
        assert!(!o.name.is_empty());
    }
}

#[test]
fn random_game_starts_clean() {
    let game = Game::random(seeded(61));
    assert_eq!(game.current_tick, 0);
    assert_eq!(game.period_clock, 0);
    assert!(game.penalty_box.is_empty());
    assert_eq!(game.officials.len(), 18);
    assert_eq!(game.game_json.officials_crew.len(), 18);
    assert!(game.game_json.periods.is_empty());
    assert!(game.home_team.roster.len() >= 8);
    assert!(game.away_team.roster.len() >= 8);
}

#[test]
fn record_levels_append_and_count() {
    let mut record = GameJson::new();
    assert_eq!(record.periods.len(), 0);
    record.add_period(1000);
    assert_eq!(record.periods.len(), 1);
    let fielding = || TeamJamFielding {
        jammer: FieldingSkaterJson { skater_id: 1, number: String::new() },
        pivot: FieldingSkaterJson { skater_id: 2, number: String::new() },
        blocker1: FieldingSkaterJson { skater_id: 3, number: String::new() },
        blocker2: FieldingSkaterJson { skater_id: 4, number: String::new() },
        blocker3: FieldingSkaterJson { skater_id: 5, number: String::new() },
    };
    {
        let period = record.current_period_mut();
        period.add_jam(1000, fielding(), fielding());
        assert_eq!(period.jam_count(), 1);
        let jam = period.current_jam_mut();
        assert_eq!(jam.start_tick, 1000);
        assert_eq!(jam.end_tick, 0);
        jam.home_team_jam.add_trip(1000);
        jam.home_team_jam.add_trip(2500);
        assert_eq!(jam.home_team_jam.trip_count(), 2);
        assert_eq!(jam.home_team_jam.current_trip_start(), 2500);
        let trip = jam.home_team_jam.current_trip_mut();
        assert_eq!(trip.score, 0);
        assert_eq!(trip.duration, 0);
        trip.score = 4;
    }
    assert_eq!(
        record.periods[0].jams[0].home_team_jam.trips[1].score,
        4
    );
    assert_eq!(record.periods[0].jams[0].home_team_jam.trips[0].score, 0);
    record.add_official(Official {
        id: 7,
        name: "Counted".to_string(),
        is_head: false,
        role: OfficialRole::JamTimer,
    });
    assert_eq!(record.officials_crew.len(), 1);
}
