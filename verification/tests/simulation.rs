use derby_sim::game::{Game, GameState, SkaterActivity};
use derby_sim::official::{Official, OfficialRole};
use derby_sim::skater::{Position, Skater};
use derby_sim::team::Team;
use rand::SeedableRng;

fn seeded(seed: u64) -> rand::rngs::StdRng {
    rand::rngs::StdRng::seed_from_u64(seed)
}

fn make_skater(id: u64, favored: Position, ppm: u32) -> Skater {
    Skater {
        id,
        name: format!("Skater {}", id),
        number: format!("{}", id),
        favored_position: favored,
        base_speed: 17_000,
        penalty_chance_ppm: ppm,
    }
}

fn make_team(name: &str, base_id: u64, size: u64, ppm: u32) -> Team {
    let mut roster = Vec::new();
    for i in 0..size {
        let favored = match i % 3 {
            0 => Position::Jammer,
            1 => Position::Pivot,
            _ => Position::Blocker,
        };
        roster.push(make_skater(base_id + i, favored, ppm));
    }
    Team {
        id: base_id,
        name: name.to_string(),
        roster,
        color: "Teal".to_string(),
    }
}

fn make_crew() -> Vec<Official> {
    vec![
        Official {
            id: 900,
            name: "Head NSO".to_string(),
            is_head: true,
            role: OfficialRole::PenaltyLineupTracker,
        },
        Official {
            id: 901,
            name: "Head Ref".to_string(),
            is_head: true,
            role: OfficialRole::InsidePackReferee,
        },
    ]
}

fn is_box_activity(a: &SkaterActivity) -> bool {
    matches!(
        a,
        SkaterActivity::SkatingToBox(_) | SkaterActivity::SatInBox(_) | SkaterActivity::HeldInBox(_)
    )
}

fn box_has(game: &Game, id: u64) -> bool {
    game.penalty_box.iter().any(|e| e.details.id == id)
}

#[test]
fn determinism_full_match() {
    let mut first = Game::random(seeded(7));
    let mut second = Game::random(seeded(7));
    let mut first_states = Vec::new();
    let mut second_states = Vec::new();
    for _ in 0..100_000 {
        if matches!(first.state, GameState::PostGame(_)) {
            break;
        }
        first.tick();
        first_states.push(std::mem::discriminant(&first.state));
    }
    for _ in 0..100_000 {
        if matches!(second.state, GameState::PostGame(_)) {
            break;
        }
        second.tick();
        second_states.push(std::mem::discriminant(&second.state));
    }
    assert!(matches!(first.state, GameState::PostGame(_)));
    assert_eq!(first_states, second_states);
    assert_eq!(first.current_tick, second.current_tick);
    assert_eq!(first.game_json, second.game_json);
    assert_eq!(first.state, second.state);
}

#[test]
fn different_seeds_diverge() {
    let mut first = Game::random(seeded(1));
    let mut second = Game::random(seeded(2));
    first.run();
    second.run();
    assert_ne!(first.game_json, second.game_json);
}

#[test]
fn single_active_state_transitions() {
    let mut game = Game::random(seeded(11));
    let mut steps = 0u64;
    while !matches!(game.state, GameState::PostGame(_)) {
        let pre_jam_start = match &game.state {
            GameState::JamInProgress(j) => Some(j.start_tick),
            _ => None,
        };
        let pre_lineup_start = match &game.state {
            GameState::LineupInProgress(l) => Some(l.start_tick),
            _ => None,
        };
        let was_pregame = matches!(game.state, GameState::PreGame(_));
        let was_terminalish = matches!(
            game.state,
            GameState::TimeoutInProgress(_) | GameState::IntervalInProgress(_)
        );
        game.tick();
        match &game.state {
            GameState::PreGame(_) => panic!("the pre-game state is never re-entered"),
            GameState::JamInProgress(j) => {
                if let Some(s) = pre_jam_start {
                    assert_eq!(j.start_tick, s);
                }
                assert!(!was_terminalish);
            }
            GameState::LineupInProgress(l) => {
                if let Some(s) = pre_lineup_start {
                    assert_eq!(l.start_tick, s);
                }
                assert!(!was_pregame && !was_terminalish);
            }
            GameState::TimeoutInProgress(_) => panic!("timeouts are never entered"),
            GameState::IntervalInProgress(_) => assert!(!was_pregame && !was_terminalish),
            GameState::PostGame(_) => assert!(was_terminalish),
        }
        steps += 1;
        assert!(steps < 100_000, "match must terminate");
    }
}

#[test]
fn penalty_box_membership_every_tick() {
    let mut game = Game::random(seeded(23));
    let mut steps = 0u64;
    while !matches!(game.state, GameState::PostGame(_)) {
        game.tick();
        if let GameState::JamInProgress(jam) = &game.state {
            for skater in jam.home_skaters.iter().chain(jam.away_skaters.iter()) {
                assert_eq!(
                    box_has(&game, skater.details.id),
                    is_box_activity(&skater.activity),
                    "membership must match activity for {}",
                    skater.details.id
                );
            }
            for entry in game.penalty_box.iter() {
                assert!(jam
                    .home_skaters
                    .iter()
                    .chain(jam.away_skaters.iter())
                    .any(|s| s.details.id == entry.details.id));
            }
        }
        for (i, a) in game.penalty_box.iter().enumerate() {
            for b in game.penalty_box.iter().skip(i + 1) {
                assert_ne!(a.details.id, b.details.id, "box ids must be unique");
            }
        }
        steps += 1;
        assert!(steps < 100_000);
    }
}

#[test]
fn fielding_completeness_first_jam() {
    let home = make_team("Home", 1, 10, 700);
    let away = make_team("Away", 100, 10, 700);
    let mut game = Game::from_teams(seeded(3), home, away, make_crew()).expect("valid rosters");
    game.tick();
    match &game.state {
        GameState::JamInProgress(jam) => {
            for team in [&jam.home_skaters, &jam.away_skaters] {
                assert_eq!(team.len(), 5);
                let jammers = team.iter().filter(|s| s.position == Position::Jammer).count();
                let pivots = team.iter().filter(|s| s.position == Position::Pivot).count();
                assert_eq!(jammers, 1);
                assert_eq!(pivots, 1);
            }
        }
        other => panic!("expected a jam in progress, found {:?}", other),
    }
}

#[test]
fn jam_duration_bound_full_match() {
    let mut game = Game::random(seeded(5));
    game.run();
    let mut closed = 0;
    for period in game.game_json.periods.iter() {
        for jam in period.jams.iter() {
            if jam.end_tick != 0 {
                assert!(jam.end_tick >= jam.start_tick);
                assert!(jam.end_tick - jam.start_tick <= 120_000);
                closed += 1;
            }
        }
    }
    assert!(closed >= 1, "a full match closes at least one jam");
}

#[test]
fn trip_monotonicity_and_scores() {
    let mut game = Game::random(seeded(5));
    game.run();
    for period in game.game_json.periods.iter() {
        for jam in period.jams.iter() {
            for team_jam in [&jam.home_team_jam, &jam.away_team_jam] {
                assert!(!team_jam.trips.is_empty());
                assert_eq!(team_jam.trips[0].score, 0, "the first trip never scores");
                let mut last = 0u64;
                for trip in team_jam.trips.iter() {
                    assert!(trip.start_tick >= last);
                    assert!(trip.score <= 4);
                    last = trip.start_tick;
                }
            }
        }
    }
}

#[test]
fn scenario_one_full_jam() {
    let home = make_team("Home", 1, 10, 700);
    let away = make_team("Away", 100, 10, 700);
    let mut game = Game::from_teams(seeded(41), home, away, make_crew()).expect("valid rosters");
    let mut jam_exits = 0;
    let mut steps = 0u64;
    loop {
        let was_jam = matches!(game.state, GameState::JamInProgress(_));
        game.tick();
        let is_jam = matches!(game.state, GameState::JamInProgress(_));
        if was_jam && !is_jam {
            assert!(matches!(
                game.state,
                GameState::LineupInProgress(_) | GameState::IntervalInProgress(_)
            ));
            jam_exits += 1;
            break;
        }
        steps += 1;
        assert!(steps < 200, "one jam lasts at most 121 ticks");
    }
    assert_eq!(jam_exits, 1);
    assert_eq!(game.game_json.periods.len(), 1);
    let period = &game.game_json.periods[0];
    assert_eq!(period.jams.len(), 1);
    let jam = &period.jams[0];
    for team_jam in [&jam.home_team_jam, &jam.away_team_jam] {
        assert!(team_jam.trips.len() >= 1);
        assert_eq!(team_jam.trips[0].score, 0);
    }
}

#[test]
fn scenario_forced_penalty_survives_jam_boundary() {
    // One home skater always fails the penalty roll; rosters of five keep
    // everyone fielded.
    let mut home = make_team("Home", 1, 5, 0);
    home.roster[4].penalty_chance_ppm = 1_000_000;
    let forced_id = home.roster[4].id;
    let away = make_team("Away", 100, 5, 0);
    let mut game = Game::from_teams(seeded(13), home, away, make_crew()).expect("valid rosters");
    game.tick();
    assert!(matches!(game.state, GameState::JamInProgress(_)));
    game.tick();
    assert!(box_has(&game, forced_id), "the forced skater enters the box");
    if let GameState::JamInProgress(jam) = &game.state {
        let forced = jam
            .home_skaters
            .iter()
            .find(|s| s.details.id == forced_id)
            .expect("fielded");
        assert!(matches!(forced.activity, SkaterActivity::SkatingToBox(_)));
    } else {
        panic!("expected a jam");
    }
    // Run to the end of this jam.
    let mut steps = 0u64;
    while matches!(game.state, GameState::JamInProgress(_)) {
        game.tick();
        steps += 1;
        assert!(steps < 200);
    }
    assert!(box_has(&game, forced_id), "still boxed at jam end");
    let entry = game
        .penalty_box
        .iter()
        .find(|e| e.details.id == forced_id)
        .expect("in box");
    assert!(
        matches!(entry.activity, SkaterActivity::HeldInBox(_)),
        "held across the jam boundary, found {:?}",
        entry.activity
    );
    // Run into the next jam and take its first tick.
    while !matches!(game.state, GameState::JamInProgress(_)) {
        game.tick();
        steps += 1;
        assert!(steps < 400);
    }
    game.tick();
    if let GameState::JamInProgress(jam) = &game.state {
        let forced = jam
            .home_skaters
            .iter()
            .find(|s| s.details.id == forced_id)
            .expect("seeded from the box");
        assert!(
            matches!(forced.activity, SkaterActivity::SatInBox(_)),
            "the held sit resumes, found {:?}",
            forced.activity
        );
    } else {
        panic!("expected the following jam");
    }
}

#[test]
fn period_clock_reaches_interval_exactly_at_zero() {
    let mut game = Game::random(seeded(17));
    game.tick();
    assert_eq!(game.period_clock, 1_800_000, "the clock starts at 30 minutes");
    let mut saw_interval = false;
    let mut steps = 0u64;
    while !matches!(game.state, GameState::PostGame(_)) {
        game.tick();
        if matches!(game.state, GameState::IntervalInProgress(_)) {
            assert_eq!(game.period_clock, 0, "the interval starts only at zero");
            saw_interval = true;
        } else if !matches!(game.state, GameState::PostGame(_)) {
            assert!(game.period_clock > 0 || matches!(game.state, GameState::JamInProgress(_)));
        }
        steps += 1;
        assert!(steps < 100_000);
    }
    assert!(saw_interval);
}

#[test]
fn roster_validation_rejects_bad_input() {
    let small = make_team("Tiny", 1, 4, 700);
    assert!(Game::from_teams(seeded(1), small, make_team("Away", 100, 8, 700), make_crew())
        .is_none());

    let mut dup = make_team("Dup", 1, 8, 700);
    dup.roster[3].id = dup.roster[2].id;
    assert!(Game::from_teams(seeded(1), dup, make_team("Away", 100, 8, 700), make_crew())
        .is_none());

    let mut slow = make_team("Slow", 1, 8, 700);
    slow.roster[0].base_speed = 1_000;
    assert!(Game::from_teams(seeded(1), slow, make_team("Away", 100, 8, 700), make_crew())
        .is_none());

    let overlap_home = make_team("Home", 1, 8, 700);
    let overlap_away = make_team("Away", 1, 8, 700);
    assert!(Game::from_teams(seeded(1), overlap_home, overlap_away, make_crew()).is_none());
}
