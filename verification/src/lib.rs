//! A seeded roller-derby bout simulator: procedurally built rosters and an
//! officiating crew advance tick by tick through jams, lineups and intervals,
//! recording a play-by-play tree of periods, jams, team-jams and scoring trips.

pub mod game;
pub mod game_json;
pub mod official;
pub mod rng;
pub mod skater;
pub mod team;
