use fixed_index::builder::{build, Entity};
use fixed_index::queries::{
    display_team_stats, games_query, get_team, season_games_query, stats_query, update_database,
    GamesPlan, QueryError, SeasonGamesKind, SeasonType, UpdateTarget,
};
use fixed_index::search::KeyOrder;
use fixed_index::stats_model::{
    default_season, filter_games, get_eastern_standard_time, get_team_and_opp, hitter_comparator,
    no_name, pitcher_comparator, BasicHittingStats, Game, GameDate, GameFilter, GameState,
    PitchingStats, PlayingTeam, PlayingTeams, Schedule,
};

fn q(parts: &[&str]) -> Vec<Vec<u8>> {
    parts.iter().map(|p| p.as_bytes().to_vec()).collect()
}

#[test]
fn update_database_picks_dataset() {
    assert_eq!(update_database(&q(&["prog", "update", "p"])), Ok(UpdateTarget::Players));
    assert_eq!(update_database(&q(&["prog", "update", "T"])), Ok(UpdateTarget::Teams));
    assert_eq!(update_database(&q(&["prog", "update", "x"])), Err(QueryError::DataBaseError));
    assert_eq!(update_database(&q(&["prog", "update"])), Err(QueryError::DataBaseError));
}

#[test]
fn stats_query_plans() {
    let plan = stats_query(&q(&["prog", "s", "ruth", "C"])).unwrap();
    assert_eq!(plan.player, b"ruth".to_vec());
    assert_eq!(plan.season_type, SeasonType::Career);
    let plan = stats_query(&q(&["prog", "s", "ruth", "y"])).unwrap();
    assert_eq!(plan.season_type, SeasonType::YearByYear);
    let plan = stats_query(&q(&["prog", "s", "ruth"])).unwrap();
    assert_eq!(plan.season_type, SeasonType::Season);
    assert_eq!(stats_query(&q(&["prog", "s"])).unwrap_err(), QueryError::QueryTooShort);
}

#[test]
fn games_query_plans() {
    assert_eq!(games_query(&q(&["prog", "g"])), GamesPlan::Today);
    assert_eq!(
        games_query(&q(&["prog", "g", "NYY", "2024-05-01"])),
        GamesPlan::TeamGame { team: b"nyy".to_vec(), date: b"2024-05-01".to_vec() }
    );
    assert_eq!(
        games_query(&q(&["prog", "g", "bos"])),
        GamesPlan::TeamGame { team: b"bos".to_vec(), date: Vec::new() }
    );
}

#[test]
fn season_games_query_plans() {
    let plan = season_games_query(&q(&["prog", "r", "nyy", "12"]));
    assert_eq!(plan.team, b"nyy".to_vec());
    assert_eq!(plan.kind, SeasonGamesKind::Results);
    assert_eq!(plan.limit, 12);
    let plan = season_games_query(&q(&["prog", "RESULTS", "bos"]));
    assert_eq!(plan.kind, SeasonGamesKind::Results);
    assert_eq!(plan.limit, 8);
    let plan = season_games_query(&q(&["prog", "u", "bos", "junk"]));
    assert_eq!(plan.kind, SeasonGamesKind::Schedule);
    assert_eq!(plan.limit, 8);
    let plan = season_games_query(&q(&["prog", "u", "bos", "99999999999999999999999"]));
    assert_eq!(plan.limit, 8);
}

#[test]
fn team_stats_plans() {
    let plan = display_team_stats(&q(&["prog", "t", "nyy", "h"])).unwrap();
    assert!(plan.hitting && !plan.pitching);
    let plan = display_team_stats(&q(&["prog", "t", "nyy", "PITCHING"])).unwrap();
    assert!(!plan.hitting && plan.pitching);
    let plan = display_team_stats(&q(&["prog", "t", "nyy"])).unwrap();
    assert!(plan.hitting && plan.pitching);
    assert_eq!(plan.team, b"nyy".to_vec());
    assert_eq!(display_team_stats(&q(&["prog", "t"])).unwrap_err(), QueryError::QueryTooShort);
}

#[test]
fn get_team_reads_the_team_index() {
    let teams = vec![
        Entity { name: b"bos".to_vec(), id: 111, aux: b't' },
        Entity { name: b"nyy".to_vec(), id: 147, aux: b't' },
        Entity { name: b"sf".to_vec(), id: 137, aux: b't' },
    ];
    let data = build(&teams, 3).unwrap();
    assert_eq!(get_team(&data, &b"nyy".to_vec()), Ok((b't', 147)));
    assert_eq!(get_team(&data, &b"SF".to_vec()), Ok((b't', 137)));
    assert_eq!(get_team(&data, &b"lad".to_vec()), Err(QueryError::EntryError));
    assert_eq!(get_team(&b"zz".to_vec(), &b"a".to_vec()), Err(QueryError::MalformedIndex));
}

#[test]
fn comparators_order_tables() {
    let a = BasicHittingStats { plateAppearances: 600 };
    let b = BasicHittingStats { plateAppearances: 250 };
    assert_eq!(hitter_comparator(&a, &b), KeyOrder::Less);
    assert_eq!(hitter_comparator(&b, &a), KeyOrder::Greater);
    assert_eq!(hitter_comparator(&a, &a), KeyOrder::Equal);

    let p0 = PitchingStats { inningsPitched: b"81.0".to_vec() };
    let p1 = PitchingStats { inningsPitched: b"9.1".to_vec() };
    // 81.0 innings outrank 9.1, as numbers rather than strings
    assert_eq!(pitcher_comparator(&p0, &p1), KeyOrder::Less);
    assert_eq!(pitcher_comparator(&p1, &p0), KeyOrder::Greater);
    let p2 = PitchingStats { inningsPitched: b"181".to_vec() };
    let p3 = PitchingStats { inningsPitched: b"181.0".to_vec() };
    assert_eq!(pitcher_comparator(&p2, &p3), KeyOrder::Equal);
}

#[test]
fn eastern_time_rendering() {
    let r = get_eastern_standard_time(&b"2024-05-01T23:05:00Z".to_vec());
    assert_eq!(r, b"7:05PM".to_vec());
    let r = get_eastern_standard_time(&b"2024-05-01T16:10:00Z".to_vec());
    assert_eq!(r, b"12:10PM".to_vec());
    let r = get_eastern_standard_time(&b"2024-05-01T05:00:00Z".to_vec());
    assert_eq!(r, b"1:00AM".to_vec());
}

fn game(pk: i32, abs: GameState, det: GameState, away_id: i32, home_id: i32) -> Game {
    Game {
        game_pk: pk,
        abstract_state: abs,
        detailed_state: det,
        teams: PlayingTeams {
            away: PlayingTeam { team_id: away_id, score: 3, wins: 10, losses: 5 },
            home: PlayingTeam { team_id: home_id, score: 4, wins: 9, losses: 6 },
        },
    }
}

#[test]
fn filtering_a_schedule() {
    let schedule = Schedule {
        dates: vec![
            GameDate {
                games: vec![
                    game(1, GameState::Final, GameState::Final, 10, 11),
                    game(2, GameState::Preview, GameState::Other, 10, 12),
                ],
            },
            GameDate { games: vec![game(3, GameState::Preview, GameState::Other, 13, 10)] },
        ],
    };
    let finals = filter_games(schedule, GameFilter::DetailedFinal);
    assert_eq!(finals.len(), 1);
    assert_eq!(finals[0].game_pk, 1);
    let schedule = Schedule {
        dates: vec![
            GameDate {
                games: vec![
                    game(1, GameState::Final, GameState::Final, 10, 11),
                    game(2, GameState::Preview, GameState::Other, 10, 12),
                ],
            },
            GameDate { games: vec![game(3, GameState::Preview, GameState::Other, 13, 10)] },
        ],
    };
    let upcoming = filter_games(schedule, GameFilter::AbstractPreview);
    assert_eq!(upcoming.len(), 2);
    assert_eq!(upcoming[0].game_pk, 2);
    assert_eq!(upcoming[1].game_pk, 3);
}

#[test]
fn team_and_opponent_split() {
    let g = game(1, GameState::Final, GameState::Final, 10, 11);
    let (team, opp, symbol) = get_team_and_opp(10, &g);
    assert_eq!(team.team_id, 10);
    assert_eq!(opp.team_id, 11);
    assert_eq!(symbol, "@ ");
    let (team, opp, symbol) = get_team_and_opp(11, &g);
    assert_eq!(team.team_id, 11);
    assert_eq!(opp.team_id, 10);
    assert_eq!(symbol, "vs");
}

#[test]
fn stat_split_defaults() {
    assert_eq!(default_season(), "Career".to_string());
    assert_eq!(no_name().fullName, "".to_string());
}
