use badminton_tool::games::InGamePlayer;
use badminton_tool::round::make_games;

fn sample_player(id: i64, skill: i32) -> InGamePlayer {
    InGamePlayer {
        id,
        first_name: format!("First{}", id),
        last_name: format!("Last{}", id),
        skill_level: skill,
        sit_off_count: 0,
    }
}

fn sample_player_with_count(id: i64, skill: i32, sit_off_count: i32) -> InGamePlayer {
    InGamePlayer {
        id,
        first_name: format!("First{}", id),
        last_name: format!("Last{}", id),
        skill_level: skill,
        sit_off_count,
    }
}

const SEED: u64 = 42;

#[test]
fn test_make_games_exact_players() {
    let players = vec![
        sample_player(1, 10),
        sample_player(2, 20),
        sample_player(3, 30),
        sample_player(4, 40),
    ];
    let result = make_games(players, 1, None, SEED);
    assert_eq!(result.games.len(), 1);
    assert_eq!(result.sitting_out.len(), 0);
}

#[test]
fn test_make_games_extra_players() {
    let players = vec![
        sample_player(1, 10),
        sample_player(2, 20),
        sample_player(3, 30),
        sample_player(4, 40),
        sample_player(5, 50),
    ];
    let result = make_games(players, 1, None, SEED);
    assert_eq!(result.games.len(), 1);
    assert_eq!(result.sitting_out.len(), 1);
}

#[test]
fn test_make_games_not_enough_players() {
    let players = vec![
        sample_player(1, 10),
        sample_player(2, 20),
        sample_player(3, 30),
    ];
    let result = make_games(players, 1, None, SEED);
    assert_eq!(result.games.len(), 0);
    assert_eq!(result.sitting_out.len(), 3);
}

#[test]
fn test_exact_roster_fills_one_court() {
    let players = vec![
        sample_player(1, 10),
        sample_player(2, 20),
        sample_player(3, 30),
        sample_player(4, 40),
    ];
    let result = make_games(players, 1, None, SEED);
    assert_eq!(result.games.len(), 1);
    assert_eq!(result.games[0].court, 1);
    assert_eq!(result.games[0].players.len(), 4);
    let mut ids: Vec<i64> = result.games[0].players.iter().map(|p| p.id).collect();
    ids.sort();
    assert_eq!(ids, vec![1, 2, 3, 4]);
    assert!(result.sitting_out.is_empty());
}

#[test]
fn test_extra_player_sits_out_with_incremented_count() {
    let players = vec![
        sample_player(1, 10),
        sample_player(2, 20),
        sample_player(3, 30),
        sample_player(4, 40),
        sample_player(5, 50),
    ];
    let result = make_games(players, 1, None, SEED);
    assert_eq!(result.games.len(), 1);
    assert_eq!(result.games[0].players.len(), 4);
    assert_eq!(result.sitting_out.len(), 1);
    assert_eq!(result.sitting_out[0].sit_off_count, 1);
}

#[test]
fn test_short_roster_sits_out_whole() {
    let players = vec![
        sample_player(7, 10),
        sample_player(8, 20),
        sample_player(9, 30),
    ];
    let result = make_games(players, 1, None, SEED);
    assert!(result.games.is_empty());
    let ids: Vec<i64> = result.sitting_out.iter().map(|p| p.id).collect();
    assert_eq!(ids, vec![7, 8, 9]);
    for p in &result.sitting_out {
        assert_eq!(p.sit_off_count, 1);
    }
}

#[test]
fn test_uniform_skill_gives_zero_gap() {
    let players: Vec<InGamePlayer> = (1..=8).map(|id| sample_player(id, 25)).collect();
    let result = make_games(players, 2, None, SEED);
    assert_eq!(result.games.len(), 2);
    for game in &result.games {
        assert_eq!(game.players.len(), 4);
        let total: i32 = game.players.iter().map(|p| p.skill_level).sum();
        let mean = total as f64 / game.players.len() as f64;
        assert_eq!(mean, 25.0);
    }
}

#[test]
fn test_conservation_across_games_and_sitting_out() {
    let players: Vec<InGamePlayer> = (1..=11).map(|id| sample_player(id, (id as i32 * 7) % 50 + 1)).collect();
    let result = make_games(players, 2, None, SEED);
    let mut ids: Vec<i64> = Vec::new();
    for game in &result.games {
        for p in &game.players {
            ids.push(p.id);
            assert_eq!(p.sit_off_count, 0, "playing players keep their count");
        }
    }
    for p in &result.sitting_out {
        ids.push(p.id);
        assert_eq!(p.sit_off_count, 1, "sitting players gain one");
    }
    ids.sort();
    let expected: Vec<i64> = (1..=11).collect();
    assert_eq!(ids, expected);
}

#[test]
fn test_determinism_with_fixed_seed() {
    let make_roster = || -> Vec<InGamePlayer> {
        (1..=13).map(|id| sample_player_with_count(id, (id as i32 * 11) % 50 + 1, (id as i32) % 3)).collect()
    };
    let r1 = make_games(make_roster(), 3, None, 777);
    let r2 = make_games(make_roster(), 3, None, 777);
    assert_eq!(r1.games.len(), r2.games.len());
    for (g1, g2) in r1.games.iter().zip(r2.games.iter()) {
        assert_eq!(g1.court, g2.court);
        let ids1: Vec<i64> = g1.players.iter().map(|p| p.id).collect();
        let ids2: Vec<i64> = g2.players.iter().map(|p| p.id).collect();
        assert_eq!(ids1, ids2);
    }
    let s1: Vec<i64> = r1.sitting_out.iter().map(|p| p.id).collect();
    let s2: Vec<i64> = r2.sitting_out.iter().map(|p| p.id).collect();
    assert_eq!(s1, s2);
}

#[test]
fn test_lowest_sit_out_count_sits_first() {
    // four players have already sat out once; the fifth has played every
    // round, so it is the fifth's turn to sit
    let players = vec![
        sample_player_with_count(1, 10, 1),
        sample_player_with_count(2, 20, 1),
        sample_player_with_count(3, 30, 1),
        sample_player_with_count(4, 40, 1),
        sample_player_with_count(5, 50, 0),
    ];
    let result = make_games(players, 1, None, SEED);
    assert_eq!(result.sitting_out.len(), 1);
    assert_eq!(result.sitting_out[0].id, 5);
    assert_eq!(result.sitting_out[0].sit_off_count, 1);
}

#[test]
fn test_previous_sitter_does_not_sit_twice() {
    // all counts equal; player 2 sat out last round, so anyone but player
    // 2 sits now
    let players = vec![
        sample_player(1, 10),
        sample_player(2, 20),
        sample_player(3, 30),
        sample_player(4, 40),
        sample_player(5, 50),
    ];
    let previous = vec![sample_player(2, 20)];
    let result = make_games(players, 1, Some(previous), SEED);
    assert_eq!(result.sitting_out.len(), 1);
    assert_ne!(result.sitting_out[0].id, 2);
}

#[test]
fn test_zero_courts_sits_everyone_out() {
    let players = vec![sample_player(1, 10), sample_player(2, 20)];
    let result = make_games(players, 0, None, SEED);
    assert!(result.games.is_empty());
    assert_eq!(result.sitting_out.len(), 2);
    for p in &result.sitting_out {
        assert_eq!(p.sit_off_count, 1);
    }
}

#[test]
fn test_court_numbers_are_contiguous() {
    let players: Vec<InGamePlayer> = (1..=16).map(|id| sample_player(id, (id as i32) % 50 + 1)).collect();
    let result = make_games(players, 4, None, SEED);
    assert_eq!(result.games.len(), 4);
    for (idx, game) in result.games.iter().enumerate() {
        assert_eq!(game.court, idx + 1);
    }
}
