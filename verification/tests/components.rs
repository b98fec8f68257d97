use badminton_tool::balance::{find_best_swap, optimize_teams_stability, team_skill_total};
use badminton_tool::courts::snake_draft;
use badminton_tool::games::InGamePlayer;
use badminton_tool::mixer::mix;
use badminton_tool::ranking::{rank_sort, RankKind};
use badminton_tool::round::select_sitting_out;

fn player(id: i64, skill: i32) -> InGamePlayer {
    InGamePlayer {
        id,
        first_name: format!("First{}", id),
        last_name: format!("Last{}", id),
        skill_level: skill,
        sit_off_count: 0,
    }
}

fn team(skills: &[i32]) -> Vec<InGamePlayer> {
    skills
        .iter()
        .enumerate()
        .map(|(i, s)| player(100 + i as i64, *s))
        .collect()
}

#[test]
fn test_mixer_is_deterministic() {
    assert_eq!(mix(5, 99), mix(5, 99));
    assert_ne!(mix(1, 99), mix(2, 99));
    assert_ne!(mix(1, 99), mix(1, 100));
}

#[test]
fn test_team_skill_total_sums_skills() {
    let t = team(&[10, 20, 30, 40]);
    assert_eq!(team_skill_total(&t), 100);
    let empty: Vec<InGamePlayer> = Vec::new();
    assert_eq!(team_skill_total(&empty), 0);
}

#[test]
fn test_find_best_swap_narrows_large_gap() {
    let a = team(&[10, 10, 10, 10]);
    let b = team(&[30, 30, 30, 30]);
    // every pair improves equally, so the first pair is kept
    assert_eq!(find_best_swap(&a, &b), Some((0, 0)));
}

#[test]
fn test_find_best_swap_leaves_balanced_teams_alone() {
    let a = team(&[10, 20, 30, 40]);
    let b = team(&[40, 30, 20, 10]);
    assert_eq!(find_best_swap(&a, &b), None);
}

#[test]
fn test_optimizer_equalizes_extreme_courts() {
    let mut teams = vec![team(&[10, 10, 10, 10]), team(&[30, 30, 30, 30])];
    optimize_teams_stability(&mut teams);
    assert_eq!(teams.len(), 2);
    assert_eq!(teams[0].len(), 4);
    assert_eq!(teams[1].len(), 4);
    assert_eq!(team_skill_total(&teams[0]), 80);
    assert_eq!(team_skill_total(&teams[1]), 80);
}

#[test]
fn test_snake_draft_deals_boustrophedon() {
    // cursor visits courts 0 1 1 0 0 1 1 0 for eight players on two courts
    let draft: Vec<InGamePlayer> = (0..8).map(|i| player(i, 50 - i as i32)).collect();
    let teams = snake_draft(draft, 2);
    assert_eq!(teams.len(), 2);
    let ids0: Vec<i64> = teams[0].iter().map(|p| p.id).collect();
    let ids1: Vec<i64> = teams[1].iter().map(|p| p.id).collect();
    assert_eq!(ids0, vec![0, 3, 4, 7]);
    assert_eq!(ids1, vec![1, 2, 5, 6]);
}

#[test]
fn test_rank_sort_draft_orders_by_descending_skill() {
    let players = vec![player(1, 10), player(2, 50), player(3, 30)];
    let prev: Vec<i64> = Vec::new();
    let sorted = rank_sort(RankKind::Draft, players, &prev, 7);
    let skills: Vec<i32> = sorted.iter().map(|p| p.skill_level).collect();
    assert_eq!(skills, vec![50, 30, 10]);
}

#[test]
fn test_rank_sort_draft_puts_returning_players_first() {
    let players = vec![player(1, 50), player(2, 10), player(3, 30)];
    let prev = vec![2];
    let sorted = rank_sort(RankKind::Draft, players, &prev, 7);
    assert_eq!(sorted[0].id, 2);
    let skills: Vec<i32> = sorted.iter().skip(1).map(|p| p.skill_level).collect();
    assert_eq!(skills, vec![50, 30]);
}

#[test]
fn test_select_sitting_out_takes_excess_players() {
    let players: Vec<InGamePlayer> = (1..=9).map(|id| player(id, 25)).collect();
    let prev: Vec<i64> = Vec::new();
    let (playing, sitting) = select_sitting_out(players, 2, &prev, 3);
    assert_eq!(playing.len(), 8);
    assert_eq!(sitting.len(), 1);
    assert_eq!(sitting[0].sit_off_count, 1);
    for p in &playing {
        assert_eq!(p.sit_off_count, 0);
    }
}

#[test]
fn test_select_sitting_out_short_roster_keeps_order() {
    let players = vec![player(4, 10), player(2, 20), player(9, 30)];
    let prev: Vec<i64> = Vec::new();
    let (playing, sitting) = select_sitting_out(players, 2, &prev, 3);
    assert!(playing.is_empty());
    let ids: Vec<i64> = sitting.iter().map(|p| p.id).collect();
    assert_eq!(ids, vec![4, 2, 9]);
}
