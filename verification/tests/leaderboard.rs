use std::cmp::Ordering;

use racing_core::leaderboard::Leaderboard;
use racing_core::sim::Score;

fn score(successful: bool, time: i32) -> Score {
    Score { successful, time }
}

#[test]
fn score_order_prefers_success_then_speed() {
    assert_eq!(score(true, 500).cmp(&score(false, 10)), Ordering::Greater);
    assert_eq!(score(false, 10).cmp(&score(true, 500)), Ordering::Less);
    assert_eq!(score(true, 100).cmp(&score(true, 200)), Ordering::Greater);
    assert_eq!(score(false, 200).cmp(&score(false, 100)), Ordering::Less);
    assert_eq!(score(true, 100).cmp(&score(true, 100)), Ordering::Equal);
}

#[test]
fn top_n_returns_best_first() {
    let mut board = Leaderboard::new();
    board.add("slow".to_owned(), "aaa".to_owned(), score(true, 300));
    board.add("crashed".to_owned(), "bb".to_owned(), score(false, 50));
    board.add("fast".to_owned(), "c".to_owned(), score(true, 100));
    let top = board.top_n(10);
    assert_eq!(top.len(), 3);
    assert_eq!(top[0].username, "fast");
    assert_eq!(top[1].username, "slow");
    assert_eq!(top[2].username, "crashed");
}

#[test]
fn top_n_truncates() {
    let mut board = Leaderboard::new();
    board.add("a".to_owned(), "x".to_owned(), score(true, 10));
    board.add("b".to_owned(), "xy".to_owned(), score(true, 20));
    let top = board.top_n(1);
    assert_eq!(top.len(), 1);
    assert_eq!(top[0].username, "a");
    assert_eq!(board.top_n(0).len(), 0);
}

#[test]
fn equal_rank_is_not_inserted_twice() {
    let mut board = Leaderboard::new();
    board.add("first".to_owned(), "abc".to_owned(), score(true, 100));
    // Same score, same source byte length: ranks equal, so the board keeps
    // the entry it already has.
    board.add("second".to_owned(), "xyz".to_owned(), score(true, 100));
    let top = board.top_n(10);
    assert_eq!(top.len(), 1);
    assert_eq!(top[0].username, "first");
}

#[test]
fn longer_source_ranks_higher_on_equal_scores() {
    let mut board = Leaderboard::new();
    board.add("short".to_owned(), "ab".to_owned(), score(true, 100));
    board.add("long".to_owned(), "abcd".to_owned(), score(true, 100));
    let top = board.top_n(10);
    assert_eq!(top.len(), 2);
    assert_eq!(top[0].username, "long");
    assert_eq!(top[1].username, "short");
}

#[test]
fn different_source_lengths_rank_apart_and_both_stay() {
    let mut board = Leaderboard::new();
    board.add("one".to_owned(), "aa".to_owned(), score(true, 100));
    board.add("two".to_owned(), "bbb".to_owned(), score(true, 100));
    assert_eq!(board.top_n(10).len(), 2);
}

#[test]
fn entries_carry_score_and_source() {
    let mut board = Leaderboard::new();
    board.add("u".to_owned(), "src".to_owned(), score(false, 42));
    let top = board.top_n(1);
    assert_eq!(top[0].score, score(false, 42));
    assert_eq!(top[0].source, "src");
}
