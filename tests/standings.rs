use standings::{calculate_rankings, compute_standings, decode_results, standings_text};
use standings::{DecodeError, MatchEntry, MatchResult};

fn entry(first: &str, second: &str, a: i32, b: i32) -> MatchEntry {
    MatchEntry {
        first: first.to_string(),
        second: second.to_string(),
        result: MatchResult(a, b),
    }
}

fn row(name: &str, points: i64) -> (String, i64) {
    (name.to_string(), points)
}

#[test]
fn single_win_lists_only_the_winner() {
    assert_eq!(calculate_rankings(r#"{"Alice": {"Bob": [3,1]}}"#), r#"[["Alice",3]]"#);
}

#[test]
fn draw_gives_both_one_point() {
    let out = calculate_rankings(r#"{"Alice": {"Bob": [2,2]}}"#);
    assert!(out.contains(r#"["Alice",1]"#));
    assert!(out.contains(r#"["Bob",1]"#));
    assert_eq!(out, r#"[["Alice",1],["Bob",1]]"#);
}

#[test]
fn reverse_encoded_win_goes_to_second_side() {
    assert_eq!(calculate_rankings(r#"{"Alice": {"Bob": [1,3]}}"#), r#"[["Bob",3]]"#);
}

#[test]
fn several_entries_are_ranked() {
    let out = calculate_rankings(r#"{"A": {"B": [3,0]}, "B": {"C": [1,1]}, "C": {"A": [0,2]}}"#);
    assert_eq!(out, r#"[["A",6],["B",1],["C",1]]"#);
}

#[test]
fn empty_table_gives_empty_list() {
    assert_eq!(calculate_rankings("{}"), "[]");
    assert!(compute_standings(&Vec::new()).is_empty());
}

#[test]
fn non_numeric_score_gives_empty_list() {
    assert_eq!(calculate_rankings(r#"{"Alice": {"Bob": ["x",1]}}"#), "[]");
}

#[test]
fn missing_score_gives_empty_list() {
    assert_eq!(calculate_rankings(r#"{"Alice": {"Bob": [3]}}"#), "[]");
}

#[test]
fn invalid_json_gives_empty_list() {
    assert_eq!(calculate_rankings("not json {"), "[]");
    assert_eq!(calculate_rankings(""), "[]");
}

#[test]
fn malformed_payload_is_a_decode_error() {
    assert!(matches!(decode_results(r#"{"Alice": [3, 1]}"#), Err(DecodeError::Malformed(_))));
    assert!(matches!(decode_results(r#"{"Alice": {"Bob": [3, 1, 2]}}"#), Err(DecodeError::Malformed(_))));
}

#[test]
fn decode_flattens_rows_in_key_order() {
    let es = decode_results(r#"{"B": {"A": [1,0]}, "A": {"D": [2,2], "C": [0,5]}}"#).unwrap();
    let seen: Vec<(String, String, MatchResult)> =
        es.into_iter().map(|e| (e.first, e.second, e.result)).collect();
    assert_eq!(
        seen,
        vec![
            ("A".to_string(), "C".to_string(), MatchResult(0, 5)),
            ("A".to_string(), "D".to_string(), MatchResult(2, 2)),
            ("B".to_string(), "A".to_string(), MatchResult(1, 0)),
        ]
    );
}

#[test]
fn points_are_conserved() {
    let es = vec![
        entry("A", "B", 3, 0),
        entry("B", "C", 1, 1),
        entry("C", "A", 0, 2),
        entry("D", "A", 4, 4),
        entry("E", "F", 0, 1),
    ];
    let r = compute_standings(&es);
    let total: i64 = r.iter().map(|p| p.1).sum();
    assert_eq!(total, 3 * 3 + 2 * 2);
}

#[test]
fn each_participant_listed_once_with_points() {
    let es = vec![
        entry("A", "B", 3, 0),
        entry("A", "C", 2, 1),
        entry("B", "A", 1, 1),
    ];
    let r = compute_standings(&es);
    assert_eq!(r, vec![row("A", 7), row("B", 1)]);
}

#[test]
fn both_directions_are_scored() {
    let es = vec![entry("A", "B", 2, 0), entry("B", "A", 0, 2)];
    assert_eq!(compute_standings(&es), vec![row("A", 6)]);
}

#[test]
fn self_draw_counts_twice() {
    let es = vec![entry("A", "A", 1, 1)];
    assert_eq!(compute_standings(&es), vec![row("A", 2)]);
}

#[test]
fn totals_never_increase_down_the_list() {
    let es = vec![
        entry("A", "B", 0, 1),
        entry("C", "D", 1, 1),
        entry("E", "B", 2, 0),
        entry("E", "F", 5, 0),
        entry("G", "C", 0, 0),
    ];
    let r = compute_standings(&es);
    assert_eq!(r, vec![row("E", 6), row("B", 3), row("C", 2), row("D", 1), row("G", 1)]);
    for w in r.windows(2) {
        assert!(w[0].1 >= w[1].1);
    }
}

#[test]
fn ties_keep_order_of_first_points() {
    let es = vec![entry("Z", "Y", 1, 1), entry("X", "W", 0, 3), entry("X", "V", 2, 2)];
    let r = compute_standings(&es);
    assert_eq!(r, vec![row("W", 3), row("Z", 1), row("Y", 1), row("X", 1), row("V", 1)]);
}

#[test]
fn repeated_calls_agree() {
    let text = r#"{"A": {"B": [1,1], "C": [0,0]}, "B": {"C": [2,1]}}"#;
    let first = calculate_rankings(text);
    assert_eq!(first, calculate_rankings(text));
    assert_eq!(first, r#"[["B",4],["A",2],["C",1]]"#);
}

#[test]
fn negative_scores_compare_as_integers() {
    let es = vec![entry("A", "B", -1, -2)];
    assert_eq!(compute_standings(&es), vec![row("A", 3)]);
}

#[test]
fn standings_text_writes_json() {
    let es = vec![entry("Ann", "Bo", 0, 0)];
    assert_eq!(standings_text(&es), r#"[["Ann",1],["Bo",1]]"#);
    assert_eq!(standings_text(&Vec::new()), "[]");
}
