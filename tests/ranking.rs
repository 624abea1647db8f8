use chombot::messages::ChannelMessageNotifier;
use chombot::ranking::{parse_diff_column, CellMarker, PositionChangeInfo, Ranking, RankingEntry};

fn row(pos: u32, pos_diff: PositionChangeInfo, name: &str, points: u32, points_diff: PositionChangeInfo) -> RankingEntry {
    RankingEntry { pos, pos_diff, name: name.to_owned(), points, points_diff }
}

#[test]
fn test_channel_message_notifier_build_message() {
    let notifier = ChannelMessageNotifier::new(123, "TEST_MESSAGE".into());
    let ranking = Ranking(vec![
        RankingEntry {
            pos: 1,
            pos_diff: PositionChangeInfo::Diff(0),
            name: "player-name-001".to_owned(),
            points: 1966,
            points_diff: PositionChangeInfo::Diff(0),
        },
        RankingEntry {
            pos: 3,
            pos_diff: PositionChangeInfo::Diff(3),
            name: "player-name-002".to_owned(),
            points: 1893,
            points_diff: PositionChangeInfo::New,
        },
        RankingEntry {
            pos: 5,
            pos_diff: PositionChangeInfo::New,
            name: "player-name-003".to_owned(),
            points: 1830,
            points_diff: PositionChangeInfo::Diff(-60),
        },
        RankingEntry {
            pos: 8,
            pos_diff: PositionChangeInfo::Diff(-3),
            name: "player-name-004".to_owned(),
            points: 1718,
            points_diff: PositionChangeInfo::Diff(73),
        },
    ]);

    let message = notifier.build_message(&ranking);

    assert_eq!(
        message,
        [
            "TEST_MESSAGE\n",
            "\n",
            "Latest changes:\n",
            "• 3 (↑3) / player-name-002 / 1893 pkt\n",
            "• 5 (NEW) / player-name-003 / 1830 (-60) pkt\n",
            "• 8 (↓3) / player-name-004 / 1718 (+73) pkt"
        ]
        .concat()
    );
    assert_eq!(notifier.channel_id(), 123);
}

#[test]
fn moved_row_is_in_changed_subset_and_unmoved_row_is_not() {
    let moved = row(3, PositionChangeInfo::Diff(3), "<name>", 1893, PositionChangeInfo::New);
    let still = row(4, PositionChangeInfo::Diff(0), "still", 1800, PositionChangeInfo::Diff(0));
    assert!(moved.has_changed());
    assert!(!still.has_changed());
    assert!(PositionChangeInfo::New.has_changed());
    assert!(PositionChangeInfo::Diff(-1).has_changed());
    assert!(!PositionChangeInfo::Diff(0).has_changed());
    let ranking = Ranking(vec![still.clone(), moved.clone()]);
    assert_eq!(ranking.get_changed(), vec![&moved]);
    let text = ChannelMessageNotifier::new(1, String::new()).build_message(&ranking);
    assert_eq!(text, "\n\nLatest changes:\n• 3 (↑3) / <name> / 1893 pkt");
}

#[test]
fn rankings_with_same_changed_rows_are_equal() {
    let moved = row(2, PositionChangeInfo::Diff(1), "m", 1500, PositionChangeInfo::Diff(12));
    let a = Ranking(vec![
        row(1, PositionChangeInfo::Diff(0), "x", 1600, PositionChangeInfo::Diff(0)),
        moved.clone(),
    ]);
    let b = Ranking(vec![
        moved.clone(),
        row(7, PositionChangeInfo::Diff(0), "y", 900, PositionChangeInfo::Diff(0)),
        row(8, PositionChangeInfo::Diff(0), "z", 800, PositionChangeInfo::Diff(0)),
    ]);
    assert!(a == b);
    let c = Ranking(vec![row(2, PositionChangeInfo::Diff(1), "m", 1500, PositionChangeInfo::Diff(13))]);
    assert!(a != c);
}

#[test]
fn extreme_deltas_render_in_full() {
    let ranking = Ranking(vec![row(
        10,
        PositionChangeInfo::Diff(i32::MIN),
        "n",
        0,
        PositionChangeInfo::Diff(i32::MAX),
    )]);
    let text = ChannelMessageNotifier::new(1, "M".to_owned()).build_message(&ranking);
    assert_eq!(text, "M\n\nLatest changes:\n• 10 (↓2147483648) / n / 0 (+2147483647) pkt");
}

#[test]
fn change_column_marks_read_as_moves() {
    assert_eq!(parse_diff_column(CellMarker::Absent, None).unwrap(), PositionChangeInfo::Diff(0));
    assert_eq!(parse_diff_column(CellMarker::Info, Some("NEW")).unwrap(), PositionChangeInfo::New);
    assert_eq!(parse_diff_column(CellMarker::Success, Some("163")).unwrap(), PositionChangeInfo::Diff(163));
    assert_eq!(parse_diff_column(CellMarker::Danger, Some("60")).unwrap(), PositionChangeInfo::Diff(-60));
    assert!(parse_diff_column(CellMarker::Danger, Some("-2147483648")).is_err());
    assert!(parse_diff_column(CellMarker::Success, Some("x")).is_err());
    assert!(parse_diff_column(CellMarker::Success, None).is_err());
    assert!(parse_diff_column(CellMarker::Other, Some("1")).is_err());
}
