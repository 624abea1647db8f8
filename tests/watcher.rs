use chombot::ranking::{PositionChangeInfo, Ranking, RankingEntry};
use chombot::tournaments::{TournamentEntry, TournamentStatus, Tournaments};
use chombot::watcher::{DataWatcher, WatchableData};

fn snapshot(date: &str) -> Tournaments {
    Tournaments(vec![TournamentEntry {
        name: "Open".to_owned(),
        url: String::new(),
        rules: "Riichi".to_owned(),
        date: date.to_owned(),
        place: "Lodz".to_owned(),
        approval_status: "OK".to_owned(),
        results_status: String::new(),
    }])
}

#[test]
fn failed_fetch_keeps_previous_and_notifies_nothing() {
    let mut watcher: DataWatcher<Tournaments, (), ()> = DataWatcher::new((), ());
    assert!(watcher.handle_fetch::<String>(Ok(snapshot("1 May"))).is_none());
    let before = watcher.previous().clone();
    assert!(watcher.handle_fetch::<String>(Err("timeout".to_owned())).is_none());
    assert_eq!(watcher.previous(), &before);
    assert_eq!(watcher.previous(), &Some(snapshot("1 May")));
}

#[test]
fn first_fetch_stores_without_notifying_and_change_notifies() {
    let mut watcher: DataWatcher<Tournaments, &str, u8> = DataWatcher::new("notifier", 7);
    assert!(watcher.previous().is_none());
    assert!(watcher.handle_fetch::<()>(Ok(snapshot("1 May"))).is_none());
    assert!(watcher.handle_fetch::<()>(Ok(snapshot("1 May"))).is_none());
    let diff = watcher.handle_fetch::<()>(Ok(snapshot("2 May"))).unwrap();
    assert_eq!(diff.0.len(), 1);
    assert!(matches!(&diff.0[0], TournamentStatus::Changed(c) if c.date == Some("2 May".to_owned())));
    assert_eq!(watcher.previous(), &Some(snapshot("2 May")));
    assert_eq!(*watcher.notifier(), "notifier");
    assert_eq!(*watcher.fetcher(), 7);
}

#[test]
fn absent_side_gives_no_diff_and_absent_new_keeps_old() {
    let old = Some(snapshot("1 May"));
    assert!(old.should_notify(&None).is_none());
    assert!(None::<Tournaments>.should_notify(&Some(snapshot("2 May"))).is_none());
    let mut stored = Some(snapshot("1 May"));
    stored.update(None);
    assert_eq!(stored, Some(snapshot("1 May")));
    stored.update(Some(snapshot("3 May")));
    assert_eq!(stored, Some(snapshot("3 May")));
    let mut empty: Option<Tournaments> = None;
    empty.update(Some(snapshot("4 May")));
    assert_eq!(empty, Some(snapshot("4 May")));
}

#[test]
fn ranking_watcher_ignores_unchanged_rows() {
    let entry = |pos: u32, d: i32| RankingEntry {
        pos,
        pos_diff: PositionChangeInfo::Diff(d),
        name: format!("p{pos}"),
        points: 1000,
        points_diff: PositionChangeInfo::Diff(0),
    };
    let a = Ranking(vec![entry(1, 0), entry(2, 1)]);
    let b = Ranking(vec![entry(2, 1), entry(5, 0)]);
    assert!(a.should_notify(&b).is_none());
    let c = Ranking(vec![entry(2, 2)]);
    let diff = a.should_notify(&c).unwrap();
    assert_eq!(diff.0, c.0);
}
