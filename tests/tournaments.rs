use chombot::messages::{build_message, TournamentsChannelMessageNotifier};
use chombot::tournaments::{
    check_single_ruleset, make_entry, parse_tournaments, tournaments_diff, CalendarRow,
    TournamentChange, TournamentEntry, TournamentStatus, TournamentStatuses, Tournaments,
    TournamentsFetchError,
};

fn entry(name: &str, rules: &str, date: &str, results: &str) -> TournamentEntry {
    TournamentEntry {
        name: name.to_owned(),
        url: "https://example.org".to_owned(),
        rules: rules.to_owned(),
        date: date.to_owned(),
        place: "Warsaw".to_owned(),
        approval_status: "OK".to_owned(),
        results_status: results.to_owned(),
    }
}

#[test]
fn test() {
    let diffs = vec![
        TournamentStatus::Changed(TournamentChange {
            name: "Poteto Riichi Taikai 2023".to_owned(),
            url: None,
            rules: None,
            date: Some("1-2 November 2023".to_owned()),
            place: None,
            approval_status: None,
            results_status: Some("Results".to_owned()),
        }),
        TournamentStatus::New(TournamentEntry {
            name: "Krakow Riichi Open".to_owned(),
            url: "https://chombo.club".to_owned(),
            rules: "RCR".to_owned(),
            date: "27-31 November 2023".to_owned(),
            place: "Krakow".to_owned(),
            approval_status: "OK".to_owned(),
            results_status: String::new(),
        }),
    ];

    assert_eq!(
        build_message(&TournamentStatuses(diffs)),
        [
            "* **CHANGED**: _Poteto Riichi Taikai 2023_; date: 1-2 November 2023; results: \"Results\"\n",
            "* **NEW**: _Krakow Riichi Open_ (https://chombo.club); 27-31 November 2023; Krakow; MERS: OK\n"
        ]
        .concat()
    );
}

#[test]
fn new_tournament_is_reported_as_new() {
    let new_entry = TournamentEntry {
        name: "Krakow Riichi Open".to_owned(),
        url: "https://chombo.club".to_owned(),
        rules: "RCR".to_owned(),
        date: "27-31 November 2023".to_owned(),
        place: "Krakow".to_owned(),
        approval_status: "OK".to_owned(),
        results_status: String::new(),
    };
    let diff = tournaments_diff(&Tournaments(vec![]), &Tournaments(vec![new_entry.clone()]));
    assert_eq!(diff.0, vec![TournamentStatus::New(new_entry)]);
}

#[test]
fn changed_tournament_lists_changed_fields_only() {
    let old = entry("Poteto Riichi Taikai 2023", "Riichi", "1 November 2023", "");
    let new = entry("Poteto Riichi Taikai 2023", "Riichi", "1-2 November 2023", "Results");
    let diff = tournaments_diff(&Tournaments(vec![old]), &Tournaments(vec![new]));
    assert_eq!(
        diff.0,
        vec![TournamentStatus::Changed(TournamentChange {
            name: "Poteto Riichi Taikai 2023".to_owned(),
            url: None,
            rules: None,
            date: Some("1-2 November 2023".to_owned()),
            place: None,
            approval_status: None,
            results_status: Some("Results".to_owned()),
        })]
    );
}

#[test]
fn snapshot_against_itself_has_no_diff() {
    let s = Tournaments(vec![
        entry("A", "Riichi", "1 May", ""),
        entry("B", "Riichi", "2 May", "Results"),
        entry("A", "Riichi", "3 May", ""),
    ]);
    assert_eq!(tournaments_diff(&s, &s).0, vec![]);
}

#[test]
fn duplicate_names_give_one_record_from_first_occurrence() {
    let first = entry("A", "Riichi", "1 May", "");
    let second = entry("A", "Riichi", "9 May", "Results");
    let diff = tournaments_diff(&Tournaments(vec![]), &Tournaments(vec![first.clone(), second]));
    assert_eq!(diff.0, vec![TournamentStatus::New(first)]);
}

#[test]
fn removed_and_equal_entries_give_no_record() {
    let a = entry("A", "Riichi", "1 May", "");
    let b = entry("B", "Riichi", "2 May", "");
    let c = entry("C", "Riichi", "3 May", "");
    let diff = tournaments_diff(
        &Tournaments(vec![a.clone(), b]),
        &Tournaments(vec![c.clone(), a]),
    );
    assert_eq!(diff.0, vec![TournamentStatus::New(c)]);
}

#[test]
fn old_lookup_uses_first_occurrence() {
    let old_first = entry("A", "Riichi", "1 May", "");
    let old_second = entry("A", "Riichi", "5 May", "");
    let new = entry("A", "Riichi", "5 May", "");
    let diff = tournaments_diff(&Tournaments(vec![old_first, old_second]), &Tournaments(vec![new]));
    assert_eq!(diff.0.len(), 1);
    match &diff.0[0] {
        TournamentStatus::Changed(c) => assert_eq!(c.date, Some("5 May".to_owned())),
        TournamentStatus::New(_) => panic!("expected a changed record"),
    }
}

#[test]
fn rcr_filter_keeps_riichi_entries_in_order() {
    let s = Tournaments(vec![
        entry("A", "Riichi", "1 May", ""),
        entry("B", "MCR", "2 May", ""),
        entry("C", "Riichi", "3 May", ""),
    ]);
    assert!(!check_single_ruleset(&s));
    let filtered = s.into_rcr_only();
    assert!(check_single_ruleset(&filtered));
    let names: Vec<&str> = filtered.0.iter().map(|e| e.name.as_str()).collect();
    assert_eq!(names, vec!["A", "C"]);
}

#[test]
fn message_with_prefix_and_all_changed_fields() {
    let statuses = TournamentStatuses(vec![TournamentStatus::Changed(TournamentChange {
        name: "T".to_owned(),
        url: Some("u".to_owned()),
        rules: None,
        date: Some("d".to_owned()),
        place: Some("p".to_owned()),
        approval_status: Some("a".to_owned()),
        results_status: None,
    })]);
    let text = TournamentsChannelMessageNotifier::<u64>::build_message(&statuses);
    assert_eq!(
        text,
        "**TOURNAMENTS UPDATE** (http://mahjong-europe.org/ranking/Calendar.html)\n\n* **CHANGED**: _T_; date: d; place: p; MERS approval: a\n"
    );
    let new_text = build_message(&TournamentStatuses(vec![TournamentStatus::New(entry(
        "N", "Riichi", "1 May", "Results",
    ))]));
    assert_eq!(
        new_text,
        "* **NEW**: _N_ (https://example.org); 1 May; Warsaw; MERS: OK; Results\n"
    );
}

#[test]
fn calendar_rows_are_dated_under_their_heading() {
    let cells = |name: &str, day: &str| -> Vec<String> {
        vec![name, "Riichi", day, "Paris", "OK", ""]
            .into_iter()
            .map(String::from)
            .collect()
    };
    let rows = vec![
        CalendarRow::Header("November 2023".to_owned()),
        CalendarRow::Entry { url: "https://a".to_owned(), texts: cells("A", "1-2") },
        CalendarRow::Header("December 2023".to_owned()),
        CalendarRow::Entry { url: String::new(), texts: cells("B", "3") },
    ];
    let parsed = parse_tournaments(&rows).unwrap();
    assert_eq!(parsed.0.len(), 2);
    assert_eq!(parsed.0[0].date, "1-2 November 2023");
    assert_eq!(parsed.0[0].url, "https://a");
    assert_eq!(parsed.0[1].date, "3 December 2023");
    assert_eq!(parsed.0[1].name, "B");
}

#[test]
fn calendar_row_with_wrong_columns_is_rejected() {
    let texts: Vec<String> = vec!["A".to_owned(), "Riichi".to_owned()];
    match make_entry("May", String::new(), &texts) {
        Err(TournamentsFetchError::ParseError(m)) => {
            assert_eq!(m, "Expected 6 columns in the EMA tournaments table; got 2")
        }
        other => panic!("unexpected {other:?}"),
    }
    let rows = vec![CalendarRow::Entry { url: String::new(), texts }];
    assert!(parse_tournaments(&rows).is_err());
}
