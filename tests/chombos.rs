use chombot::chombos::{create_chombo_ranking, create_chombos_list, format_chombo_entry, get_chombo_list, Chombo};
use chombot::players::{DiscordId, Player, PlayerId};

fn player(id: &str, nickname: &str) -> Player {
    Player {
        id: PlayerId(id.to_owned()),
        first_name: String::new(),
        last_name: String::new(),
        nickname: nickname.to_owned(),
        discord_id: DiscordId(format!("d-{id}")),
    }
}

fn chombo(ts: i64, id: &str, comment: &str) -> Chombo {
    Chombo::new(ts, &PlayerId(id.to_owned()), comment)
}

#[test]
fn ranking_counts_and_orders_players() {
    let players = vec![player("a", "A"), player("b", "B"), player("c", "C")];
    let chombos = vec![
        chombo(1, "b", ""),
        chombo(2, "a", ""),
        chombo(3, "a", ""),
        chombo(4, "c", ""),
        chombo(5, "b", ""),
        chombo(6, "a", ""),
    ];
    let ranking = create_chombo_ranking(&players, &chombos).unwrap();
    let summary: Vec<(String, usize)> = ranking.iter().map(|(p, n)| (p.short_name(), *n)).collect();
    assert_eq!(summary, vec![("A".to_owned(), 3), ("B".to_owned(), 2), ("C".to_owned(), 1)]);
}

#[test]
fn ranking_ties_keep_first_penalty_order_and_unknown_player_fails() {
    let players = vec![player("a", "A"), player("b", "B"), player("a", "A2")];
    let chombos = vec![chombo(1, "b", ""), chombo(2, "a", "")];
    let ranking = create_chombo_ranking(&players, &chombos).unwrap();
    let names: Vec<String> = ranking.iter().map(|(p, _)| p.short_name()).collect();
    assert_eq!(names, vec!["B", "A2"]);
    assert!(create_chombo_ranking(&players, &vec![chombo(1, "zzz", "")]).is_none());
    assert!(create_chombo_ranking(&players, &vec![]).unwrap().is_empty());
}

#[test]
fn list_is_newest_first_with_players() {
    let players = vec![player("a", "A"), player("b", "B")];
    let chombos = vec![chombo(5, "a", "one"), chombo(9, "b", "two"), chombo(5, "b", "three")];
    let list = get_chombo_list(&players, &chombos).unwrap();
    let got: Vec<(String, String)> = list.iter().map(|(p, c)| (p.short_name(), c.comment.clone())).collect();
    assert_eq!(
        got,
        vec![
            ("B".to_owned(), "two".to_owned()),
            ("B".to_owned(), "three".to_owned()),
            ("A".to_owned(), "one".to_owned()),
        ]
    );
    assert!(get_chombo_list(&players, &vec![chombo(1, "x", "")]).is_none());
}

#[test]
fn list_text_stops_at_first_entry_that_does_not_fit() {
    let p = player("a", "A");
    let with_comment = format_chombo_entry(&p, "Monday, 2024-05-06 20:15", &chombo(1, "a", "riichi without tenpai"));
    assert_eq!(with_comment, "<@!d-a> at Monday, 2024-05-06 20:15: *riichi without tenpai*\n");
    let without = format_chombo_entry(&p, "Sunday", &chombo(1, "a", ""));
    assert_eq!(without, "<@!d-a> at Sunday\n");
    let entries = vec!["12345\n".to_owned(), "123\n".to_owned(), "1\n".to_owned()];
    assert_eq!(create_chombos_list(&entries, 10), "12345\n123\n");
    assert_eq!(create_chombos_list(&entries, 9), "12345\n");
    assert_eq!(create_chombos_list(&entries, 100), "12345\n123\n1\n");
    assert_eq!(create_chombos_list(&entries, 3), "");
}
