use chombot::players::{DiscordId, Player, PlayerId};

#[test]
fn short_name_should_return_nickname() {
    let player = Player {
        id: Default::default(),
        first_name: "A".to_string(),
        last_name: "B".to_string(),
        nickname: "C".to_string(),
        discord_id: Default::default(),
    };
    assert_eq!(player.short_name(), "C");
}

#[test]
fn short_name_should_return_full_name() {
    let player = Player {
        id: Default::default(),
        first_name: "A".to_string(),
        last_name: "B".to_string(),
        nickname: String::new(),
        discord_id: Default::default(),
    };
    assert_eq!(player.short_name(), "A B");
}

#[test]
fn player_from_discord_has_no_real_name() {
    let player = Player::new_from_discord(
        PlayerId("p1".to_owned()),
        "Nick".to_owned(),
        DiscordId("42".to_owned()),
    );
    assert_eq!(player.id, PlayerId("p1".to_owned()));
    assert_eq!(player.discord_id, DiscordId("42".to_owned()));
    assert!(player.first_name.is_empty() && player.last_name.is_empty());
    assert_eq!(player.short_name(), "Nick");
}
