//! Club players as the scoring backend knows them.

use vstd::prelude::*;

verus! {

/// Identifier of a player in the scoring backend.
#[derive(Clone, Default, PartialEq, Eq, Hash, Debug)]
pub struct PlayerId(pub String);

/// Identifier of a chat user.
#[derive(Clone, Default, PartialEq, Eq, Hash, Debug)]
pub struct DiscordId(pub String);

/// A registered player.
#[derive(Clone, Debug)]
pub struct Player {
    pub id: PlayerId,
    pub first_name: String,
    pub last_name: String,
    pub nickname: String,
    pub discord_id: DiscordId,
}

/// The name a player goes by: the nickname, or the full name without one.
pub open spec fn short_name_of(first_name: Seq<char>, last_name: Seq<char>, nickname: Seq<char>) -> Seq<char> {
    if nickname.len() == 0 {
        first_name + " "@ + last_name
    } else {
        nickname
    }
}

impl Player {
    /// A player known only by a nickname and a chat user.
    pub fn new_from_discord(id: PlayerId, nickname: String, discord_id: DiscordId) -> (r: Self)
        ensures
            r.id == id,
            r.first_name@.len() == 0,
            r.last_name@.len() == 0,
            r.nickname == nickname,
            r.discord_id == discord_id,
    {
        Player {
            id,
            first_name: String::new(),
            last_name: String::new(),
            nickname,
            discord_id,
        }
    }

    /// The name the player goes by: the nickname, or first and last name
    /// separated by a space when there is no nickname.
    pub fn short_name(&self) -> (r: String)
        ensures
            r@ == short_name_of(self.first_name@, self.last_name@, self.nickname@),
    {
        if self.nickname.as_str().is_empty() {
            let mut name = self.first_name.clone();
            name.append(" ");
            name.append(self.last_name.as_str());
            name
        } else {
            self.nickname.clone()
        }
    }
}

} // verus!
