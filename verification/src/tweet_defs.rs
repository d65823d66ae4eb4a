//! Raw status-feed records and the reduced core view kept for reporting.

use vstd::prelude::*;

verus! {

/// The author of a status record.
#[derive(Debug, Clone)]
pub struct User {
    pub id: u64,
    pub id_str: String,
    pub name: String,
    pub screen_name: String,
    pub location: Option<String>,
    pub url: Option<String>,
    pub description: Option<String>,
    pub followers_count: u32,
    pub friends_count: u32,
    pub statuses_count: u32,
    pub created_at: String,
}

/// A user mentioned inside a status text, with the character range of the
/// mention.
#[derive(Debug, Clone)]
pub struct Mention {
    pub screen_name: String,
    pub name: String,
    pub id: u64,
    pub id_str: String,
    pub indices: Vec<u32>,
}

/// The entities attached to a status record.
#[derive(Debug, Clone)]
pub struct Entities {
    pub user_mentions: Vec<Mention>,
}

/// The fields of a status record that reporting keeps.
#[derive(Debug, Clone)]
pub struct TweetCore {
    pub text: String,
    pub retweet_count: u32,
    pub user: User,
}

/// A full raw status record.
#[derive(Debug, Clone)]
pub struct Tweet {
    pub created_at: String,
    pub id: u64,
    pub id_str: String,
    pub text: String,
    pub display_text_range: Option<Vec<u32>>,
    pub source: String,
    pub truncated: bool,
    pub in_reply_to_status_id: Option<u64>,
    pub in_reply_to_status_id_str: Option<String>,
    pub in_reply_to_user_id: Option<u64>,
    pub in_reply_to_user_id_str: Option<String>,
    pub in_reply_to_screen_name: Option<String>,
    pub user: User,
    pub geo: Option<String>,
    pub coordinates: Option<String>,
    pub place: Option<String>,
    pub contributors: Option<String>,
    pub is_quote_status: bool,
    pub quote_count: Option<u32>,
    pub reply_count: Option<u32>,
    pub retweet_count: u32,
    pub favorite_count: u32,
    pub entities: Entities,
    pub favorited: bool,
    pub retweeted: bool,
    pub filter_level: Option<String>,
    pub lang: Option<String>,
    pub timestamp_ms: Option<String>,
}

impl Tweet {
    /// Reduces a raw record to the core fields, moving them unchanged.
    pub fn tweet_core(original: Tweet) -> (r: TweetCore)
        ensures
            r.text == original.text,
            r.retweet_count == original.retweet_count,
            r.user == original.user,
    {
        TweetCore { text: original.text, retweet_count: original.retweet_count, user: original.user }
    }
}

} // verus!
