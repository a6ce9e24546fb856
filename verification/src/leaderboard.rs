//! Leaderboard rows and the queries that rank them.
use vstd::prelude::*;

use vstd::string::StringExecFns;

verus! {

#[derive(Debug, Clone)]
pub struct ScoreEntry {
    pub id: Option<i64>,
    pub song_dir: String,
    pub song_title: String,
    pub player_name: String,
    pub score: i64,
    pub hits: i64,
    pub partials: i64,
    pub misses: i64,
    pub created_at: Option<i64>,
    pub player_id: Option<i64>,
    /// JSON-encoded list of player ids for duets/group sessions.
    pub player_ids: Option<String>,
    pub photo_path: Option<String>,
}

/// Columns read for a leaderboard row, the player's photo joined in.
pub open spec fn select_cols() -> Seq<char> {
    "s.id, s.song_dir, s.song_title, s.player_name, s.score, s.hits, s.partials, s.misses, s.created_at, s.player_id, s.player_ids, p.photo_path"@
}

/// Best scores of one song (`?1`), highest first and earliest first on a
/// tie, at most `?2` rows.
pub fn song_top_sql() -> (r: String)
    ensures
        r@ == "SELECT "@ + select_cols()
            + " FROM scores s LEFT JOIN players p ON p.id = s.player_id\n         WHERE s.song_dir = ?1 ORDER BY s.score DESC, s.created_at ASC LIMIT ?2"@,
{
    String::from_str("SELECT ").concat(
        "s.id, s.song_dir, s.song_title, s.player_name, s.score, s.hits, s.partials, s.misses, s.created_at, s.player_id, s.player_ids, p.photo_path",
    ).concat(
        " FROM scores s LEFT JOIN players p ON p.id = s.player_id\n         WHERE s.song_dir = ?1 ORDER BY s.score DESC, s.created_at ASC LIMIT ?2",
    )
}

/// Best scores over all songs, highest first and earliest first on a tie,
/// at most `?1` rows.
pub fn global_top_sql() -> (r: String)
    ensures
        r@ == "SELECT "@ + select_cols()
            + " FROM scores s LEFT JOIN players p ON p.id = s.player_id\n         ORDER BY s.score DESC, s.created_at ASC LIMIT ?1"@,
{
    String::from_str("SELECT ").concat(
        "s.id, s.song_dir, s.song_title, s.player_name, s.score, s.hits, s.partials, s.misses, s.created_at, s.player_id, s.player_ids, p.photo_path",
    ).concat(
        " FROM scores s LEFT JOIN players p ON p.id = s.player_id\n         ORDER BY s.score DESC, s.created_at ASC LIMIT ?1",
    )
}

} // verus!
