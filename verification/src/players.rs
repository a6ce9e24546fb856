//! The singers' queue, as stored between sessions.
use vstd::prelude::*;

verus! {

#[derive(Debug, Clone)]
pub struct QueueEntry {
    pub id: String,
    pub player_name: String,
    pub song_dir: String,
}

/// The queue being sung through and the position in it.
#[derive(Debug, Clone)]
pub struct ActiveQueueState {
    pub entries: Vec<QueueEntry>,
    pub queue_idx: i32,
}

} // verus!
