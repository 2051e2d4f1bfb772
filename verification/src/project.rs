//! A whole project as the operations that span tracks see it: its tracks in
//! configured order, its ID prefixes and clean settings, and what the caller
//! read from disk about it beyond the track files.

use vstd::prelude::*;
use crate::model::{Track, Inbox, NodeV};
use crate::task_id::Token;

verus! {

/// Archival settings.
#[derive(Debug, Clone, Copy)]
pub struct CleanConfig {
    /// Whether done tasks past the threshold move to a per-track archive.
    pub archive_per_track: bool,
    /// How many done tasks a track may hold before archival starts.
    pub done_threshold: usize,
    /// How many of the most recently resolved done tasks stay when it does.
    pub done_retain: usize,
}

impl Default for CleanConfig {
    fn default() -> (r: CleanConfig)
        ensures
            r.archive_per_track,
            r.done_threshold == 250,
            r.done_retain == 100,
    {
        CleanConfig { archive_per_track: true, done_threshold: 250, done_retain: 100 }
    }
}

/// Which namespace a working copy may mint IDs in: its token's, the null
/// namespace's (`Mint(None)`), or none at all.
#[derive(Debug, Clone)]
pub enum IdScope {
    Mint(Option<Token>),
    Unclaimed,
}

/// A project in memory.
#[derive(Debug)]
pub struct Project {
    /// The tracks, each under its ID.
    pub tracks: Vec<(String, Track)>,
    /// Track IDs in configured order, which decides precedence between
    /// duplicate task IDs.
    pub track_order: Vec<String>,
    /// The state configured for each track: `active`, `shelved`, `archived`.
    pub track_states: Vec<(String, String)>,
    /// The ID prefix configured for each track.
    pub prefixes: Vec<(String, String)>,
    pub clean: CleanConfig,
    pub inbox: Option<Inbox>,
    /// For a track, the highest number of its minting namespace known to be
    /// taken outside the track file (its archives, the recorded frontier).
    pub id_floors: Vec<(String, usize)>,
    /// The text of each track's done-task archive, as read (absent: none).
    pub archives: Vec<(String, String)>,
    /// Paths named by `ref:` or `spec:` that do not exist under the project
    /// root.
    pub missing_paths: Vec<String>,
}

/// The tracks of a project by their views.
pub open spec fn tracks_view(v: Seq<(String, Track)>) -> Seq<(Seq<char>, Seq<NodeV>)> {
    v.map_values(|p: (String, Track)| (p.0@, p.1@))
}

/// The value a list of string pairs is keyed and read by.
pub open spec fn pairs_view(v: Seq<(String, String)>) -> Seq<(Seq<char>, Seq<char>)> {
    v.map_values(|p: (String, String)| (p.0@, p.1@))
}

/// The value of the first pair keyed `k`.
pub open spec fn lookup_from<V>(v: Seq<(Seq<char>, V)>, k: Seq<char>, i: int) -> Option<V>
    decreases v.len() - i,
{
    if i < 0 || i >= v.len() {
        None
    } else if v[i].0 == k {
        Some(v[i].1)
    } else {
        lookup_from(v, k, i + 1)
    }
}

pub open spec fn lookup_v<V>(v: Seq<(Seq<char>, V)>, k: Seq<char>) -> Option<V> {
    lookup_from(v, k, 0)
}

/// The prefix configured for a track.
pub fn prefix_for(prefixes: &Vec<(String, String)>, track_id: &str) -> (r: Option<String>)
    ensures
        match r {
            Some(p) => lookup_v(pairs_view(prefixes@), track_id@) == Some(p@),
            None => lookup_v(pairs_view(prefixes@), track_id@) is None,
        },
{
    let mut i: usize = 0;
    while i < prefixes.len()
        invariant
            i <= prefixes@.len(),
            lookup_v(pairs_view(prefixes@), track_id@) == lookup_from(pairs_view(prefixes@), track_id@, i as int),
        decreases prefixes.len() - i,
    {
        if crate::text::str_eq(prefixes[i].0.as_str(), track_id) {
            return Some(prefixes[i].1.clone());
        }
        i += 1;
    }
    None
}

/// The floor number recorded for a track, 0 when none is.
pub fn floor_for(floors: &Vec<(String, usize)>, track_id: &str) -> (r: usize)
    ensures
        r as nat == match lookup_v(floors@.map_values(|p: (String, usize)| (p.0@, p.1)), track_id@) {
            Some(n) => n as nat,
            None => 0,
        },
{
    let ghost fv = floors@.map_values(|p: (String, usize)| (p.0@, p.1));
    let mut i: usize = 0;
    while i < floors.len()
        invariant
            i <= floors@.len(),
            fv == floors@.map_values(|p: (String, usize)| (p.0@, p.1)),
            lookup_v(fv, track_id@) == lookup_from(fv, track_id@, i as int),
        decreases floors.len() - i,
    {
        if crate::text::str_eq(floors[i].0.as_str(), track_id) {
            return floors[i].1;
        }
        i += 1;
    }
    0
}

} // verus!
