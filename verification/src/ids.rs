//! Minting top-level task ID numbers.
//!
//! A number comes from one past the floor: the highest number of the namespace
//! the track shows, raised to whatever the caller knows is spoken for beyond
//! the track (archived tasks, an archived whole track, the frontier recorded
//! for the working copy). Reading that knowledge off disk is the caller's
//! part; the rule is this module's.

use vstd::prelude::*;
use crate::model::Track;
use crate::task_id::{Token, stem, stem_of, tok_v};
use crate::task_ops::{find_max_id_in_track, max_num_track, max_nat};

verus! {

/// Everything a top-level mint needs: the namespace, and the highest number
/// known to be taken outside the track.
#[derive(Debug, Clone)]
pub struct Mint {
    prefix: String,
    token: Option<Token>,
    known: usize,
    durable: bool,
}

impl Mint {
    pub closed spec fn prefix_v(&self) -> Seq<char> {
        self.prefix@
    }

    /// The spelling of the mint's token, empty for the null namespace.
    pub closed spec fn token_v(&self) -> Seq<char> {
        match self.token {
            Some(t) => t@,
            None => Seq::empty(),
        }
    }

    pub closed spec fn known_v(&self) -> nat {
        self.known as nat
    }

    /// Whether the mint records what it hands out, so that a number once
    /// handed out is never offered again.
    pub closed spec fn durable_v(&self) -> bool {
        self.durable
    }

    /// The highest number taken in this mint's namespace, given the track.
    pub open spec fn floor_v(&self, track: Seq<crate::model::NodeV>) -> nat {
        max_nat(self.known_v(), max_num_track(track, stem(self.prefix_v(), self.token_v())))
    }

    /// A mint that also counts `known`, the highest number the caller found
    /// taken outside the track (archives and the recorded frontier), and
    /// that records each number it hands out.
    pub fn new(prefix: &str, token: Option<&Token>, known: usize) -> (r: Mint)
        ensures
            r.prefix_v() == prefix@,
            r.token_v() == tok_v(token),
            r.known_v() == known as nat,
            r.durable_v(),
    {
        let t = match token {
            Some(t) => Some(t.duplicate()),
            None => None,
        };
        Mint { prefix: String::from_str(prefix), token: t, known, durable: true }
    }

    /// A mint that counts the track alone and records nothing: numbers come
    /// from the track as it stands.
    pub fn scan_only(prefix: &str, token: Option<&Token>) -> (r: Mint)
        ensures
            r.prefix_v() == prefix@,
            r.token_v() == tok_v(token),
            r.known_v() == 0,
            !r.durable_v(),
    {
        let t = match token {
            Some(t) => Some(t.duplicate()),
            None => None,
        };
        Mint { prefix: String::from_str(prefix), token: t, known: 0, durable: false }
    }

    pub fn prefix(&self) -> (r: &str)
        ensures
            r@ == self.prefix_v(),
    {
        self.prefix.as_str()
    }

    pub fn token(&self) -> (r: Option<&Token>)
        ensures
            tok_v(r) == self.token_v(),
    {
        match &self.token {
            Some(t) => Some(t),
            None => None,
        }
    }

    /// The highest number taken in the namespace: in the track (by any ID
    /// whose top-level segment belongs to it) or known from elsewhere.
    pub fn floor(&self, track: &Track) -> (r: usize)
        ensures
            r as nat == self.floor_v(track@),
    {
        let st = stem_of(self.prefix.as_str(), self.token());
        let mut max = self.known;
        find_max_id_in_track(track, st.as_str(), &mut max);
        max
    }

    /// The next number for this namespace: one past the floor. A durable
    /// mint records it, so the next call offers the number after it.
    pub fn next(&mut self, track: &Track) -> (r: u32)
        requires
            old(self).floor_v(track@) < u32::MAX,
        ensures
            r as nat == old(self).floor_v(track@) + 1,
            final(self).prefix_v() == old(self).prefix_v(),
            final(self).token_v() == old(self).token_v(),
            final(self).durable_v() == old(self).durable_v(),
            final(self).known_v() == if old(self).durable_v() { r as nat } else { old(self).known_v() },
    {
        self.next_n(track, 1)
    }

    /// The first of `n` consecutive free numbers: one past the floor. A
    /// durable mint records the last of them.
    pub fn next_n(&mut self, track: &Track, n: u32) -> (r: u32)
        requires
            n >= 1,
            old(self).floor_v(track@) + n <= u32::MAX,
        ensures
            r as nat == old(self).floor_v(track@) + 1,
            final(self).prefix_v() == old(self).prefix_v(),
            final(self).token_v() == old(self).token_v(),
            final(self).durable_v() == old(self).durable_v(),
            final(self).known_v() == if old(self).durable_v() { r + n - 1 } else { old(self).known_v() as int },
    {
        self.next_n_above(track, 0, n)
    }

    /// The next number above both the floor and `extra_floor`, for a batch
    /// that has handed out numbers the track does not show yet. A durable
    /// mint records it.
    pub fn next_above(&mut self, track: &Track, extra_floor: u32) -> (r: u32)
        requires
            old(self).floor_v(track@) < u32::MAX,
            extra_floor < u32::MAX,
        ensures
            r as nat == max_nat(old(self).floor_v(track@), extra_floor as nat) + 1,
            final(self).prefix_v() == old(self).prefix_v(),
            final(self).token_v() == old(self).token_v(),
            final(self).durable_v() == old(self).durable_v(),
            final(self).known_v() == if old(self).durable_v() { r as nat } else { old(self).known_v() },
    {
        self.next_n_above(track, extra_floor, 1)
    }

    fn next_n_above(&mut self, track: &Track, extra_floor: u32, n: u32) -> (r: u32)
        requires
            n >= 1,
            max_nat(old(self).floor_v(track@), extra_floor as nat) + n <= u32::MAX,
        ensures
            r as nat == max_nat(old(self).floor_v(track@), extra_floor as nat) + 1,
            final(self).prefix_v() == old(self).prefix_v(),
            final(self).token_v() == old(self).token_v(),
            final(self).durable_v() == old(self).durable_v(),
            final(self).known_v() == if old(self).durable_v() { r + n - 1 } else { old(self).known_v() as int },
    {
        let f = self.floor(track);
        let fl = f as u32;
        let m = if fl > extra_floor { fl } else { extra_floor };
        if self.durable {
            self.known = (m + n) as usize;
        }
        m + 1
    }
}

} // verus!
