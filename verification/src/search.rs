//! Searching tasks and inbox items with a regular expression.
//!
//! Matching is the regex crate's: what the library states is which fields
//! are searched, in what order, and which hits are reported.

use vstd::prelude::*;
use std::ops::Range;
use crate::model::{Metadata, MetaV, Task, TaskV, Track, TrackNode, NodeV, Inbox, ItemV, tasks_v, metas_v,
    strs_v, node_v, node_tasks, items_v, item_v};
use crate::project::{Project, pairs_view, tracks_view};
use crate::text::str_eq;

verus! {

#[verifier::external_type_specification]
#[verifier::external_body]
pub struct ExRegex(regex::Regex);

/// Whether the regex crate accepts a pattern.
pub uninterp spec fn regex_accepts(pattern: Seq<char>) -> bool;

/// The byte ranges of the successive non-overlapping matches of a pattern
/// in a text, as the regex crate finds them.
pub uninterp spec fn regex_spans(pattern: Seq<char>, text: Seq<char>) -> Seq<(usize, usize)>;

/// Wraps `regex::Regex::new`: whether it accepts the pattern is what
/// `regex_accepts` names.
#[verifier::external_body]
fn compile(pattern: &str) -> (r: Option<regex::Regex>)
    ensures
        r is Some == regex_accepts(pattern@),
{
    regex::Regex::new(pattern).ok()
}

/// A compiled regular expression, with the pattern it was compiled from.
pub struct Pattern {
    text: String,
    re: regex::Regex,
}

impl View for Pattern {
    type V = Seq<char>;

    closed spec fn view(&self) -> Seq<char> {
        self.text@
    }
}

impl Pattern {
    /// Compile a pattern; `None` when the regex crate rejects it.
    pub fn new(pattern: &str) -> (r: Option<Pattern>)
        ensures
            match r {
                Some(p) => p@ == pattern@ && regex_accepts(pattern@),
                None => !regex_accepts(pattern@),
            },
    {
        match compile(pattern) {
            Some(re) => Some(Pattern { text: String::from_str(pattern), re }),
            None => None,
        }
    }

    /// The pattern as written.
    pub fn as_str(&self) -> (r: &str)
        ensures
            r@ == self@,
    {
        self.text.as_str()
    }
}

pub open spec fn ranges_v(v: Seq<Range<usize>>) -> Seq<(usize, usize)> {
    v.map_values(|r: Range<usize>| (r.start, r.end))
}

/// Wraps `regex::Regex::find_iter`: the ranges of the matches of a pattern
/// in a text are what `regex_spans` names for the pattern it was compiled
/// from.
#[verifier::external_body]
fn find_matches(p: &Pattern, text: &str) -> (r: Vec<Range<usize>>)
    ensures
        ranges_v(r@) == regex_spans(p@, text@),
{
    p.re.find_iter(text).map(|m| m.range()).collect()
}

/// Which field of a task or inbox item matched.
#[derive(Debug, Clone, Copy, PartialEq, Eq, Structural)]
pub enum MatchField {
    Id,
    Title,
    Tag,
    Note,
    Dep,
    Ref,
    Spec,
    /// Inbox body text
    Body,
}

/// A search hit for a task field.
#[derive(Debug, Clone)]
pub struct SearchHit {
    pub track_id: String,
    pub task_id: String,
    pub field: MatchField,
    pub spans: Vec<Range<usize>>,
}

/// A search hit for an inbox item; `item_index` counts from zero.
#[derive(Debug, Clone)]
pub struct InboxSearchHit {
    pub item_index: usize,
    pub field: MatchField,
    pub spans: Vec<Range<usize>>,
}

pub type HitV = (Seq<char>, Seq<char>, MatchField, Seq<(usize, usize)>);

pub open spec fn hits_view(v: Seq<SearchHit>) -> Seq<HitV> {
    v.map_values(|h: SearchHit| (h.track_id@, h.task_id@, h.field, ranges_v(h.spans@)))
}

/// A hit on one text, when the pattern matches it at all.
pub open spec fn hit_on(p: Seq<char>, tid: Seq<char>, id: Seq<char>, field: MatchField, text: Seq<char>) -> Seq<HitV> {
    if regex_spans(p, text).len() > 0 {
        seq![(tid, id, field, regex_spans(p, text))]
    } else {
        Seq::empty()
    }
}

/// The hits on each of the texts `xs`, in order.
pub open spec fn hits_on_all(p: Seq<char>, tid: Seq<char>, id: Seq<char>, field: MatchField, xs: Seq<Seq<char>>) -> Seq<HitV>
    decreases xs.len(),
{
    if xs.len() == 0 {
        Seq::empty()
    } else {
        hits_on_all(p, tid, id, field, xs.drop_last()) + hit_on(p, tid, id, field, xs.last())
    }
}

/// The hits on a task's metadata: notes, deps, refs and specs, in order.
pub open spec fn meta_hits(p: Seq<char>, tid: Seq<char>, id: Seq<char>, ms: Seq<MetaV>) -> Seq<HitV>
    decreases ms.len(),
{
    if ms.len() == 0 {
        Seq::empty()
    } else {
        meta_hits(p, tid, id, ms.drop_last()) + match ms.last() {
            MetaV::Note(n) => hit_on(p, tid, id, MatchField::Note, n),
            MetaV::Dep(l) => hits_on_all(p, tid, id, MatchField::Dep, l),
            MetaV::Ref(l) => hits_on_all(p, tid, id, MatchField::Ref, l),
            MetaV::Spec(s) => hit_on(p, tid, id, MatchField::Spec, s),
            _ => Seq::empty(),
        }
    }
}

pub open spec fn id_text(t: TaskV) -> Seq<char> {
    match t.id {
        Some(x) => x,
        None => Seq::empty(),
    }
}

/// The hits on a task's own fields: its ID, title, tags and metadata.
pub open spec fn own_hits(p: Seq<char>, tid: Seq<char>, t: TaskV) -> Seq<HitV> {
    (match t.id {
        Some(x) => hit_on(p, tid, x, MatchField::Id, x),
        None => Seq::empty(),
    }) + hit_on(p, tid, id_text(t), MatchField::Title, t.title)
        + hits_on_all(p, tid, id_text(t), MatchField::Tag, t.tags)
        + meta_hits(p, tid, id_text(t), t.metadata)
}

/// The hits on a task and its subtree, in file order.
pub open spec fn hits_t(p: Seq<char>, tid: Seq<char>, t: TaskV) -> Seq<HitV>
    decreases t, 0int,
{
    own_hits(p, tid, t) + hits_l(p, tid, t.subtasks, 0)
}

pub open spec fn hits_l(p: Seq<char>, tid: Seq<char>, ts: Seq<TaskV>, i: int) -> Seq<HitV>
    decreases ts, ts.len() - i,
{
    if i < 0 || i >= ts.len() {
        Seq::empty()
    } else {
        hits_t(p, tid, ts[i]) + hits_l(p, tid, ts, i + 1)
    }
}

pub open spec fn hits_nodes(p: Seq<char>, tid: Seq<char>, nodes: Seq<NodeV>, i: int) -> Seq<HitV>
    decreases nodes.len() - i,
{
    if i < 0 || i >= nodes.len() {
        Seq::empty()
    } else {
        hits_l(p, tid, node_tasks(nodes[i]), 0) + hits_nodes(p, tid, nodes, i + 1)
    }
}

/// Whether a track is searched: the one a filter names, whatever its state;
/// without a filter, those configured `active`.
pub open spec fn searched(tid: Seq<char>, filter: Option<Seq<char>>, states: Seq<(Seq<char>, Seq<char>)>) -> bool {
    match filter {
        Some(f) => tid == f,
        None => states.contains((tid, "active"@)),
    }
}

/// The hits of the tracks from `i` on.
pub open spec fn hits_tracks(
    p: Seq<char>,
    tracks: Seq<(Seq<char>, Seq<NodeV>)>,
    filter: Option<Seq<char>>,
    states: Seq<(Seq<char>, Seq<char>)>,
    i: int,
) -> Seq<HitV>
    decreases tracks.len() - i,
{
    if i < 0 || i >= tracks.len() {
        Seq::empty()
    } else {
        (if searched(tracks[i].0, filter, states) { hits_nodes(p, tracks[i].0, tracks[i].1, 0) } else { Seq::empty() })
            + hits_tracks(p, tracks, filter, states, i + 1)
    }
}

fn push_hit(p: &Pattern, tid: &str, id: &str, field: MatchField, text: &str, hits: &mut Vec<SearchHit>)
    ensures
        hits_view(final(hits)@) == hits_view(old(hits)@) + hit_on(p@, tid@, id@, field, text@),
{
    let spans = find_matches(p, text);
    if spans.len() > 0 {
        let ghost b = hits@;
        let h = SearchHit { track_id: String::from_str(tid), task_id: String::from_str(id), field, spans };
        hits.push(h);
        assert(hits@ == b.push(h));
        assert(hits_view(hits@) =~= hits_view(b).push((tid@, id@, field, regex_spans(p@, text@))));
    } else {
        assert(hits_view(hits@) =~= hits_view(hits@) + Seq::<HitV>::empty());
    }
}

fn push_hits_all(p: &Pattern, tid: &str, id: &str, field: MatchField, xs: &Vec<String>, hits: &mut Vec<SearchHit>)
    ensures
        hits_view(final(hits)@) == hits_view(old(hits)@) + hits_on_all(p@, tid@, id@, field, strs_v(xs@)),
{
    let ghost xv = strs_v(xs@);
    let ghost h0 = hits_view(hits@);
    let mut i: usize = 0;
    while i < xs.len()
        invariant
            i <= xs@.len(),
            xv == strs_v(xs@),
            hits_view(hits@) == h0 + hits_on_all(p@, tid@, id@, field, xv.take(i as int)),
        decreases xs.len() - i,
    {
        assert(xv.take(i + 1).drop_last() =~= xv.take(i as int));
        push_hit(p, tid, id, field, xs[i].as_str(), hits);
        i += 1;
        assert(hits_view(hits@) =~= h0 + hits_on_all(p@, tid@, id@, field, xv.take(i as int)));
    }
    assert(xv.take(i as int) =~= xv);
}

fn push_meta_hits(p: &Pattern, tid: &str, id: &str, ms: &Vec<Metadata>, hits: &mut Vec<SearchHit>)
    ensures
        hits_view(final(hits)@) == hits_view(old(hits)@) + meta_hits(p@, tid@, id@, metas_v(ms@)),
{
    let ghost mv = metas_v(ms@);
    let ghost h0 = hits_view(hits@);
    let mut i: usize = 0;
    while i < ms.len()
        invariant
            i <= ms@.len(),
            mv == metas_v(ms@),
            hits_view(hits@) == h0 + meta_hits(p@, tid@, id@, mv.take(i as int)),
        decreases ms.len() - i,
    {
        assert(mv.take(i + 1).drop_last() =~= mv.take(i as int));
        let ghost hb = hits_view(hits@);
        match &ms[i] {
            Metadata::Note(n) => push_hit(p, tid, id, MatchField::Note, n.as_str(), hits),
            Metadata::Dep(l) => push_hits_all(p, tid, id, MatchField::Dep, l, hits),
            Metadata::Ref(l) => push_hits_all(p, tid, id, MatchField::Ref, l, hits),
            Metadata::Spec(s) => push_hit(p, tid, id, MatchField::Spec, s.as_str(), hits),
            _ => {
                assert(hits_view(hits@) =~= hb + Seq::<HitV>::empty());
            },
        }
        i += 1;
        assert(hits_view(hits@) =~= h0 + meta_hits(p@, tid@, id@, mv.take(i as int)));
    }
    assert(mv.take(i as int) =~= mv);
}

fn search_task(p: &Pattern, task: &Task, tid: &str, hits: &mut Vec<SearchHit>)
    ensures
        hits_view(final(hits)@) == hits_view(old(hits)@) + hits_t(p@, tid@, task@),
    decreases task@, 1int,
{
    assert(tasks_v(task.subtasks@) =~= task@.subtasks);
    let ghost h0 = hits_view(hits@);
    let id: &str = match &task.id {
        Some(x) => x.as_str(),
        None => "",
    };
    proof { reveal_strlit(""); }
    assert(id@ == id_text(task@));
    match &task.id {
        Some(x) => push_hit(p, tid, x.as_str(), MatchField::Id, x.as_str(), hits),
        None => {},
    }
    push_hit(p, tid, id, MatchField::Title, task.title.as_str(), hits);
    push_hits_all(p, tid, id, MatchField::Tag, &task.tags, hits);
    push_meta_hits(p, tid, id, &task.metadata, hits);
    assert(hits_view(hits@) =~= h0 + own_hits(p@, tid@, task@));
    search_list(p, task.subtasks.as_slice(), tid, hits);
    assert(hits_view(hits@) =~= h0 + hits_t(p@, tid@, task@));
}

fn search_list(p: &Pattern, tasks: &[Task], tid: &str, hits: &mut Vec<SearchHit>)
    ensures
        hits_view(final(hits)@) == hits_view(old(hits)@) + hits_l(p@, tid@, tasks_v(tasks@), 0),
    decreases tasks_v(tasks@),
{
    let ghost ts = tasks_v(tasks@);
    let ghost h0 = hits_view(hits@);
    let mut i: usize = 0;
    while i < tasks.len()
        invariant
            i <= tasks@.len(),
            ts == tasks_v(tasks@),
            hits_view(hits@) + hits_l(p@, tid@, ts, i as int) == h0 + hits_l(p@, tid@, ts, 0),
        decreases tasks@.len() - i,
    {
        let ghost hb = hits_view(hits@);
        assert(tasks[i as int]@ == ts[i as int]);
        proof {
            assert(decreases_to!(ts => ts[i as int]));
        }
        search_task(p, &tasks[i], tid, hits);
        assert(hits_view(hits@) + hits_l(p@, tid@, ts, i + 1) =~= hb + hits_l(p@, tid@, ts, i as int));
        i += 1;
    }
    assert(hits_view(hits@) =~= hits_view(hits@) + hits_l(p@, tid@, ts, i as int));
}

fn search_track(p: &Pattern, track: &Track, tid: &str, hits: &mut Vec<SearchHit>)
    ensures
        hits_view(final(hits)@) == hits_view(old(hits)@) + hits_nodes(p@, tid@, track@, 0),
{
    let ghost h0 = hits_view(hits@);
    let mut i: usize = 0;
    while i < track.nodes.len()
        invariant
            i <= track.nodes@.len(),
            hits_view(hits@) + hits_nodes(p@, tid@, track@, i as int) == h0 + hits_nodes(p@, tid@, track@, 0),
        decreases track.nodes.len() - i,
    {
        let ghost hb = hits_view(hits@);
        assert(track@[i as int] == node_v(track.nodes@[i as int]));
        match &track.nodes[i] {
            TrackNode::Section { tasks, .. } => search_list(p, tasks.as_slice(), tid, hits),
            TrackNode::Literal(_) => {
                assert(hits_l(p@, tid@, node_tasks(track@[i as int]), 0) =~= Seq::empty());
            },
        }
        assert(hits_view(hits@) + hits_nodes(p@, tid@, track@, i + 1) =~= hb + hits_nodes(p@, tid@, track@, i as int));
        i += 1;
    }
    assert(hits_view(hits@) =~= hits_view(hits@) + hits_nodes(p@, tid@, track@, i as int));
}

fn is_active(states: &Vec<(String, String)>, tid: &str) -> (r: bool)
    ensures
        r == pairs_view(states@).contains((tid@, "active"@)),
{
    let ghost sv = pairs_view(states@);
    let mut i: usize = 0;
    while i < states.len()
        invariant
            i <= states@.len(),
            sv == pairs_view(states@),
            forall|k: int| 0 <= k < i ==> sv[k] != (tid@, "active"@),
        decreases states.len() - i,
    {
        assert(sv[i as int] == (states@[i as int].0@, states@[i as int].1@));
        if str_eq(states[i].0.as_str(), tid) && str_eq(states[i].1.as_str(), "active") {
            assert(sv[i as int] == (tid@, "active"@));
            return true;
        }
        i += 1;
    }
    false
}

/// Search tasks across the project. With a filter only the track it names is
/// searched, whatever its state; without one, every active track. Each
/// task's ID, title, tags, notes, deps, refs and specs are searched in that
/// order, subtasks after their parent, and every field that matches gives
/// one hit with all its match ranges.
pub fn search_tasks(project: &Project, re: &Pattern, track_filter: Option<&str>) -> (r: Vec<SearchHit>)
    ensures
        hits_view(r@) == hits_tracks(re@, tracks_view(project.tracks@), match track_filter {
            Some(f) => Some(f@),
            None => None,
        }, pairs_view(project.track_states@), 0),
{
    let ghost tv = tracks_view(project.tracks@);
    let ghost fv: Option<Seq<char>> = match track_filter {
        Some(f) => Some(f@),
        None => None,
    };
    let ghost sv = pairs_view(project.track_states@);
    let mut hits: Vec<SearchHit> = Vec::new();
    let mut i: usize = 0;
    while i < project.tracks.len()
        invariant
            i <= project.tracks@.len(),
            tv == tracks_view(project.tracks@),
            sv == pairs_view(project.track_states@),
            fv == match track_filter {
                Some(f) => Some(f@),
                None => None::<Seq<char>>,
            },
            hits_view(hits@) + hits_tracks(re@, tv, fv, sv, i as int) == hits_tracks(re@, tv, fv, sv, 0),
        decreases project.tracks.len() - i,
    {
        let ghost hb = hits_view(hits@);
        assert(tv[i as int] == (project.tracks@[i as int].0@, project.tracks@[i as int].1@));
        let take = match track_filter {
            Some(f) => str_eq(project.tracks[i].0.as_str(), f),
            None => is_active(&project.track_states, project.tracks[i].0.as_str()),
        };
        if take {
            search_track(re, &project.tracks[i].1, project.tracks[i].0.as_str(), &mut hits);
        }
        assert(hits_view(hits@) + hits_tracks(re@, tv, fv, sv, i + 1) =~= hb + hits_tracks(re@, tv, fv, sv, i as int));
        i += 1;
    }
    assert(hits_view(hits@) =~= hits_view(hits@) + hits_tracks(re@, tv, fv, sv, i as int));
    hits
}

// ---------------------------------------------------------------------------
// Inbox search
// ---------------------------------------------------------------------------

pub type InboxHitV = (nat, MatchField, Seq<(usize, usize)>);

pub open spec fn inbox_hits_view(v: Seq<InboxSearchHit>) -> Seq<InboxHitV> {
    v.map_values(|h: InboxSearchHit| (h.item_index as nat, h.field, ranges_v(h.spans@)))
}

pub open spec fn inbox_hit_on(p: Seq<char>, index: nat, field: MatchField, text: Seq<char>) -> Seq<InboxHitV> {
    if regex_spans(p, text).len() > 0 {
        seq![(index, field, regex_spans(p, text))]
    } else {
        Seq::empty()
    }
}

pub open spec fn inbox_tag_hits(p: Seq<char>, index: nat, tags: Seq<Seq<char>>) -> Seq<InboxHitV>
    decreases tags.len(),
{
    if tags.len() == 0 {
        Seq::empty()
    } else {
        inbox_tag_hits(p, index, tags.drop_last()) + inbox_hit_on(p, index, MatchField::Tag, tags.last())
    }
}

/// The hits on one inbox item: its title, its tags, its body.
pub open spec fn item_hits(p: Seq<char>, index: nat, item: ItemV) -> Seq<InboxHitV> {
    inbox_hit_on(p, index, MatchField::Title, item.title) + inbox_tag_hits(p, index, item.tags)
        + match item.body {
            Some(b) => inbox_hit_on(p, index, MatchField::Body, b),
            None => Seq::empty(),
        }
}

/// The hits on the items `items[..n]`.
pub open spec fn inbox_hits(p: Seq<char>, items: Seq<ItemV>, n: int) -> Seq<InboxHitV>
    decreases n,
{
    if n <= 0 {
        Seq::empty()
    } else {
        inbox_hits(p, items, n - 1) + item_hits(p, (n - 1) as nat, items[n - 1])
    }
}

fn push_inbox_hit(p: &Pattern, index: usize, field: MatchField, text: &str, hits: &mut Vec<InboxSearchHit>)
    ensures
        inbox_hits_view(final(hits)@) == inbox_hits_view(old(hits)@) + inbox_hit_on(p@, index as nat, field, text@),
{
    let spans = find_matches(p, text);
    if spans.len() > 0 {
        let ghost b = hits@;
        let h = InboxSearchHit { item_index: index, field, spans };
        hits.push(h);
        assert(hits@ == b.push(h));
        assert(inbox_hits_view(hits@) =~= inbox_hits_view(b).push((index as nat, field, regex_spans(p@, text@))));
    } else {
        assert(inbox_hits_view(hits@) =~= inbox_hits_view(hits@) + Seq::<InboxHitV>::empty());
    }
}

/// Search inbox items by title, tags and body, item by item.
pub fn search_inbox(inbox: &Inbox, re: &Pattern) -> (r: Vec<InboxSearchHit>)
    ensures
        inbox_hits_view(r@) == inbox_hits(re@, items_v(inbox.items@), inbox.items@.len() as int),
{
    let ghost iv = items_v(inbox.items@);
    let mut hits: Vec<InboxSearchHit> = Vec::new();
    let mut i: usize = 0;
    while i < inbox.items.len()
        invariant
            i <= inbox.items@.len(),
            iv == items_v(inbox.items@),
            inbox_hits_view(hits@) == inbox_hits(re@, iv, i as int),
        decreases inbox.items.len() - i,
    {
        let ghost hb = inbox_hits_view(hits@);
        let item = &inbox.items[i];
        assert(iv[i as int] == item_v(*item));
        push_inbox_hit(re, i, MatchField::Title, item.title.as_str(), &mut hits);
        let ghost tv = strs_v(item.tags@);
        let ghost ht = inbox_hits_view(hits@);
        let mut j: usize = 0;
        while j < item.tags.len()
            invariant
                j <= item.tags@.len(),
                tv == strs_v(item.tags@),
                inbox_hits_view(hits@) == ht + inbox_tag_hits(re@, i as nat, tv.take(j as int)),
            decreases item.tags.len() - j,
        {
            assert(tv.take(j + 1).drop_last() =~= tv.take(j as int));
            push_inbox_hit(re, i, MatchField::Tag, item.tags[j].as_str(), &mut hits);
            j += 1;
            assert(inbox_hits_view(hits@) =~= ht + inbox_tag_hits(re@, i as nat, tv.take(j as int)));
        }
        assert(tv.take(j as int) =~= tv);
        let ghost hb2 = inbox_hits_view(hits@);
        match &item.body {
            Some(b) => push_inbox_hit(re, i, MatchField::Body, b.as_str(), &mut hits),
            None => {
                assert(inbox_hits_view(hits@) =~= hb2 + Seq::<InboxHitV>::empty());
            },
        }
        i += 1;
        assert(inbox_hits_view(hits@) =~= inbox_hits(re@, iv, i as int));
    }
    hits
}

} // verus!
