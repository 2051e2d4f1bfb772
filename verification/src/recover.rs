//! Completing an interrupted multi-file operation by rolling it forward.
//!
//! What an interrupted operation meant to do is recorded before it starts;
//! what is left is read off the project as it stands. A destructive step is
//! taken only once its precondition is confirmed (the target copy of a moved
//! task is really there, the triaged task really landed); otherwise nothing
//! changes and the outcome says why.
//!
//! The decisions and the in-memory edits are here. Reading the record,
//! writing the files that changed and logging the outcome belong to the
//! caller.

use vstd::prelude::*;
use crate::model::{Task, TaskV, Track, TrackNode, NodeV, tasks_v, node_tasks, with_tasks, items_v, ItemV};
use crate::project::{Project, tracks_view};
use crate::task_ops::{find_in_track, find_task_in_track, has_id, id_is};
use crate::clean::{track_index, track_index_from};
use crate::text::push_str;

verus! {

// ---------------------------------------------------------------------------
// Outcomes
// ---------------------------------------------------------------------------

/// What recovery did.
#[derive(Debug)]
pub enum Outcome {
    /// The operation was already complete; only its record remained.
    AlreadyComplete { operation: String },
    /// The remaining steps were applied, one line per step.
    Completed { operation: String, steps: Vec<String> },
    /// A precondition did not hold, so nothing was changed.
    Indeterminate { operation: String, reason: String },
}

/// The value of an [`Outcome`].
pub enum OutcomeV {
    AlreadyComplete(Seq<char>),
    Completed(Seq<char>, Seq<Seq<char>>),
    Indeterminate(Seq<char>, Seq<char>),
}

pub open spec fn outcome_v(o: Outcome) -> OutcomeV {
    match o {
        Outcome::AlreadyComplete { operation } => OutcomeV::AlreadyComplete(operation@),
        Outcome::Completed { operation, steps } => OutcomeV::Completed(operation@, crate::model::strs_v(steps@)),
        Outcome::Indeterminate { operation, reason } => OutcomeV::Indeterminate(operation@, reason@),
    }
}

pub open spec fn operation_v(o: OutcomeV) -> Seq<char> {
    match o {
        OutcomeV::AlreadyComplete(op) => op,
        OutcomeV::Completed(op, _) => op,
        OutcomeV::Indeterminate(op, _) => op,
    }
}

impl Outcome {
    /// The name of the operation recovered.
    pub fn operation(&self) -> (r: &str)
        ensures
            r@ == operation_v(outcome_v(*self)),
    {
        match self {
            Outcome::AlreadyComplete { operation } => operation.as_str(),
            Outcome::Completed { operation, .. } => operation.as_str(),
            Outcome::Indeterminate { operation, .. } => operation.as_str(),
        }
    }
}

// ---------------------------------------------------------------------------
// Cross-track move
// ---------------------------------------------------------------------------

/// One task of an interrupted cross-track move: its ID in the source track
/// and the ID it was given in the target track.
#[derive(Debug, Clone)]
pub struct MovedTask {
    pub old_id: String,
    pub new_id: String,
}

pub open spec fn moves_v(v: Seq<MovedTask>) -> Seq<(Seq<char>, Seq<char>)> {
    v.map_values(|m: MovedTask| (m.old_id@, m.new_id@))
}

/// Whether the track `tid` exists and holds a task `id` anywhere.
pub open spec fn track_holds(tracks: Seq<(Seq<char>, Seq<NodeV>)>, tid: Seq<char>, id: Seq<char>) -> bool {
    match track_index_from(tracks, tid, 0) {
        Some(k) => find_in_track(tracks[k].1, id) is Some,
        None => false,
    }
}

/// The moves whose target copy landed while the source copy is still there,
/// in order.
pub open spec fn half_done(
    tracks: Seq<(Seq<char>, Seq<NodeV>)>,
    moves: Seq<(Seq<char>, Seq<char>)>,
    src: Seq<char>,
    tgt: Seq<char>,
) -> Seq<(Seq<char>, Seq<char>)>
    decreases moves.len(),
{
    if moves.len() == 0 {
        Seq::empty()
    } else {
        let prev = half_done(tracks, moves.drop_last(), src, tgt);
        let m = moves.last();
        if track_holds(tracks, tgt, m.1) && track_holds(tracks, src, m.0) {
            prev.push(m)
        } else {
            prev
        }
    }
}

/// The tasks of `ts` whose ID is not `id`, in order.
pub open spec fn without_id(ts: Seq<TaskV>, id: Seq<char>) -> Seq<TaskV>
    decreases ts.len(),
{
    if ts.len() == 0 {
        Seq::empty()
    } else if has_id(ts.last(), id) {
        without_id(ts.drop_last(), id)
    } else {
        without_id(ts.drop_last(), id).push(ts.last())
    }
}

/// Whether some top-level task of `ts` has the ID `id`.
pub open spec fn holds_top(ts: Seq<TaskV>, id: Seq<char>) -> bool {
    exists|k: int| 0 <= k < ts.len() && has_id(#[trigger] ts[k], id)
}

/// The first node from `i` on whose top-level tasks hold `id`.
pub open spec fn first_holding(nodes: Seq<NodeV>, id: Seq<char>, i: int) -> Option<int>
    decreases nodes.len() - i,
{
    if i < 0 || i >= nodes.len() {
        None
    } else if holds_top(node_tasks(nodes[i]), id) {
        Some(i)
    } else {
        first_holding(nodes, id, i + 1)
    }
}

/// The track without its top-level tasks `id`, taken from the first section
/// that holds one; `None` when no section does.
pub open spec fn removed_v(nodes: Seq<NodeV>, id: Seq<char>) -> Option<Seq<NodeV>> {
    match first_holding(nodes, id, 0) {
        Some(k) => Some(nodes.update(k, with_tasks(nodes[k], without_id(node_tasks(nodes[k]), id)))),
        None => None,
    }
}

/// The track after dropping the old copy of each move in turn, and the old
/// ID of the first move whose copy could not be dropped (after which
/// nothing more is dropped).
pub open spec fn drop_each(nodes: Seq<NodeV>, moves: Seq<(Seq<char>, Seq<char>)>) -> (Seq<NodeV>, Option<Seq<char>>)
    decreases moves.len(),
{
    if moves.len() == 0 {
        (nodes, None)
    } else {
        let prev = drop_each(nodes, moves.drop_last());
        if prev.1 is Some {
            prev
        } else {
            match removed_v(prev.0, moves.last().0) {
                Some(n) => (n, None),
                None => (prev.0, Some(moves.last().0)),
            }
        }
    }
}

/// The line reporting one dropped copy.
pub open spec fn drop_line(m: (Seq<char>, Seq<char>), src: Seq<char>, tgt: Seq<char>) -> Seq<char> {
    "removed "@ + m.0 + " from '"@ + src + "' \u{2014} it is already in '"@ + tgt + "' as "@ + m.1
}

/// The tracks and the outcome of recovering a cross-track move from `src`
/// to `tgt`.
pub open spec fn move_recovery(
    tracks: Seq<(Seq<char>, Seq<NodeV>)>,
    op: Seq<char>,
    moves: Seq<(Seq<char>, Seq<char>)>,
    src: Seq<char>,
    tgt: Seq<char>,
) -> (Seq<(Seq<char>, Seq<NodeV>)>, OutcomeV) {
    let todo = half_done(tracks, moves, src, tgt);
    if todo.len() == 0 {
        (tracks, OutcomeV::AlreadyComplete(op))
    } else {
        match track_index_from(tracks, src, 0) {
            None => (tracks, OutcomeV::Indeterminate(op, "source track '"@ + src + "' is gone"@)),
            Some(k) => {
                let (n, fail) = drop_each(tracks[k].1, todo);
                let after = tracks.update(k, (tracks[k].0, n));
                match fail {
                    Some(old) => (after, OutcomeV::Indeterminate(op, old + " could not be removed from '"@ + src + "'"@)),
                    None => (after, OutcomeV::Completed(op, todo.map_values(|m: (Seq<char>, Seq<char>)| drop_line(m, src, tgt)))),
                }
            },
        }
    }
}

fn holds_top_exec(ts: &Vec<Task>, id: &str) -> (r: bool)
    ensures
        r == holds_top(tasks_v(ts@), id@),
{
    let ghost tv = tasks_v(ts@);
    let mut i: usize = 0;
    while i < ts.len()
        invariant
            i <= ts@.len(),
            tv == tasks_v(ts@),
            forall|k: int| 0 <= k < i ==> !has_id(#[trigger] tv[k], id@),
        decreases ts.len() - i,
    {
        assert(tv[i as int] == ts@[i as int]@);
        if id_is(&ts[i], id) {
            return true;
        }
        i += 1;
    }
    false
}

/// The tasks of `ts` whose ID is not `id`.
fn drop_id(ts: &mut Vec<Task>, id: &str)
    ensures
        tasks_v(final(ts)@) == without_id(tasks_v(old(ts)@), id@),
{
    let ghost tv = tasks_v(ts@);
    let mut rest: Vec<Task> = Vec::new();
    std::mem::swap(&mut rest, ts);
    let _ = rest.len();
    let mut kept: Vec<Task> = Vec::new();
    let mut i: usize = 0;
    while rest.len() > 0
        invariant
            tv.len() <= usize::MAX,
            i + rest@.len() == tv.len(),
            tasks_v(rest@) == tv.skip(i as int),
            tasks_v(kept@) == without_id(tv.take(i as int), id@),
        decreases rest.len(),
    {
        let ghost rb = rest@;
        assert(tasks_v(rb)[0] == tv.skip(i as int)[0]);
        let t = rest.remove(0);
        assert(rest@ =~= rb.subrange(1, rb.len() as int));
        assert(t@ == tv[i as int]);
        assert forall|k: int| 0 <= k < rest@.len() implies tasks_v(rest@)[k] == tv.skip(i + 1)[k] by {
            assert(rest@[k] == rb[k + 1]);
            assert(tasks_v(rb)[k + 1] == tv.skip(i as int)[k + 1]);
        }
        assert(tasks_v(rest@) =~= tv.skip(i + 1));
        assert(tv.take(i + 1).drop_last() =~= tv.take(i as int));
        assert(tv.take(i + 1).last() == tv[i as int]);
        let ghost kb = tasks_v(kept@);
        if !id_is(&t, id) {
            kept.push(t);
            assert(tasks_v(kept@) =~= kb.push(tv[i as int]));
        }
        i += 1;
    }
    assert(tv.take(i as int) =~= tv);
    *ts = kept;
}

/// Remove the top-level tasks `task_id` from the first section holding one.
/// Whether there was one.
fn remove_task(track: &mut Track, task_id: &str) -> (r: bool)
    ensures
        r == removed_v(old(track)@, task_id@) is Some,
        final(track)@ == match removed_v(old(track)@, task_id@) {
            Some(n) => n,
            None => old(track)@,
        },
{
    let ghost nv = track@;
    let mut i: usize = 0;
    while i < track.nodes.len()
        invariant
            i <= track.nodes@.len(),
            track@ == nv,
            nv == old(track)@,
            track@.len() == track.nodes@.len(),
            first_holding(nv, task_id@, 0) == first_holding(nv, task_id@, i as int),
        decreases track.nodes.len() - i,
    {
        let holds = match &track.nodes[i] {
            TrackNode::Section { tasks, .. } => holds_top_exec(tasks, task_id),
            TrackNode::Literal(_) => false,
        };
        if holds {
            assert(first_holding(nv, task_id@, i as int) == Some(i as int));
            let mut tasks = track.swap_section_tasks(i, Vec::new());
            drop_id(&mut tasks, task_id);
            assert(track@.len() == track.nodes@.len());
            let _ = track.swap_section_tasks(i, tasks);
            proof {
                let nd = nv[i as int];
                assert(with_tasks(with_tasks(nd, Seq::empty()), tasks_v(tasks@)) == with_tasks(nd, tasks_v(tasks@)));
                assert(track@ =~= nv.update(i as int, with_tasks(nd, without_id(node_tasks(nd), task_id@))));
            }
            return true;
        }
        i += 1;
    }
    false
}

fn track_holds_exec(tracks: &Vec<(String, Track)>, tid: &str, id: &str) -> (r: bool)
    ensures
        r == track_holds(tracks_view(tracks@), tid@, id@),
{
    match track_index(tracks, tid) {
        Some(k) => {
            assert(tracks_view(tracks@)[k as int].1 == tracks@[k as int].1@);
            find_task_in_track(&tracks[k].1, id).is_some()
        },
        None => false,
    }
}

/// Finish an interrupted cross-track move in memory. The target is written
/// before the source, so for each moved task either nothing landed, or the
/// target holds the new copy while the source still holds the old one: then
/// the old copy is dropped. The caller writes the source track when the
/// outcome is `Completed`.
pub fn recover_cross_track_move(
    project: &mut Project,
    operation: String,
    moves: &Vec<MovedTask>,
    source_track: &str,
    target_track: &str,
) -> (r: Outcome)
    ensures
        (tracks_view(final(project).tracks@), outcome_v(r))
            == move_recovery(tracks_view(old(project).tracks@), operation@, moves_v(moves@), source_track@, target_track@),
        final(project).track_order == old(project).track_order,
        final(project).track_states == old(project).track_states,
        final(project).prefixes == old(project).prefixes,
        final(project).inbox == old(project).inbox,
        final(project).id_floors == old(project).id_floors,
        final(project).archives == old(project).archives,
        final(project).missing_paths == old(project).missing_paths,
        final(project).clean == old(project).clean,
{
    let ghost tv = tracks_view(project.tracks@);
    let ghost mv = moves_v(moves@);
    let mut to_drop: Vec<MovedTask> = Vec::new();
    let mut i: usize = 0;
    while i < moves.len()
        invariant
            i <= moves@.len(),
            tv == tracks_view(project.tracks@),
            mv == moves_v(moves@),
            moves_v(to_drop@) == half_done(tv, mv.take(i as int), source_track@, target_track@),
        decreases moves.len() - i,
    {
        assert(mv.take(i + 1).drop_last() =~= mv.take(i as int));
        assert(mv.take(i + 1).last() == mv[i as int]);
        let m = &moves[i];
        assert(mv[i as int] == (m.old_id@, m.new_id@));
        let ghost tb = moves_v(to_drop@);
        if track_holds_exec(&project.tracks, target_track, m.new_id.as_str())
            && track_holds_exec(&project.tracks, source_track, m.old_id.as_str()) {
            to_drop.push(MovedTask { old_id: m.old_id.clone(), new_id: m.new_id.clone() });
            assert(moves_v(to_drop@) =~= tb.push(mv[i as int]));
        }
        i += 1;
    }
    assert(mv.take(i as int) =~= mv);
    let ghost todo = moves_v(to_drop@);
    if to_drop.len() == 0 {
        return Outcome::AlreadyComplete { operation };
    }
    let k = match track_index(&project.tracks, source_track) {
        Some(k) => k,
        None => {
            let mut reason = String::from_str("source track '");
            push_str(&mut reason, source_track);
            push_str(&mut reason, "' is gone");
            return Outcome::Indeterminate { operation, reason };
        },
    };
    let ghost before = project.tracks@;
    assert(before == old(project).tracks@);
    let (tid, mut track) = project.tracks.remove(k);
    assert(tv[k as int] == (tid@, track@));
    let ghost n0 = track@;
    let mut steps: Vec<String> = Vec::new();
    let mut j: usize = 0;
    while j < to_drop.len()
        invariant
            j <= to_drop@.len(),
            todo == moves_v(to_drop@),
            drop_each(n0, todo.take(j as int)) == (track@, None::<Seq<char>>),
            crate::model::strs_v(steps@) == todo.take(j as int).map_values(|m: (Seq<char>, Seq<char>)| drop_line(m, source_track@, target_track@)),
            project.tracks@ == before.remove(k as int),
            k < before.len(),
            before == old(project).tracks@,
            tv == tracks_view(before),
            tv[k as int] == (tid@, n0),
            todo == half_done(tv, moves_v(moves@), source_track@, target_track@),
            track_index_from(tv, source_track@, 0) == Some(k as int),
            project.track_order == old(project).track_order,
            project.track_states == old(project).track_states,
            project.prefixes == old(project).prefixes,
            project.inbox == old(project).inbox,
            project.id_floors == old(project).id_floors,
            project.archives == old(project).archives,
            project.missing_paths == old(project).missing_paths,
            project.clean == old(project).clean,
        decreases to_drop.len() - j,
    {
        assert(todo.take(j + 1).drop_last() =~= todo.take(j as int));
        assert(todo.take(j + 1).last() == todo[j as int]);
        let m = &to_drop[j];
        assert(todo[j as int] == (m.old_id@, m.new_id@));
        if !remove_task(&mut track, m.old_id.as_str()) {
            let mut reason = m.old_id.clone();
            push_str(&mut reason, " could not be removed from '");
            push_str(&mut reason, source_track);
            push_str(&mut reason, "'");
            proof {
                assert(drop_each(n0, todo.take(j + 1)) == (track@, Some(m.old_id@)));
                lemma_drop_rest(n0, todo, j as int + 1);
                assert(drop_each(n0, todo) == (track@, Some(m.old_id@)));
            }
            project.tracks.insert(k, (tid, track));
            assert(project.tracks@ =~= before.update(k as int, project.tracks@[k as int]));
            assert(tracks_view(project.tracks@) =~= tv.update(k as int, (tv[k as int].0, drop_each(n0, todo).0)));
            return Outcome::Indeterminate { operation, reason };
        }
        let mut line = String::from_str("removed ");
        push_str(&mut line, m.old_id.as_str());
        push_str(&mut line, " from '");
        push_str(&mut line, source_track);
        push_str(&mut line, "' \u{2014} it is already in '");
        push_str(&mut line, target_track);
        push_str(&mut line, "' as ");
        push_str(&mut line, m.new_id.as_str());
        let ghost sb = crate::model::strs_v(steps@);
        steps.push(line);
        assert(crate::model::strs_v(steps@) =~= sb.push(drop_line(todo[j as int], source_track@, target_track@)));
        assert(todo.take(j + 1).map_values(|m: (Seq<char>, Seq<char>)| drop_line(m, source_track@, target_track@))
            =~= todo.take(j as int).map_values(|m: (Seq<char>, Seq<char>)| drop_line(m, source_track@, target_track@))
                .push(drop_line(todo[j as int], source_track@, target_track@)));
        j += 1;
    }
    assert(todo.take(j as int) =~= todo);
    project.tracks.insert(k, (tid, track));
    assert(project.tracks@ =~= before.update(k as int, project.tracks@[k as int]));
    assert(tracks_view(project.tracks@) =~= tv.update(k as int, (tv[k as int].0, drop_each(n0, todo).0)));
    Outcome::Completed { operation, steps }
}

/// Once a drop fails, the later moves change nothing.
proof fn lemma_drop_rest(n: Seq<NodeV>, ms: Seq<(Seq<char>, Seq<char>)>, j: int)
    requires
        0 < j <= ms.len(),
        drop_each(n, ms.take(j)).1 is Some,
    ensures
        drop_each(n, ms) == drop_each(n, ms.take(j)),
    decreases ms.len() - j,
{
    if j < ms.len() {
        assert(ms.take(j + 1).drop_last() =~= ms.take(j));
        lemma_drop_rest(n, ms, j + 1);
    } else {
        assert(ms.take(j) =~= ms);
    }
}

// ---------------------------------------------------------------------------
// Triage
// ---------------------------------------------------------------------------

/// Whether a task of the tree `t` has the title `title`.
pub open spec fn titled(t: TaskV, title: Seq<char>) -> bool
    decreases t, 0int,
{
    t.title == title || titled_from(t.subtasks, title, 0)
}

pub open spec fn titled_from(ts: Seq<TaskV>, title: Seq<char>, i: int) -> bool
    decreases ts, ts.len() - i,
{
    if i < 0 || i >= ts.len() {
        false
    } else {
        titled(ts[i], title) || titled_from(ts, title, i + 1)
    }
}

pub open spec fn titled_in_nodes(nodes: Seq<NodeV>, title: Seq<char>, i: int) -> bool
    decreases nodes.len() - i,
{
    if i < 0 || i >= nodes.len() {
        false
    } else {
        titled_from(node_tasks(nodes[i]), title, 0) || titled_in_nodes(nodes, title, i + 1)
    }
}

/// Whether the track `tid` exists and holds a task titled `title`.
pub open spec fn landed(tracks: Seq<(Seq<char>, Seq<NodeV>)>, tid: Seq<char>, title: Seq<char>) -> bool {
    match track_index_from(tracks, tid, 0) {
        Some(k) => titled_in_nodes(tracks[k].1, title, 0),
        None => false,
    }
}

pub open spec fn inbox_items(o: Option<crate::model::Inbox>) -> Option<Seq<ItemV>> {
    match o {
        Some(ib) => Some(items_v(ib.items@)),
        None => None,
    }
}

/// The inbox items and the outcome of recovering the triage of item
/// `index` (counted from 1) titled `title` into the track `tid`.
pub open spec fn triage_recovery(
    tracks: Seq<(Seq<char>, Seq<NodeV>)>,
    inbox: Option<Seq<ItemV>>,
    op: Seq<char>,
    index: nat,
    title: Seq<char>,
    tid: Seq<char>,
) -> (Option<Seq<ItemV>>, OutcomeV) {
    let pos: int = if index == 0 { 0 } else { index - 1 };
    match inbox {
        None => (inbox, OutcomeV::AlreadyComplete(op)),
        Some(items) => if pos >= items.len() || items[pos].title != title {
            (inbox, OutcomeV::AlreadyComplete(op))
        } else if !landed(tracks, tid, title) {
            (inbox, OutcomeV::Indeterminate(op, "inbox item "@ + crate::text::dec_v(index) + " \""@ + title
                + "\" is still in the inbox but no matching task exists in '"@ + tid
                + "' \u{2014} triage it again rather than losing it"@))
        } else {
            (Some(items.remove(pos)), OutcomeV::Completed(op, seq!["removed inbox item "@ + crate::text::dec_v(index)
                + " \""@ + title + "\" \u{2014} it is already a task in '"@ + tid + "'"@]))
        },
    }
}

fn titled_task(t: &Task, title: &str) -> (r: bool)
    ensures
        r == titled(t@, title@),
    decreases t@, 1int,
{
    if crate::text::str_eq(t.title.as_str(), title) {
        return true;
    }
    assert(tasks_v(t.subtasks@) =~= t@.subtasks);
    titled_list(&t.subtasks, title)
}

fn titled_list(ts: &Vec<Task>, title: &str) -> (r: bool)
    ensures
        r == titled_from(tasks_v(ts@), title@, 0),
    decreases tasks_v(ts@),
{
    let ghost tv = tasks_v(ts@);
    let mut i: usize = 0;
    while i < ts.len()
        invariant
            i <= ts@.len(),
            tv == tasks_v(ts@),
            titled_from(tv, title@, 0) == titled_from(tv, title@, i as int),
        decreases ts.len() - i,
    {
        assert(tv[i as int] == ts@[i as int]@);
        proof {
            assert(decreases_to!(tv => tv[i as int]));
        }
        if titled_task(&ts[i], title) {
            return true;
        }
        i += 1;
    }
    false
}

/// Whether some task of the track has the title `title`.
fn task_titled(track: &Track, title: &str) -> (r: bool)
    ensures
        r == titled_in_nodes(track@, title@, 0),
{
    let mut i: usize = 0;
    while i < track.nodes.len()
        invariant
            i <= track.nodes@.len(),
            titled_in_nodes(track@, title@, 0) == titled_in_nodes(track@, title@, i as int),
        decreases track.nodes.len() - i,
    {
        let found = match &track.nodes[i] {
            TrackNode::Section { tasks, .. } => titled_list(tasks, title),
            TrackNode::Literal(_) => false,
        };
        if found {
            return true;
        }
        i += 1;
    }
    false
}

/// Finish an interrupted triage in memory. The track is written before the
/// inbox, so what is left is dropping the inbox item; that is done only
/// while the item is still there under its recorded title and a task with
/// that title really landed in the track. The caller writes the inbox when
/// the outcome is `Completed`.
pub fn recover_triage(project: &mut Project, operation: String, index: usize, title: &str, track_id: &str) -> (r: Outcome)
    ensures
        (inbox_items(final(project).inbox), outcome_v(r))
            == triage_recovery(tracks_view(old(project).tracks@), inbox_items(old(project).inbox), operation@,
                index as nat, title@, track_id@),
        final(project).inbox is Some ==> old(project).inbox is Some
            && final(project).inbox->0.header_lines == old(project).inbox->0.header_lines,
        final(project).tracks == old(project).tracks,
        final(project).track_order == old(project).track_order,
        final(project).track_states == old(project).track_states,
        final(project).prefixes == old(project).prefixes,
        final(project).id_floors == old(project).id_floors,
        final(project).archives == old(project).archives,
        final(project).missing_paths == old(project).missing_paths,
        final(project).clean == old(project).clean,
{
    let pos: usize = if index == 0 { 0 } else { index - 1 };
    let matches = match &project.inbox {
        None => false,
        Some(inbox) => {
            if pos < inbox.items.len() {
                assert(items_v(inbox.items@)[pos as int].title == inbox.items@[pos as int].title@);
                crate::text::str_eq(inbox.items[pos].title.as_str(), title)
            } else {
                false
            }
        },
    };
    if !matches {
        return Outcome::AlreadyComplete { operation };
    }
    let landed_here = match track_index(&project.tracks, track_id) {
        Some(k) => {
            assert(tracks_view(project.tracks@)[k as int].1 == project.tracks@[k as int].1@);
            task_titled(&project.tracks[k].1, title)
        },
        None => false,
    };
    let num = crate::text::string_of(crate::text::decimal_u64(index as u64).as_slice());
    assert(num@ == crate::text::dec_v(index as nat));
    if !landed_here {
        let mut reason = String::from_str("inbox item ");
        push_str(&mut reason, num.as_str());
        push_str(&mut reason, " \"");
        push_str(&mut reason, title);
        push_str(&mut reason, "\" is still in the inbox but no matching task exists in '");
        push_str(&mut reason, track_id);
        push_str(&mut reason, "' \u{2014} triage it again rather than losing it");
        return Outcome::Indeterminate { operation, reason };
    }
    let mut taken: Option<crate::model::Inbox> = None;
    std::mem::swap(&mut taken, &mut project.inbox);
    match taken {
        Some(mut inbox) => {
            let ghost iv = items_v(inbox.items@);
            inbox.items.remove(pos);
            assert(items_v(inbox.items@) =~= iv.remove(pos as int));
            project.inbox = Some(inbox);
        },
        None => {},
    }
    let mut line = String::from_str("removed inbox item ");
    push_str(&mut line, num.as_str());
    push_str(&mut line, " \"");
    push_str(&mut line, title);
    push_str(&mut line, "\" \u{2014} it is already a task in '");
    push_str(&mut line, track_id);
    push_str(&mut line, "'");
    let mut steps: Vec<String> = Vec::new();
    steps.push(line);
    assert(crate::model::strs_v(steps@) =~= seq![line@]);
    Outcome::Completed { operation, steps }
}

} // verus!
