//! Cleaning a project: filling missing IDs and dates, resolving duplicate
//! IDs, putting misplaced tasks in their sections, flagging dangling
//! dependencies, broken file references and finished-looking parents, and
//! archiving done tasks past a threshold.

use vstd::prelude::*;
use crate::model::{Metadata, MetaV, Task, TaskV, TaskState, Track, TrackNode, NodeV, SectionKind,
    tasks_v, metas_v, nodes_v, strs_v, node_tasks, with_tasks};
use crate::text::{str_eq, push_str};
use crate::reconcile::string_in;
use crate::task_id::{Token, tok_v, child_stem, child_of_v, with_number_v, suffix_number, suffix_number_of,
    child_of, with_number, stem_of};
use crate::task_ops::{max_nat, max_num_track, find_in_track};
use crate::task_id::stem;
use crate::project::{lookup_v, lookup_from, CleanConfig, Project, IdScope};
use crate::task_tree::{size, size_from, rekeyed, rekey_children};
use crate::task_ops::{child_id, child_pos_from, set_section};
use crate::model::{section_pos, section_tasks_v, ensured_v, lemma_section_from};
use crate::text::{ws_prefix, ws_prefix_len, starts_with, seq_starts_with, find_char_from, find_char,
    lemma_find_char_from, chars_of, substring};
use crate::parse::{lines_v, split_lines};
use crate::ids::Mint;
pub use crate::field_order::{normalize_project, scan_field_order, Normalized, NormalizeResult};

verus! {

// ---------------------------------------------------------------------------
// Reports
// ---------------------------------------------------------------------------

/// An ID given to a task that had none.
#[derive(Debug, Clone)]
pub struct IdAssignment {
    pub track_id: String,
    pub assigned_id: String,
    pub title: String,
}

/// Which date a [`DateAssignment`] filled in.
#[derive(Debug, Clone, Copy, PartialEq, Eq, Structural)]
pub enum DateKind {
    Added,
    Resolved,
}

impl DateKind {
    /// The metadata key of the date: `added` or `resolved`.
    pub fn key(self) -> (r: &'static str)
        ensures
            r@ == match self {
                DateKind::Added => seq!['a', 'd', 'd', 'e', 'd'],
                DateKind::Resolved => seq!['r', 'e', 's', 'o', 'l', 'v', 'e', 'd'],
            },
    {
        match self {
            DateKind::Added => {
                proof { reveal_strlit("added"); }
                "added"
            },
            DateKind::Resolved => {
                proof { reveal_strlit("resolved"); }
                "resolved"
            },
        }
    }
}

/// A date filled in on a task that lacked it.
#[derive(Debug, Clone)]
pub struct DateAssignment {
    pub track_id: String,
    pub task_id: String,
    pub date: String,
    pub kind: DateKind,
}

/// A duplicate ID given a fresh one.
#[derive(Debug, Clone)]
pub struct DuplicateResolution {
    pub track_id: String,
    pub original_id: String,
    pub new_id: String,
    pub title: String,
}

/// A done task moved to the archive.
#[derive(Debug, Clone)]
pub struct ArchiveRecord {
    pub track_id: String,
    pub task_id: String,
    pub title: String,
}

/// A `dep:` naming an ID no task holds.
#[derive(Debug, Clone)]
pub struct DanglingDep {
    pub track_id: String,
    pub task_id: String,
    pub dep_id: String,
}

/// Which field a [`BrokenRef`] came from.
#[derive(Debug, Clone, Copy, PartialEq, Eq, Structural)]
pub enum RefKind {
    Ref,
    Spec,
}

/// A `ref:` or `spec:` path that does not exist.
#[derive(Debug, Clone)]
pub struct BrokenRef {
    pub track_id: String,
    pub task_id: String,
    pub path: String,
    pub kind: RefKind,
}

/// A top-level task moved to the section its state belongs in.
#[derive(Debug, Clone)]
pub struct SectionReconcile {
    pub track_id: String,
    pub task_id: String,
    pub from: SectionKind,
    pub to: SectionKind,
}

/// What a suggestion proposes.
#[derive(Debug, Clone, Copy, PartialEq, Eq, Structural)]
pub enum SuggestionKind {
    /// Every subtask is done, so the parent could be too.
    AllSubtasksDone,
}

/// A change clean proposes without making it.
#[derive(Debug, Clone)]
pub struct Suggestion {
    pub track_id: String,
    pub task_id: String,
    pub kind: SuggestionKind,
}

/// Everything a clean run changed and found.
#[derive(Debug)]
pub struct CleanResult {
    pub ids_assigned: Vec<IdAssignment>,
    pub dates_assigned: Vec<DateAssignment>,
    pub duplicates_resolved: Vec<DuplicateResolution>,
    pub tasks_archived: Vec<ArchiveRecord>,
    pub dangling_deps: Vec<DanglingDep>,
    pub broken_refs: Vec<BrokenRef>,
    pub sections_reconciled: Vec<SectionReconcile>,
    pub suggestions: Vec<Suggestion>,
}

impl CleanResult {
    /// A report with nothing in it.
    pub fn new() -> (r: CleanResult)
        ensures
            r.ids_assigned@.len() == 0,
            r.dates_assigned@.len() == 0,
            r.duplicates_resolved@.len() == 0,
            r.tasks_archived@.len() == 0,
            r.dangling_deps@.len() == 0,
            r.broken_refs@.len() == 0,
            r.sections_reconciled@.len() == 0,
            r.suggestions@.len() == 0,
    {
        CleanResult {
            ids_assigned: Vec::new(),
            dates_assigned: Vec::new(),
            duplicates_resolved: Vec::new(),
            tasks_archived: Vec::new(),
            dangling_deps: Vec::new(),
            broken_refs: Vec::new(),
            sections_reconciled: Vec::new(),
            suggestions: Vec::new(),
        }
    }
}

/// A task's ID, or nothing for a task without one.
pub open spec fn id_or_empty(t: TaskV) -> Seq<char> {
    match t.id {
        Some(x) => x,
        None => Seq::empty(),
    }
}

fn id_string(t: &Task) -> (r: String)
    ensures
        r@ == id_or_empty(t@),
{
    match &t.id {
        Some(s) => s.clone(),
        None => String::new(),
    }
}

// ---------------------------------------------------------------------------
// Filling `added:` dates
// ---------------------------------------------------------------------------

pub open spec fn has_added_v(ms: Seq<MetaV>) -> bool {
    exists|k: int| 0 <= k < ms.len() && #[trigger] ms[k] is Added
}

/// A task and its subtree with `added: today` put first on every task that
/// lacks an `added:` date, each such task marked dirty.
pub open spec fn dated(t: TaskV, today: Seq<char>) -> TaskV
    decreases t, 0int,
{
    let subs = dated_list(t.subtasks, today);
    if has_added_v(t.metadata) {
        TaskV { subtasks: subs, ..t }
    } else {
        TaskV { metadata: seq![MetaV::Added(today)] + t.metadata, dirty: true, subtasks: subs, ..t }
    }
}

pub open spec fn dated_list(ts: Seq<TaskV>, today: Seq<char>) -> Seq<TaskV>
    decreases ts, 1int,
{
    Seq::new(ts.len(), |i: int| if 0 <= i < ts.len() { dated(ts[i], today) } else { arbitrary() })
}

/// The IDs (empty for none) of the tasks lacking `added:`, in file order.
pub open spec fn undated(t: TaskV) -> Seq<Seq<char>>
    decreases t, 0int,
{
    let own: Seq<Seq<char>> = if has_added_v(t.metadata) { Seq::empty() } else { seq![id_or_empty(t)] };
    own + undated_from(t.subtasks, 0)
}

pub open spec fn undated_from(ts: Seq<TaskV>, i: int) -> Seq<Seq<char>>
    decreases ts, ts.len() - i,
{
    if i < 0 || i >= ts.len() {
        Seq::empty()
    } else {
        undated(ts[i]) + undated_from(ts, i + 1)
    }
}

/// The report rows of date assignments.
pub open spec fn date_rows(v: Seq<DateAssignment>) -> Seq<(Seq<char>, Seq<char>, Seq<char>, DateKind)> {
    v.map_values(|d: DateAssignment| (d.track_id@, d.task_id@, d.date@, d.kind))
}

/// The rows reporting dates of `kind` filled in on the tasks `ids`.
pub open spec fn rows_for(
    track_id: Seq<char>,
    ids: Seq<Seq<char>>,
    date: Seq<char>,
    kind: DateKind,
) -> Seq<(Seq<char>, Seq<char>, Seq<char>, DateKind)> {
    ids.map_values(|x: Seq<char>| (track_id, x, date, kind))
}

pub(crate) fn has_added(ms: &Vec<Metadata>) -> (r: bool)
    ensures
        r == has_added_v(metas_v(ms@)),
{
    let mut i: usize = 0;
    while i < ms.len()
        invariant
            i <= ms@.len(),
            forall|k: int| 0 <= k < i ==> !(#[trigger] metas_v(ms@)[k] is Added),
        decreases ms.len() - i,
    {
        if let Metadata::Added(_) = &ms[i] {
            assert(metas_v(ms@)[i as int] is Added);
            return true;
        }
        i += 1;
    }
    false
}

fn date_row(track_id: &str, task: &Task, date: &str, kind: DateKind) -> (r: DateAssignment)
    ensures
        (r.track_id@, r.task_id@, r.date@, r.kind) == (track_id@, id_or_empty(task@), date@, kind),
{
    DateAssignment {
        track_id: String::from_str(track_id),
        task_id: id_string(task),
        date: String::from_str(date),
        kind,
    }
}

fn dates_in_task(task: &mut Task, track_id: &str, today: &str, out: &mut Vec<DateAssignment>)
    ensures
        final(task)@ == dated(old(task)@, today@),
        date_rows(final(out)@) == date_rows(old(out)@) + rows_for(track_id@, undated(old(task)@), today@, DateKind::Added),
    decreases old(task)@, 1int,
{
    let ghost t0 = task@;
    assert(tasks_v(task.subtasks@) =~= t0.subtasks);
    if !has_added(&task.metadata) {
        let row = date_row(track_id, task, today, DateKind::Added);
        out.push(row);
        task.metadata.insert(0, Metadata::Added(String::from_str(today)));
        task.dirty = true;
        assert(metas_v(task.metadata@) =~= seq![MetaV::Added(today@)] + t0.metadata);
    }
    let ghost mid = date_rows(out@);
    dates_in_list(&mut task.subtasks, track_id, today, out);
    assert(task@.subtasks =~= tasks_v(task.subtasks@));
    proof {
        let own: Seq<Seq<char>> = if has_added_v(t0.metadata) { Seq::empty() } else { seq![id_or_empty(t0)] };
        assert(mid =~= date_rows(old(out)@) + rows_for(track_id@, own, today@, DateKind::Added));
        assert(rows_for(track_id@, undated(t0), today@, DateKind::Added) =~= rows_for(track_id@, own, today@, DateKind::Added)
            + rows_for(track_id@, undated_from(t0.subtasks, 0), today@, DateKind::Added));
        assert(date_rows(out@) =~= date_rows(old(out)@) + rows_for(track_id@, undated(t0), today@, DateKind::Added));
    }
}

fn dates_in_list(tasks: &mut Vec<Task>, track_id: &str, today: &str, out: &mut Vec<DateAssignment>)
    ensures
        tasks_v(final(tasks)@) == dated_list(tasks_v(old(tasks)@), today@),
        date_rows(final(out)@) == date_rows(old(out)@) + rows_for(track_id@, undated_from(tasks_v(old(tasks)@), 0), today@, DateKind::Added),
    decreases tasks_v(old(tasks)@),
{
    let ghost ts = tasks_v(tasks@);
    let ghost out0 = date_rows(out@);
    let mut i: usize = 0;
    while i < tasks.len()
        invariant
            i <= tasks@.len(),
            tasks@.len() == ts.len(),
            ts == tasks_v(old(tasks)@),
            forall|k: int| i <= k < ts.len() ==> tasks_v(tasks@)[k] == ts[k],
            forall|k: int| 0 <= k < i ==> tasks_v(tasks@)[k] == dated_list(ts, today@)[k],
            date_rows(out@) + rows_for(track_id@, undated_from(ts, i as int), today@, DateKind::Added)
                == out0 + rows_for(track_id@, undated_from(ts, 0), today@, DateKind::Added),
        decreases tasks@.len() - i,
    {
        let ghost before = tasks@;
        let ghost ob = date_rows(out@);
        let mut t = tasks.remove(i);
        assert(t@ == ts[i as int]);
        proof {
            assert(decreases_to!(ts => ts[i as int]));
        }
        dates_in_task(&mut t, track_id, today, out);
        tasks.insert(i, t);
        proof {
            assert(tasks@ =~= before.update(i as int, t));
            assert forall|k: int| 0 <= k < i + 1 implies tasks_v(tasks@)[k] == dated_list(ts, today@)[k] by {
                if k < i {
                    assert(tasks_v(tasks@)[k] == tasks_v(before)[k]);
                }
            }
            assert forall|k: int| i + 1 <= k < ts.len() implies tasks_v(tasks@)[k] == ts[k] by {
                assert(tasks_v(tasks@)[k] == tasks_v(before)[k]);
            }
            assert(rows_for(track_id@, undated_from(ts, i as int), today@, DateKind::Added)
                =~= rows_for(track_id@, undated(ts[i as int]), today@, DateKind::Added)
                + rows_for(track_id@, undated_from(ts, i + 1), today@, DateKind::Added));
            assert(date_rows(out@) + rows_for(track_id@, undated_from(ts, i + 1), today@, DateKind::Added)
                =~= ob + rows_for(track_id@, undated_from(ts, i as int), today@, DateKind::Added));
        }
        i += 1;
    }
    assert(tasks_v(tasks@) =~= dated_list(ts, today@));
    assert(undated_from(ts, i as int) =~= Seq::empty());
    assert(date_rows(out@) =~= date_rows(out@) + rows_for(track_id@, Seq::<Seq<char>>::empty(), today@, DateKind::Added));
}

// ---------------------------------------------------------------------------
// Filling `resolved:` dates
// ---------------------------------------------------------------------------

pub open spec fn has_resolved_v(ms: Seq<MetaV>) -> bool {
    exists|k: int| 0 <= k < ms.len() && #[trigger] ms[k] is Resolved
}

/// Whether a task is done with no `resolved:` date.
pub open spec fn lacks_resolved(t: TaskV) -> bool {
    t.state == TaskState::Done && !has_resolved_v(t.metadata)
}

/// A task and its subtree with `resolved: today` put last on every done task
/// that lacks a `resolved:` date, each such task marked dirty.
pub open spec fn resolved_filled(t: TaskV, today: Seq<char>) -> TaskV
    decreases t, 0int,
{
    let subs = resolved_list(t.subtasks, today);
    if lacks_resolved(t) {
        TaskV { metadata: t.metadata.push(MetaV::Resolved(today)), dirty: true, subtasks: subs, ..t }
    } else {
        TaskV { subtasks: subs, ..t }
    }
}

pub open spec fn resolved_list(ts: Seq<TaskV>, today: Seq<char>) -> Seq<TaskV>
    decreases ts, 1int,
{
    Seq::new(ts.len(), |i: int| if 0 <= i < ts.len() { resolved_filled(ts[i], today) } else { arbitrary() })
}

/// The IDs (empty for none) of the done tasks lacking `resolved:`, in file
/// order.
pub open spec fn unresolved(t: TaskV) -> Seq<Seq<char>>
    decreases t, 0int,
{
    let own: Seq<Seq<char>> = if lacks_resolved(t) { seq![id_or_empty(t)] } else { Seq::empty() };
    own + unresolved_from(t.subtasks, 0)
}

pub open spec fn unresolved_from(ts: Seq<TaskV>, i: int) -> Seq<Seq<char>>
    decreases ts, ts.len() - i,
{
    if i < 0 || i >= ts.len() {
        Seq::empty()
    } else {
        unresolved(ts[i]) + unresolved_from(ts, i + 1)
    }
}

pub(crate) fn has_resolved(ms: &Vec<Metadata>) -> (r: bool)
    ensures
        r == has_resolved_v(metas_v(ms@)),
{
    let mut i: usize = 0;
    while i < ms.len()
        invariant
            i <= ms@.len(),
            forall|k: int| 0 <= k < i ==> !(#[trigger] metas_v(ms@)[k] is Resolved),
        decreases ms.len() - i,
    {
        if let Metadata::Resolved(_) = &ms[i] {
            assert(metas_v(ms@)[i as int] is Resolved);
            return true;
        }
        i += 1;
    }
    false
}

fn resolved_in_task(task: &mut Task, track_id: &str, today: &str, out: &mut Vec<DateAssignment>)
    ensures
        final(task)@ == resolved_filled(old(task)@, today@),
        date_rows(final(out)@) == date_rows(old(out)@) + rows_for(track_id@, unresolved(old(task)@), today@, DateKind::Resolved),
    decreases old(task)@, 1int,
{
    let ghost t0 = task@;
    assert(tasks_v(task.subtasks@) =~= t0.subtasks);
    if task.state == TaskState::Done && !has_resolved(&task.metadata) {
        let row = date_row(track_id, task, today, DateKind::Resolved);
        out.push(row);
        task.metadata.push(Metadata::Resolved(String::from_str(today)));
        task.dirty = true;
        assert(metas_v(task.metadata@) =~= t0.metadata.push(MetaV::Resolved(today@)));
    }
    let ghost mid = date_rows(out@);
    resolved_in_list(&mut task.subtasks, track_id, today, out);
    assert(task@.subtasks =~= tasks_v(task.subtasks@));
    proof {
        let own: Seq<Seq<char>> = if lacks_resolved(t0) { seq![id_or_empty(t0)] } else { Seq::empty() };
        assert(mid =~= date_rows(old(out)@) + rows_for(track_id@, own, today@, DateKind::Resolved));
        assert(rows_for(track_id@, unresolved(t0), today@, DateKind::Resolved) =~= rows_for(track_id@, own, today@, DateKind::Resolved)
            + rows_for(track_id@, unresolved_from(t0.subtasks, 0), today@, DateKind::Resolved));
        assert(date_rows(out@) =~= date_rows(old(out)@) + rows_for(track_id@, unresolved(t0), today@, DateKind::Resolved));
    }
}

fn resolved_in_list(tasks: &mut Vec<Task>, track_id: &str, today: &str, out: &mut Vec<DateAssignment>)
    ensures
        tasks_v(final(tasks)@) == resolved_list(tasks_v(old(tasks)@), today@),
        date_rows(final(out)@) == date_rows(old(out)@) + rows_for(track_id@, unresolved_from(tasks_v(old(tasks)@), 0), today@, DateKind::Resolved),
    decreases tasks_v(old(tasks)@),
{
    let ghost ts = tasks_v(tasks@);
    let ghost out0 = date_rows(out@);
    let mut i: usize = 0;
    while i < tasks.len()
        invariant
            i <= tasks@.len(),
            tasks@.len() == ts.len(),
            ts == tasks_v(old(tasks)@),
            forall|k: int| i <= k < ts.len() ==> tasks_v(tasks@)[k] == ts[k],
            forall|k: int| 0 <= k < i ==> tasks_v(tasks@)[k] == resolved_list(ts, today@)[k],
            date_rows(out@) + rows_for(track_id@, unresolved_from(ts, i as int), today@, DateKind::Resolved)
                == out0 + rows_for(track_id@, unresolved_from(ts, 0), today@, DateKind::Resolved),
        decreases tasks@.len() - i,
    {
        let ghost before = tasks@;
        let ghost ob = date_rows(out@);
        let mut t = tasks.remove(i);
        assert(t@ == ts[i as int]);
        proof {
            assert(decreases_to!(ts => ts[i as int]));
        }
        resolved_in_task(&mut t, track_id, today, out);
        tasks.insert(i, t);
        proof {
            assert(tasks@ =~= before.update(i as int, t));
            assert forall|k: int| 0 <= k < i + 1 implies tasks_v(tasks@)[k] == resolved_list(ts, today@)[k] by {
                if k < i {
                    assert(tasks_v(tasks@)[k] == tasks_v(before)[k]);
                }
            }
            assert forall|k: int| i + 1 <= k < ts.len() implies tasks_v(tasks@)[k] == ts[k] by {
                assert(tasks_v(tasks@)[k] == tasks_v(before)[k]);
            }
            assert(rows_for(track_id@, unresolved_from(ts, i as int), today@, DateKind::Resolved)
                =~= rows_for(track_id@, unresolved(ts[i as int]), today@, DateKind::Resolved)
                + rows_for(track_id@, unresolved_from(ts, i + 1), today@, DateKind::Resolved));
            assert(date_rows(out@) + rows_for(track_id@, unresolved_from(ts, i + 1), today@, DateKind::Resolved)
                =~= ob + rows_for(track_id@, unresolved_from(ts, i as int), today@, DateKind::Resolved));
        }
        i += 1;
    }
    assert(tasks_v(tasks@) =~= resolved_list(ts, today@));
    assert(unresolved_from(ts, i as int) =~= Seq::empty());
    assert(date_rows(out@) =~= date_rows(out@) + rows_for(track_id@, Seq::<Seq<char>>::empty(), today@, DateKind::Resolved));
}

// ---------------------------------------------------------------------------
// Suggestions
// ---------------------------------------------------------------------------

/// Whether a task has subtasks, is not done, and all its subtasks are.
pub open spec fn all_subtasks_done(t: TaskV) -> bool {
    &&& t.subtasks.len() > 0
    &&& t.state != TaskState::Done
    &&& forall|k: int| 0 <= k < t.subtasks.len() ==> (#[trigger] t.subtasks[k]).state == TaskState::Done
}

/// The IDs (empty for none) of the tasks [`all_subtasks_done`] holds of, in
/// file order.
pub open spec fn suggested(t: TaskV) -> Seq<Seq<char>>
    decreases t, 0int,
{
    let own: Seq<Seq<char>> = if all_subtasks_done(t) { seq![id_or_empty(t)] } else { Seq::empty() };
    own + suggested_from(t.subtasks, 0)
}

pub open spec fn suggested_from(ts: Seq<TaskV>, i: int) -> Seq<Seq<char>>
    decreases ts, ts.len() - i,
{
    if i < 0 || i >= ts.len() {
        Seq::empty()
    } else {
        suggested(ts[i]) + suggested_from(ts, i + 1)
    }
}

pub open spec fn suggestion_rows(v: Seq<Suggestion>) -> Seq<(Seq<char>, Seq<char>, SuggestionKind)> {
    v.map_values(|s: Suggestion| (s.track_id@, s.task_id@, s.kind))
}

pub open spec fn suggestions_for(track_id: Seq<char>, ids: Seq<Seq<char>>) -> Seq<(Seq<char>, Seq<char>, SuggestionKind)> {
    ids.map_values(|x: Seq<char>| (track_id, x, SuggestionKind::AllSubtasksDone))
}

fn subtasks_all_done(t: &Task) -> (r: bool)
    ensures
        r == all_subtasks_done(t@),
{
    assert(tasks_v(t.subtasks@) =~= t@.subtasks);
    if t.subtasks.len() == 0 || t.state == TaskState::Done {
        return false;
    }
    let mut i: usize = 0;
    while i < t.subtasks.len()
        invariant
            i <= t.subtasks@.len(),
            tasks_v(t.subtasks@) == t@.subtasks,
            forall|k: int| 0 <= k < i ==> (#[trigger] t@.subtasks[k]).state == TaskState::Done,
        decreases t.subtasks.len() - i,
    {
        assert(t@.subtasks[i as int] == t.subtasks@[i as int]@);
        if t.subtasks[i].state != TaskState::Done {
            return false;
        }
        i += 1;
    }
    true
}

fn suggestions_in_task(t: &Task, track_id: &str, out: &mut Vec<Suggestion>)
    ensures
        suggestion_rows(final(out)@) == suggestion_rows(old(out)@) + suggestions_for(track_id@, suggested(t@)),
    decreases t@, 1int,
{
    assert(tasks_v(t.subtasks@) =~= t@.subtasks);
    if subtasks_all_done(t) {
        out.push(Suggestion { track_id: String::from_str(track_id), task_id: id_string(t), kind: SuggestionKind::AllSubtasksDone });
    }
    let ghost mid = suggestion_rows(out@);
    suggestions_in_list(t.subtasks.as_slice(), track_id, out);
    proof {
        let own: Seq<Seq<char>> = if all_subtasks_done(t@) { seq![id_or_empty(t@)] } else { Seq::empty() };
        assert(mid =~= suggestion_rows(old(out)@) + suggestions_for(track_id@, own));
        assert(suggestions_for(track_id@, suggested(t@)) =~= suggestions_for(track_id@, own)
            + suggestions_for(track_id@, suggested_from(t@.subtasks, 0)));
        assert(suggestion_rows(out@) =~= suggestion_rows(old(out)@) + suggestions_for(track_id@, suggested(t@)));
    }
}

fn suggestions_in_list(tasks: &[Task], track_id: &str, out: &mut Vec<Suggestion>)
    ensures
        suggestion_rows(final(out)@) == suggestion_rows(old(out)@) + suggestions_for(track_id@, suggested_from(tasks_v(tasks@), 0)),
    decreases tasks_v(tasks@),
{
    let ghost ts = tasks_v(tasks@);
    let ghost out0 = suggestion_rows(out@);
    let mut i: usize = 0;
    while i < tasks.len()
        invariant
            i <= tasks@.len(),
            ts == tasks_v(tasks@),
            suggestion_rows(out@) + suggestions_for(track_id@, suggested_from(ts, i as int))
                == out0 + suggestions_for(track_id@, suggested_from(ts, 0)),
        decreases tasks@.len() - i,
    {
        let ghost ob = suggestion_rows(out@);
        assert(tasks[i as int]@ == ts[i as int]);
        proof {
            assert(decreases_to!(ts => ts[i as int]));
        }
        suggestions_in_task(&tasks[i], track_id, out);
        proof {
            assert(suggestions_for(track_id@, suggested_from(ts, i as int))
                =~= suggestions_for(track_id@, suggested(ts[i as int])) + suggestions_for(track_id@, suggested_from(ts, i + 1)));
            assert(suggestion_rows(out@) + suggestions_for(track_id@, suggested_from(ts, i + 1))
                =~= ob + suggestions_for(track_id@, suggested_from(ts, i as int)));
        }
        i += 1;
    }
    assert(suggested_from(ts, i as int) =~= Seq::empty());
    assert(suggestion_rows(out@) =~= suggestion_rows(out@) + suggestions_for(track_id@, Seq::<Seq<char>>::empty()));
}

// ---------------------------------------------------------------------------
// Task IDs of a project
// ---------------------------------------------------------------------------

/// The IDs in a task's subtree, in file order.
pub open spec fn ids_in(t: TaskV) -> Seq<Seq<char>>
    decreases t, 0int,
{
    let own: Seq<Seq<char>> = match t.id {
        Some(x) => seq![x],
        None => Seq::empty(),
    };
    own + ids_in_from(t.subtasks, 0)
}

pub open spec fn ids_in_from(ts: Seq<TaskV>, i: int) -> Seq<Seq<char>>
    decreases ts, ts.len() - i,
{
    if i < 0 || i >= ts.len() {
        Seq::empty()
    } else {
        ids_in(ts[i]) + ids_in_from(ts, i + 1)
    }
}

/// The IDs in a track's sections from node `i` on.
pub open spec fn ids_in_nodes(nodes: Seq<NodeV>, i: int) -> Seq<Seq<char>>
    decreases nodes.len() - i,
{
    if i < 0 || i >= nodes.len() {
        Seq::empty()
    } else {
        ids_in_from(node_tasks(nodes[i]), 0) + ids_in_nodes(nodes, i + 1)
    }
}

/// The IDs in the tracks from `i` on.
pub open spec fn ids_in_tracks(tracks: Seq<(Seq<char>, Seq<NodeV>)>, i: int) -> Seq<Seq<char>>
    decreases tracks.len() - i,
{
    if i < 0 || i >= tracks.len() {
        Seq::empty()
    } else {
        ids_in_nodes(tracks[i].1, 0) + ids_in_tracks(tracks, i + 1)
    }
}

fn collect_ids_task(t: &Task, out: &mut Vec<String>)
    ensures
        strs_v(final(out)@) == strs_v(old(out)@) + ids_in(t@),
    decreases t@, 1int,
{
    assert(tasks_v(t.subtasks@) =~= t@.subtasks);
    if let Some(id) = &t.id {
        out.push(id.clone());
    }
    let ghost mid = strs_v(out@);
    collect_ids_list(t.subtasks.as_slice(), out);
    proof {
        let own: Seq<Seq<char>> = match t@.id {
            Some(x) => seq![x],
            None => Seq::empty(),
        };
        assert(mid =~= strs_v(old(out)@) + own);
        assert(strs_v(out@) =~= strs_v(old(out)@) + ids_in(t@));
    }
}

pub(crate) fn collect_ids_list(tasks: &[Task], out: &mut Vec<String>)
    ensures
        strs_v(final(out)@) == strs_v(old(out)@) + ids_in_from(tasks_v(tasks@), 0),
    decreases tasks_v(tasks@),
{
    let ghost ts = tasks_v(tasks@);
    let ghost out0 = strs_v(out@);
    let mut i: usize = 0;
    while i < tasks.len()
        invariant
            i <= tasks@.len(),
            ts == tasks_v(tasks@),
            strs_v(out@) + ids_in_from(ts, i as int) == out0 + ids_in_from(ts, 0),
        decreases tasks@.len() - i,
    {
        let ghost ob = strs_v(out@);
        assert(tasks[i as int]@ == ts[i as int]);
        proof {
            assert(decreases_to!(ts => ts[i as int]));
        }
        collect_ids_task(&tasks[i], out);
        proof {
            assert(strs_v(out@) + ids_in_from(ts, i + 1) =~= ob + ids_in_from(ts, i as int));
        }
        i += 1;
    }
    assert(ids_in_from(ts, i as int) =~= Seq::empty());
    assert(strs_v(out@) =~= strs_v(out@) + Seq::<Seq<char>>::empty());
}

pub(crate) fn collect_ids_track(track: &Track, out: &mut Vec<String>)
    ensures
        strs_v(final(out)@) == strs_v(old(out)@) + ids_in_nodes(track@, 0),
{
    let ghost out0 = strs_v(out@);
    let mut i: usize = 0;
    while i < track.nodes.len()
        invariant
            i <= track.nodes@.len(),
            strs_v(out@) + ids_in_nodes(track@, i as int) == out0 + ids_in_nodes(track@, 0),
        decreases track.nodes.len() - i,
    {
        let ghost ob = strs_v(out@);
        match &track.nodes[i] {
            TrackNode::Section { tasks, .. } => {
                collect_ids_list(tasks.as_slice(), out);
            },
            TrackNode::Literal(_) => {
                assert(ids_in_from(node_tasks(track@[i as int]), 0) =~= Seq::empty());
            },
        }
        proof {
            assert(strs_v(out@) + ids_in_nodes(track@, i + 1) =~= ob + ids_in_nodes(track@, i as int));
        }
        i += 1;
    }
    assert(strs_v(out@) =~= strs_v(out@) + Seq::<Seq<char>>::empty());
}

/// Every task ID across the tracks, in track and file order.
pub fn collect_all_task_ids(tracks: &Vec<(String, Track)>) -> (r: Vec<String>)
    ensures
        strs_v(r@) == ids_in_tracks(crate::project::tracks_view(tracks@), 0),
{
    let ghost tv = crate::project::tracks_view(tracks@);
    let mut out: Vec<String> = Vec::new();
    let mut i: usize = 0;
    while i < tracks.len()
        invariant
            i <= tracks@.len(),
            tv == crate::project::tracks_view(tracks@),
            strs_v(out@) + ids_in_tracks(tv, i as int) == ids_in_tracks(tv, 0),
        decreases tracks.len() - i,
    {
        let ghost ob = strs_v(out@);
        collect_ids_track(&tracks[i].1, &mut out);
        proof {
            assert(tv[i as int].1 == tracks@[i as int].1@);
            assert(strs_v(out@) + ids_in_tracks(tv, i + 1) =~= ob + ids_in_tracks(tv, i as int));
        }
        i += 1;
    }
    assert(strs_v(out@) =~= strs_v(out@) + Seq::<Seq<char>>::empty());
    out
}

// ---------------------------------------------------------------------------
// Dangling dependencies and broken references
// ---------------------------------------------------------------------------

/// Every `dep:` entry of a task's metadata, in order.
pub open spec fn deps_flat(ms: Seq<MetaV>) -> Seq<Seq<char>>
    decreases ms.len(),
{
    if ms.len() == 0 {
        Seq::empty()
    } else {
        deps_flat(ms.drop_last()) + match ms.last() {
            MetaV::Dep(l) => l,
            _ => Seq::empty(),
        }
    }
}

/// The entries of `ds` that `pool` holds (`want`) or lacks (`!want`), in
/// order.
pub open spec fn kept(ds: Seq<Seq<char>>, pool: Seq<Seq<char>>, want: bool) -> Seq<Seq<char>>
    decreases ds.len(),
{
    if ds.len() == 0 {
        Seq::empty()
    } else {
        kept(ds.drop_last(), pool, want) + if pool.contains(ds.last()) == want {
            seq![ds.last()]
        } else {
            Seq::empty()
        }
    }
}

/// A task's dangling deps and those of its subtree: (task ID, dep) in order.
pub open spec fn dangling(t: TaskV, all: Seq<Seq<char>>) -> Seq<(Seq<char>, Seq<char>)>
    decreases t, 0int,
{
    kept(deps_flat(t.metadata), all, false).map_values(|d: Seq<char>| (id_or_empty(t), d))
        + dangling_from(t.subtasks, 0, all)
}

pub open spec fn dangling_from(ts: Seq<TaskV>, i: int, all: Seq<Seq<char>>) -> Seq<(Seq<char>, Seq<char>)>
    decreases ts, ts.len() - i,
{
    if i < 0 || i >= ts.len() {
        Seq::empty()
    } else {
        dangling(ts[i], all) + dangling_from(ts, i + 1, all)
    }
}

pub open spec fn dangling_rows(v: Seq<DanglingDep>) -> Seq<(Seq<char>, Seq<char>, Seq<char>)> {
    v.map_values(|d: DanglingDep| (d.track_id@, d.task_id@, d.dep_id@))
}

pub open spec fn with_track<A, B>(track_id: Seq<char>, v: Seq<(A, B)>) -> Seq<(Seq<char>, A, B)> {
    v.map_values(|p: (A, B)| (track_id, p.0, p.1))
}

pub(crate) fn flat_deps(ms: &Vec<Metadata>) -> (r: Vec<String>)
    ensures
        strs_v(r@) == deps_flat(metas_v(ms@)),
{
    let ghost mv = metas_v(ms@);
    let mut out: Vec<String> = Vec::new();
    let mut i: usize = 0;
    while i < ms.len()
        invariant
            i <= ms@.len(),
            mv == metas_v(ms@),
            strs_v(out@) == deps_flat(mv.take(i as int)),
        decreases ms.len() - i,
    {
        assert(mv.take(i + 1).drop_last() =~= mv.take(i as int));
        match &ms[i] {
            Metadata::Dep(l) => {
                let ghost before = strs_v(out@);
                let mut j: usize = 0;
                while j < l.len()
                    invariant
                        j <= l@.len(),
                        strs_v(out@) == before + strs_v(l@).take(j as int),
                    decreases l.len() - j,
                {
                    let c = l[j].clone();
                    let ghost ob = out@;
                    out.push(c);
                    assert(out@ == ob.push(c));
                    assert(strs_v(out@) =~= strs_v(ob).push(c@));
                    assert(strs_v(l@).take(j + 1) =~= strs_v(l@).take(j as int).push(l@[j as int]@));
                    j += 1;
                    assert(strs_v(out@) =~= before + strs_v(l@).take(j as int));
                }
                assert(strs_v(l@).take(j as int) =~= strs_v(l@));
            },
            _ => {
                assert(strs_v(out@) =~= strs_v(out@) + Seq::<Seq<char>>::empty());
            },
        }
        i += 1;
    }
    assert(mv.take(i as int) =~= mv);
    out
}

/// The entries of `ds` that `pool` holds (`want`) or lacks (`!want`).
pub(crate) fn keep(ds: &Vec<String>, pool: &Vec<String>, want: bool) -> (r: Vec<String>)
    ensures
        strs_v(r@) == kept(strs_v(ds@), strs_v(pool@), want),
{
    let ghost dv = strs_v(ds@);
    let mut out: Vec<String> = Vec::new();
    let mut i: usize = 0;
    while i < ds.len()
        invariant
            i <= ds@.len(),
            dv == strs_v(ds@),
            strs_v(out@) == kept(dv.take(i as int), strs_v(pool@), want),
        decreases ds.len() - i,
    {
        assert(dv.take(i + 1).drop_last() =~= dv.take(i as int));
        if string_in(pool, ds[i].as_str()) == want {
            out.push(ds[i].clone());
        }
        i += 1;
        assert(strs_v(out@) =~= kept(dv.take(i as int), strs_v(pool@), want));
    }
    assert(dv.take(i as int) =~= dv);
    out
}

fn dangling_in_task(t: &Task, track_id: &str, all: &Vec<String>, out: &mut Vec<DanglingDep>)
    ensures
        dangling_rows(final(out)@) == dangling_rows(old(out)@) + with_track(track_id@, dangling(t@, strs_v(all@))),
    decreases t@, 1int,
{
    assert(tasks_v(t.subtasks@) =~= t@.subtasks);
    let flat = flat_deps(&t.metadata);
    let miss = keep(&flat, all, false);
    let ghost own = strs_v(miss@);
    let ghost o0 = dangling_rows(out@);
    let mut j: usize = 0;
    while j < miss.len()
        invariant
            j <= miss@.len(),
            own == strs_v(miss@),
            dangling_rows(out@) == o0 + own.take(j as int).map_values(|d: Seq<char>| (track_id@, id_or_empty(t@), d)),
        decreases miss.len() - j,
    {
        let ghost ob = out@;
        let row = DanglingDep { track_id: String::from_str(track_id), task_id: id_string(t), dep_id: miss[j].clone() };
        out.push(row);
        assert(out@ == ob.push(row));
        assert(dangling_rows(out@) =~= dangling_rows(ob).push((track_id@, id_or_empty(t@), own[j as int])));
        assert(own.take(j + 1) =~= own.take(j as int).push(own[j as int]));
        j += 1;
        assert(dangling_rows(out@) =~= o0 + own.take(j as int).map_values(|d: Seq<char>| (track_id@, id_or_empty(t@), d)));
    }
    assert(own.take(j as int) =~= own);
    let ghost mid = dangling_rows(out@);
    dangling_in_list(t.subtasks.as_slice(), track_id, all, out);
    proof {
        let ownp = own.map_values(|d: Seq<char>| (id_or_empty(t@), d));
        assert(with_track(track_id@, dangling(t@, strs_v(all@))) =~= with_track(track_id@, ownp)
            + with_track(track_id@, dangling_from(t@.subtasks, 0, strs_v(all@))));
        assert(with_track(track_id@, ownp) =~= own.map_values(|d: Seq<char>| (track_id@, id_or_empty(t@), d)));
        assert(dangling_rows(out@) =~= o0 + with_track(track_id@, dangling(t@, strs_v(all@))));
    }
}

fn dangling_in_list(tasks: &[Task], track_id: &str, all: &Vec<String>, out: &mut Vec<DanglingDep>)
    ensures
        dangling_rows(final(out)@) == dangling_rows(old(out)@) + with_track(track_id@, dangling_from(tasks_v(tasks@), 0, strs_v(all@))),
    decreases tasks_v(tasks@),
{
    let ghost ts = tasks_v(tasks@);
    let ghost av = strs_v(all@);
    let ghost out0 = dangling_rows(out@);
    let mut i: usize = 0;
    while i < tasks.len()
        invariant
            i <= tasks@.len(),
            ts == tasks_v(tasks@),
            av == strs_v(all@),
            dangling_rows(out@) + with_track(track_id@, dangling_from(ts, i as int, av))
                == out0 + with_track(track_id@, dangling_from(ts, 0, av)),
        decreases tasks@.len() - i,
    {
        let ghost ob = dangling_rows(out@);
        assert(tasks[i as int]@ == ts[i as int]);
        proof {
            assert(decreases_to!(ts => ts[i as int]));
        }
        dangling_in_task(&tasks[i], track_id, all, out);
        proof {
            assert(with_track(track_id@, dangling_from(ts, i as int, av))
                =~= with_track(track_id@, dangling(ts[i as int], av)) + with_track(track_id@, dangling_from(ts, i + 1, av)));
            assert(dangling_rows(out@) + with_track(track_id@, dangling_from(ts, i + 1, av))
                =~= ob + with_track(track_id@, dangling_from(ts, i as int, av)));
        }
        i += 1;
    }
    assert(dangling_from(ts, i as int, av) =~= Seq::empty());
    assert(dangling_rows(out@) =~= dangling_rows(out@) + with_track(track_id@, Seq::<(Seq<char>, Seq<char>)>::empty()));
}

/// The paths of a task's `ref:` and `spec:` entries that `missing` holds,
/// each with its field, in order.
pub open spec fn broken_own(ms: Seq<MetaV>, missing: Seq<Seq<char>>) -> Seq<(Seq<char>, RefKind)>
    decreases ms.len(),
{
    if ms.len() == 0 {
        Seq::empty()
    } else {
        broken_own(ms.drop_last(), missing) + match ms.last() {
            MetaV::Ref(l) => kept(l, missing, true).map_values(|p: Seq<char>| (p, RefKind::Ref)),
            MetaV::Spec(x) => if missing.contains(x) {
                seq![(x, RefKind::Spec)]
            } else {
                Seq::empty()
            },
            _ => Seq::empty(),
        }
    }
}

/// A subtree's broken references: (task ID, path, field) in order.
pub open spec fn broken(t: TaskV, missing: Seq<Seq<char>>) -> Seq<(Seq<char>, Seq<char>, RefKind)>
    decreases t, 0int,
{
    broken_own(t.metadata, missing).map_values(|p: (Seq<char>, RefKind)| (id_or_empty(t), p.0, p.1))
        + broken_from(t.subtasks, 0, missing)
}

pub open spec fn broken_from(ts: Seq<TaskV>, i: int, missing: Seq<Seq<char>>) -> Seq<(Seq<char>, Seq<char>, RefKind)>
    decreases ts, ts.len() - i,
{
    if i < 0 || i >= ts.len() {
        Seq::empty()
    } else {
        broken(ts[i], missing) + broken_from(ts, i + 1, missing)
    }
}

pub open spec fn broken_rows(v: Seq<BrokenRef>) -> Seq<(Seq<char>, Seq<char>, Seq<char>, RefKind)> {
    v.map_values(|b: BrokenRef| (b.track_id@, b.task_id@, b.path@, b.kind))
}

pub open spec fn with_track3<A, B, C>(track_id: Seq<char>, v: Seq<(A, B, C)>) -> Seq<(Seq<char>, A, B, C)> {
    v.map_values(|p: (A, B, C)| (track_id, p.0, p.1, p.2))
}

fn push_broken(out: &mut Vec<BrokenRef>, track_id: &str, t: &Task, path: &String, kind: RefKind)
    ensures
        broken_rows(final(out)@) == broken_rows(old(out)@).push((track_id@, id_or_empty(t@), path@, kind)),
{
    let ghost ob = out@;
    let row = BrokenRef { track_id: String::from_str(track_id), task_id: id_string(t), path: path.clone(), kind };
    out.push(row);
    assert(out@ == ob.push(row));
    assert(broken_rows(out@) =~= broken_rows(ob).push((track_id@, id_or_empty(t@), path@, kind)));
}

fn broken_in_task(t: &Task, track_id: &str, missing: &Vec<String>, out: &mut Vec<BrokenRef>)
    ensures
        broken_rows(final(out)@) == broken_rows(old(out)@) + with_track3(track_id@, broken(t@, strs_v(missing@))),
    decreases t@, 1int,
{
    assert(tasks_v(t.subtasks@) =~= t@.subtasks);
    let ghost mv = metas_v(t.metadata@);
    let ghost miss = strs_v(missing@);
    let ghost o0 = broken_rows(out@);
    let mut i: usize = 0;
    while i < t.metadata.len()
        invariant
            i <= t.metadata@.len(),
            mv == metas_v(t.metadata@),
            miss == strs_v(missing@),
            broken_rows(out@) == o0 + broken_own(mv.take(i as int), miss).map_values(
                |p: (Seq<char>, RefKind)| (track_id@, id_or_empty(t@), p.0, p.1)),
        decreases t.metadata.len() - i,
    {
        assert(mv.take(i + 1).drop_last() =~= mv.take(i as int));
        let ghost ob = broken_rows(out@);
        let ghost prev = broken_own(mv.take(i as int), miss);
        match &t.metadata[i] {
            Metadata::Ref(l) => {
                let hits = keep(l, missing, true);
                let ghost hv = strs_v(hits@);
                let mut j: usize = 0;
                while j < hits.len()
                    invariant
                        j <= hits@.len(),
                        hv == strs_v(hits@),
                        broken_rows(out@) == ob + hv.take(j as int).map_values(
                            |p: Seq<char>| (track_id@, id_or_empty(t@), p, RefKind::Ref)),
                    decreases hits.len() - j,
                {
                    push_broken(out, track_id, t, &hits[j], RefKind::Ref);
                    assert(hv.take(j + 1) =~= hv.take(j as int).push(hv[j as int]));
                    j += 1;
                    assert(broken_rows(out@) =~= ob + hv.take(j as int).map_values(
                        |p: Seq<char>| (track_id@, id_or_empty(t@), p, RefKind::Ref)));
                }
                assert(hv.take(j as int) =~= hv);
                proof {
                    let own = broken_own(mv.take(i + 1), miss);
                    assert(own =~= prev + hv.map_values(|p: Seq<char>| (p, RefKind::Ref)));
                    assert(broken_rows(out@) =~= o0 + own.map_values(
                        |p: (Seq<char>, RefKind)| (track_id@, id_or_empty(t@), p.0, p.1)));
                }
            },
            Metadata::Spec(x) => {
                if string_in(missing, x.as_str()) {
                    push_broken(out, track_id, t, x, RefKind::Spec);
                }
                proof {
                    let own = broken_own(mv.take(i + 1), miss);
                    assert(broken_rows(out@) =~= o0 + own.map_values(
                        |p: (Seq<char>, RefKind)| (track_id@, id_or_empty(t@), p.0, p.1)));
                }
            },
            _ => {
                proof {
                    let own = broken_own(mv.take(i + 1), miss);
                    assert(own =~= prev);
                }
            },
        }
        i += 1;
    }
    assert(mv.take(i as int) =~= mv);
    let ghost mid = broken_rows(out@);
    broken_in_list(t.subtasks.as_slice(), track_id, missing, out);
    proof {
        let own = broken_own(mv, miss);
        assert(with_track3(track_id@, broken(t@, miss)) =~= own.map_values(
            |p: (Seq<char>, RefKind)| (track_id@, id_or_empty(t@), p.0, p.1))
            + with_track3(track_id@, broken_from(t@.subtasks, 0, miss)));
        assert(broken_rows(out@) =~= o0 + with_track3(track_id@, broken(t@, miss)));
    }
}

fn broken_in_list(tasks: &[Task], track_id: &str, missing: &Vec<String>, out: &mut Vec<BrokenRef>)
    ensures
        broken_rows(final(out)@) == broken_rows(old(out)@) + with_track3(track_id@, broken_from(tasks_v(tasks@), 0, strs_v(missing@))),
    decreases tasks_v(tasks@),
{
    let ghost ts = tasks_v(tasks@);
    let ghost mv = strs_v(missing@);
    let ghost out0 = broken_rows(out@);
    let mut i: usize = 0;
    while i < tasks.len()
        invariant
            i <= tasks@.len(),
            ts == tasks_v(tasks@),
            mv == strs_v(missing@),
            broken_rows(out@) + with_track3(track_id@, broken_from(ts, i as int, mv))
                == out0 + with_track3(track_id@, broken_from(ts, 0, mv)),
        decreases tasks@.len() - i,
    {
        let ghost ob = broken_rows(out@);
        assert(tasks[i as int]@ == ts[i as int]);
        proof {
            assert(decreases_to!(ts => ts[i as int]));
        }
        broken_in_task(&tasks[i], track_id, missing, out);
        proof {
            assert(with_track3(track_id@, broken_from(ts, i as int, mv))
                =~= with_track3(track_id@, broken(ts[i as int], mv)) + with_track3(track_id@, broken_from(ts, i + 1, mv)));
            assert(broken_rows(out@) + with_track3(track_id@, broken_from(ts, i + 1, mv))
                =~= ob + with_track3(track_id@, broken_from(ts, i as int, mv)));
        }
        i += 1;
    }
    assert(broken_from(ts, i as int, mv) =~= Seq::empty());
    assert(broken_rows(out@) =~= broken_rows(out@) + with_track3(track_id@, Seq::<(Seq<char>, Seq<char>, RefKind)>::empty()));
}

// ---------------------------------------------------------------------------
// Filling missing IDs
// ---------------------------------------------------------------------------

/// The number a task's ID carries after `st`, 0 when it carries none.
pub open spec fn num_of(t: TaskV, st: Seq<char>) -> nat {
    match t.id {
        Some(x) => match suffix_number(x, st) {
            Some(n) => n,
            None => 0,
        },
        None => 0,
    }
}

/// The highest number the tasks `subs` carry after `st`.
pub open spec fn max_ns(subs: Seq<TaskV>, st: Seq<char>) -> nat
    decreases subs.len(),
{
    if subs.len() == 0 {
        0
    } else {
        max_nat(max_ns(subs.drop_last(), st), num_of(subs.last(), st))
    }
}

/// One more, without passing `usize::MAX`.
pub open spec fn bump(m: nat) -> nat {
    if m < usize::MAX { m + 1 } else { m }
}

pub open spec fn opt_str(o: Option<String>) -> Option<Seq<char>> {
    match o {
        Some(s) => Some(s@),
        None => None,
    }
}

/// A task given `nid` when that is `Some` (and marked dirty), then, when it
/// holds an ID `p`, its ID-less children numbered on from the highest child
/// number under `p` in the namespace, each child treated the same way; with
/// the (ID, title) of every task given one, in file order.
pub open spec fn ids_t(t: TaskV, nid: Option<Seq<char>>, tok: Seq<char>) -> (TaskV, Seq<(Seq<char>, Seq<char>)>)
    decreases t, 0int,
{
    let t1 = match nid {
        Some(x) => TaskV { id: Some(x), dirty: true, ..t },
        None => t,
    };
    let own: Seq<(Seq<char>, Seq<char>)> = match nid {
        Some(x) => seq![(x, t.title)],
        None => Seq::empty(),
    };
    match t1.id {
        None => (t1, own),
        Some(p) => {
            let r = ids_l(t.subtasks, 0, p, tok, max_ns(t.subtasks, child_stem(p, tok)));
            (TaskV { subtasks: r.0, ..t1 }, own + r.1)
        },
    }
}

/// The children `ts[i..]` of the task holding `p`, with the counter at `m`.
pub open spec fn ids_l(ts: Seq<TaskV>, i: int, p: Seq<char>, tok: Seq<char>, m: nat) -> (Seq<TaskV>, Seq<(Seq<char>, Seq<char>)>)
    decreases ts, ts.len() - i,
{
    if i < 0 || i >= ts.len() {
        (Seq::empty(), Seq::empty())
    } else {
        let fresh = ts[i].id is None;
        let nid = if fresh { Some(child_of_v(p, bump(m), tok)) } else { None };
        let a = ids_t(ts[i], nid, tok);
        let b = ids_l(ts, i + 1, p, tok, if fresh { bump(m) } else { m });
        (seq![a.0] + b.0, a.1 + b.1)
    }
}

/// Top-level tasks `ts[i..]` of a track with the counter at `m`: each
/// ID-less one gets the next number of `prefix`'s namespace; every one is
/// then treated as [`ids_t`] says. Also gives the counter at the end.
pub open spec fn ids_top(ts: Seq<TaskV>, i: int, prefix: Seq<char>, tok: Seq<char>, m: nat) -> (Seq<TaskV>, Seq<(Seq<char>, Seq<char>)>, nat)
    decreases ts.len() - i,
{
    if i < 0 || i >= ts.len() {
        (Seq::empty(), Seq::empty(), m)
    } else {
        let fresh = ts[i].id is None;
        let nid = if fresh { Some(with_number_v(prefix, bump(m), tok)) } else { None };
        let a = ids_t(ts[i], nid, tok);
        let b = ids_top(ts, i + 1, prefix, tok, if fresh { bump(m) } else { m });
        (seq![a.0] + b.0, a.1 + b.1, b.2)
    }
}

/// The sections from node `i` on, the counter carried from one to the next.
pub open spec fn ids_nodes(nodes: Seq<NodeV>, i: int, prefix: Seq<char>, tok: Seq<char>, m: nat) -> (Seq<NodeV>, Seq<(Seq<char>, Seq<char>)>)
    decreases nodes.len() - i,
{
    if i < 0 || i >= nodes.len() {
        (Seq::empty(), Seq::empty())
    } else {
        let a = ids_top(node_tasks(nodes[i]), 0, prefix, tok, m);
        let b = ids_nodes(nodes, i + 1, prefix, tok, a.2);
        (seq![with_tasks(nodes[i], a.0)] + b.0, a.1 + b.1)
    }
}

/// Whether a top-level task of the sections from node `i` on lacks an ID.
pub open spec fn some_missing_top(nodes: Seq<NodeV>, i: int) -> bool
    decreases nodes.len() - i,
{
    if i < 0 || i >= nodes.len() {
        false
    } else {
        (exists|k: int| 0 <= k < node_tasks(nodes[i]).len() && #[trigger] node_tasks(nodes[i])[k].id is None)
            || some_missing_top(nodes, i + 1)
    }
}

/// What filling a track's missing IDs with a mint whose floor is `floor`
/// gives: the track and the (ID, title) of each task given one.
pub open spec fn ids_filled(nodes: Seq<NodeV>, prefix: Seq<char>, tok: Seq<char>, floor: nat) -> (Seq<NodeV>, Seq<(Seq<char>, Seq<char>)>) {
    ids_nodes(nodes, 0, prefix, tok, if some_missing_top(nodes, 0) { floor } else { 0 })
}

pub open spec fn id_rows(v: Seq<IdAssignment>) -> Seq<(Seq<char>, Seq<char>, Seq<char>)> {
    v.map_values(|a: IdAssignment| (a.track_id@, a.assigned_id@, a.title@))
}

fn number_of(t: &Task, st: &str) -> (r: usize)
    ensures
        r as nat == num_of(t@, st@),
{
    match &t.id {
        Some(x) => match suffix_number_of(x.as_str(), st) {
            Some(n) => n,
            None => 0,
        },
        None => 0,
    }
}

pub(crate) fn max_number(subs: &Vec<Task>, st: &str) -> (r: usize)
    ensures
        r as nat == max_ns(tasks_v(subs@), st@),
{
    let ghost sv = tasks_v(subs@);
    let mut m: usize = 0;
    let mut i: usize = 0;
    while i < subs.len()
        invariant
            i <= subs@.len(),
            sv == tasks_v(subs@),
            m as nat == max_ns(sv.take(i as int), st@),
        decreases subs.len() - i,
    {
        assert(sv.take(i + 1).drop_last() =~= sv.take(i as int));
        let n = number_of(&subs[i], st);
        if n > m {
            m = n;
        }
        i += 1;
    }
    assert(sv.take(i as int) =~= sv);
    m
}

fn push_id_row(out: &mut Vec<IdAssignment>, track_id: &str, id: &String, title: &String)
    ensures
        id_rows(final(out)@) == id_rows(old(out)@).push((track_id@, id@, title@)),
{
    let ghost ob = out@;
    let row = IdAssignment { track_id: String::from_str(track_id), assigned_id: id.clone(), title: title.clone() };
    out.push(row);
    assert(out@ == ob.push(row));
    assert(id_rows(out@) =~= id_rows(ob).push((track_id@, id@, title@)));
}

fn ids_in_task(task: &mut Task, nid: Option<String>, tok: Option<&Token>, track_id: &str, out: &mut Vec<IdAssignment>)
    ensures
        final(task)@ == ids_t(old(task)@, opt_str(nid), tok_v(tok)).0,
        id_rows(final(out)@) == id_rows(old(out)@) + with_track(track_id@, ids_t(old(task)@, opt_str(nid), tok_v(tok)).1),
    decreases old(task)@, 1int,
{
    let ghost t0 = task@;
    let ghost o0 = id_rows(out@);
    assert(tasks_v(task.subtasks@) =~= t0.subtasks);
    match nid {
        Some(x) => {
            push_id_row(out, track_id, &x, &task.title);
            task.id = Some(x);
            task.dirty = true;
        },
        None => {},
    }
    let ghost mid = id_rows(out@);
    let ghost own: Seq<(Seq<char>, Seq<char>)> = match opt_str(nid) {
        Some(x) => seq![(x, t0.title)],
        None => Seq::empty(),
    };
    assert(mid =~= o0 + with_track(track_id@, own));
    let pid = match &task.id {
        Some(p) => p.clone(),
        None => {
            assert(task@.subtasks =~= t0.subtasks);
            assert(with_track(track_id@, ids_t(t0, opt_str(nid), tok_v(tok)).1) =~= with_track(track_id@, own));
            return;
        },
    };
    let st = {
        let mut s = pid.clone();
        s.push('.');
        match tok {
            Some(t) => push_str(&mut s, t.as_str()),
            None => {
                assert(s@ + Seq::<char>::empty() =~= s@);
            },
        }
        s
    };
    assert(st@ == child_stem(pid@, tok_v(tok)));
    let m = max_number(&task.subtasks, st.as_str());
    ids_in_list(&mut task.subtasks, pid.as_str(), tok, m, track_id, out);
    proof {
        assert(task@.subtasks =~= tasks_v(task.subtasks@));
        let r = ids_l(t0.subtasks, 0, pid@, tok_v(tok), m as nat);
        assert(with_track(track_id@, ids_t(t0, opt_str(nid), tok_v(tok)).1) =~= with_track(track_id@, own)
            + with_track(track_id@, r.1));
    }
}

fn ids_in_list(tasks: &mut Vec<Task>, pid: &str, tok: Option<&Token>, m0: usize, track_id: &str, out: &mut Vec<IdAssignment>)
    ensures
        tasks_v(final(tasks)@) == ids_l(tasks_v(old(tasks)@), 0, pid@, tok_v(tok), m0 as nat).0,
        id_rows(final(out)@) == id_rows(old(out)@) + with_track(track_id@, ids_l(tasks_v(old(tasks)@), 0, pid@, tok_v(tok), m0 as nat).1),
    decreases tasks_v(old(tasks)@),
{
    let ghost ts = tasks_v(tasks@);
    let ghost tv = tok_v(tok);
    let ghost whole = ids_l(ts, 0, pid@, tv, m0 as nat);
    let ghost out0 = id_rows(out@);
    let mut m = m0;
    let mut i: usize = 0;
    while i < tasks.len()
        invariant
            i <= tasks@.len(),
            tasks@.len() == ts.len(),
            ts == tasks_v(old(tasks)@),
            tv == tok_v(tok),
            whole == ids_l(ts, 0, pid@, tv, m0 as nat),
            forall|k: int| i <= k < ts.len() ==> tasks_v(tasks@)[k] == ts[k],
            whole.0 == tasks_v(tasks@).take(i as int) + ids_l(ts, i as int, pid@, tv, m as nat).0,
            out0 + with_track(track_id@, whole.1) == id_rows(out@) + with_track(track_id@, ids_l(ts, i as int, pid@, tv, m as nat).1),
        decreases tasks@.len() - i,
    {
        let ghost before = tasks@;
        let ghost ob = id_rows(out@);
        let ghost mb = m as nat;
        let mut t = tasks.remove(i);
        assert(t@ == ts[i as int]);
        proof {
            assert(decreases_to!(ts => ts[i as int]));
        }
        let nid = if t.id.is_none() {
            if m < usize::MAX {
                m = m + 1;
            }
            Some(child_of(pid, m, tok))
        } else {
            None
        };
        ids_in_task(&mut t, nid, tok, track_id, out);
        tasks.insert(i, t);
        proof {
            let here = ids_l(ts, i as int, pid@, tv, mb);
            let fresh = ts[i as int].id is None;
            let a = ids_t(ts[i as int], if fresh { Some(child_of_v(pid@, bump(mb), tv)) } else { None }, tv);
            assert(opt_str(nid) == if fresh { Some(child_of_v(pid@, bump(mb), tv)) } else { None });
            assert(m as nat == if fresh { bump(mb) } else { mb });
            assert(tasks@ =~= before.update(i as int, t));
            assert(tasks_v(tasks@).take(i + 1) =~= tasks_v(before).take(i as int).push(a.0));
            assert(here.0 =~= seq![a.0] + ids_l(ts, i + 1, pid@, tv, m as nat).0);
            assert(whole.0 =~= tasks_v(tasks@).take(i + 1) + ids_l(ts, i + 1, pid@, tv, m as nat).0);
            assert(with_track(track_id@, here.1) =~= with_track(track_id@, a.1) + with_track(track_id@, ids_l(ts, i + 1, pid@, tv, m as nat).1));
            assert(out0 + with_track(track_id@, whole.1) =~= id_rows(out@) + with_track(track_id@, ids_l(ts, i + 1, pid@, tv, m as nat).1));
            assert forall|k: int| i + 1 <= k < ts.len() implies tasks_v(tasks@)[k] == ts[k] by {
                assert(tasks_v(tasks@)[k] == tasks_v(before)[k]);
            }
        }
        i += 1;
    }
    assert(tasks_v(tasks@).take(i as int) =~= tasks_v(tasks@));
    assert(whole.0 =~= tasks_v(tasks@));
    assert(id_rows(out@) =~= id_rows(out@) + with_track(track_id@, Seq::<(Seq<char>, Seq<char>)>::empty()));
}

fn ids_in_top(tasks: &mut Vec<Task>, prefix: &str, tok: Option<&Token>, m0: usize, track_id: &str, out: &mut Vec<IdAssignment>) -> (r: usize)
    ensures
        tasks_v(final(tasks)@) == ids_top(tasks_v(old(tasks)@), 0, prefix@, tok_v(tok), m0 as nat).0,
        id_rows(final(out)@) == id_rows(old(out)@) + with_track(track_id@, ids_top(tasks_v(old(tasks)@), 0, prefix@, tok_v(tok), m0 as nat).1),
        r as nat == ids_top(tasks_v(old(tasks)@), 0, prefix@, tok_v(tok), m0 as nat).2,
{
    let ghost ts = tasks_v(tasks@);
    let ghost tv = tok_v(tok);
    let ghost whole = ids_top(ts, 0, prefix@, tv, m0 as nat);
    let ghost out0 = id_rows(out@);
    let mut m = m0;
    let mut i: usize = 0;
    while i < tasks.len()
        invariant
            i <= tasks@.len(),
            tasks@.len() == ts.len(),
            ts == tasks_v(old(tasks)@),
            tv == tok_v(tok),
            whole == ids_top(ts, 0, prefix@, tv, m0 as nat),
            forall|k: int| i <= k < ts.len() ==> tasks_v(tasks@)[k] == ts[k],
            whole.0 == tasks_v(tasks@).take(i as int) + ids_top(ts, i as int, prefix@, tv, m as nat).0,
            out0 + with_track(track_id@, whole.1) == id_rows(out@) + with_track(track_id@, ids_top(ts, i as int, prefix@, tv, m as nat).1),
            whole.2 == ids_top(ts, i as int, prefix@, tv, m as nat).2,
        decreases tasks@.len() - i,
    {
        let ghost before = tasks@;
        let ghost mb = m as nat;
        let mut t = tasks.remove(i);
        assert(t@ == ts[i as int]);
        let nid = if t.id.is_none() {
            if m < usize::MAX {
                m = m + 1;
            }
            Some(with_number(prefix, m, tok))
        } else {
            None
        };
        ids_in_task(&mut t, nid, tok, track_id, out);
        tasks.insert(i, t);
        proof {
            let here = ids_top(ts, i as int, prefix@, tv, mb);
            let fresh = ts[i as int].id is None;
            let a = ids_t(ts[i as int], if fresh { Some(with_number_v(prefix@, bump(mb), tv)) } else { None }, tv);
            assert(opt_str(nid) == if fresh { Some(with_number_v(prefix@, bump(mb), tv)) } else { None });
            assert(tasks@ =~= before.update(i as int, t));
            assert(tasks_v(tasks@).take(i + 1) =~= tasks_v(before).take(i as int).push(a.0));
            assert(here.0 =~= seq![a.0] + ids_top(ts, i + 1, prefix@, tv, m as nat).0);
            assert(whole.0 =~= tasks_v(tasks@).take(i + 1) + ids_top(ts, i + 1, prefix@, tv, m as nat).0);
            assert(with_track(track_id@, here.1) =~= with_track(track_id@, a.1) + with_track(track_id@, ids_top(ts, i + 1, prefix@, tv, m as nat).1));
            assert(out0 + with_track(track_id@, whole.1) =~= id_rows(out@) + with_track(track_id@, ids_top(ts, i + 1, prefix@, tv, m as nat).1));
            assert forall|k: int| i + 1 <= k < ts.len() implies tasks_v(tasks@)[k] == ts[k] by {
                assert(tasks_v(tasks@)[k] == tasks_v(before)[k]);
            }
        }
        i += 1;
    }
    assert(tasks_v(tasks@).take(i as int) =~= tasks_v(tasks@));
    assert(whole.0 =~= tasks_v(tasks@));
    assert(id_rows(out@) =~= id_rows(out@) + with_track(track_id@, Seq::<(Seq<char>, Seq<char>)>::empty()));
    m
}

fn any_missing_top(track: &Track) -> (r: bool)
    ensures
        r == some_missing_top(track@, 0),
{
    let mut i: usize = 0;
    while i < track.nodes.len()
        invariant
            i <= track.nodes@.len(),
            some_missing_top(track@, 0) == some_missing_top(track@, i as int),
        decreases track.nodes.len() - i,
    {
        match &track.nodes[i] {
            TrackNode::Section { tasks, .. } => {
                let ghost tv = tasks_v(tasks@);
                assert(tv == node_tasks(track@[i as int]));
                let mut j: usize = 0;
                while j < tasks.len()
                    invariant
                        j <= tasks@.len(),
                        tv == tasks_v(tasks@),
                        tv == node_tasks(track@[i as int]),
                        i < track@.len(),
                        some_missing_top(track@, 0) == some_missing_top(track@, i as int),
                        forall|k: int| 0 <= k < j ==> !(#[trigger] tv[k].id is None),
                    decreases tasks.len() - j,
                {
                    assert(tv[j as int] == tasks@[j as int]@);
                    if tasks[j].id.is_none() {
                        assert(node_tasks(track@[i as int])[j as int].id is None);
                        assert(some_missing_top(track@, i as int));
                        return true;
                    }
                    j += 1;
                }
            },
            TrackNode::Literal(_) => {},
        }
        i += 1;
    }
    false
}

/// Give every ID-less task of a track an ID: top-level tasks the next
/// numbers of the mint's namespace, in file order; subtasks the next child
/// numbers of their parent in the namespace (see [`ids_filled`]).
pub fn assign_missing_ids(track: &mut Track, track_id: &str, mint: &Mint, out: &mut Vec<IdAssignment>)
    ensures
        final(track)@ == ids_filled(old(track)@, mint.prefix_v(), mint.token_v(), mint.floor_v(old(track)@)).0,
        id_rows(final(out)@) == id_rows(old(out)@)
            + with_track(track_id@, ids_filled(old(track)@, mint.prefix_v(), mint.token_v(), mint.floor_v(old(track)@)).1),
{
    let ghost nv = track@;
    let start = if any_missing_top(track) { mint.floor(track) } else { 0 };
    let ghost whole = ids_nodes(nv, 0, mint.prefix_v(), mint.token_v(), start as nat);
    let ghost out0 = id_rows(out@);
    let prefix = mint.prefix();
    let tok = mint.token();
    let mut m = start;
    let mut i: usize = 0;
    while i < track.nodes.len()
        invariant
            i <= track.nodes@.len(),
            track@.len() == nv.len(),
            track.nodes@.len() == nv.len(),
            prefix@ == mint.prefix_v(),
            tok_v(tok) == mint.token_v(),
            whole == ids_nodes(nv, 0, mint.prefix_v(), mint.token_v(), start as nat),
            forall|k: int| i <= k < nv.len() ==> track@[k] == nv[k],
            whole.0 == track@.take(i as int) + ids_nodes(nv, i as int, mint.prefix_v(), mint.token_v(), m as nat).0,
            out0 + with_track(track_id@, whole.1) == id_rows(out@) + with_track(track_id@, ids_nodes(nv, i as int, mint.prefix_v(), mint.token_v(), m as nat).1),
        decreases track.nodes.len() - i,
    {
        let ghost before = track@;
        let ghost mb = m as nat;
        let is_section = match &track.nodes[i] {
            TrackNode::Section { .. } => true,
            TrackNode::Literal(_) => false,
        };
        if is_section {
            let mut tasks = track.swap_section_tasks(i, Vec::new());
            assert(tasks_v(tasks@) == node_tasks(nv[i as int]));
            m = ids_in_top(&mut tasks, prefix, tok, m, track_id, out);
            assert(track@.len() == track.nodes@.len());
            let _ = track.swap_section_tasks(i, tasks);
            proof {
                let nd = nv[i as int];
                assert(with_tasks(with_tasks(nd, Seq::empty()), tasks_v(tasks@)) == with_tasks(nd, tasks_v(tasks@)));
                assert(track@ =~= before.update(i as int, with_tasks(nd, tasks_v(tasks@))));
            }
        } else {
            proof {
                assert(node_tasks(nv[i as int]) =~= Seq::empty());
                assert(with_tasks(nv[i as int], Seq::empty()) == nv[i as int]);
            }
        }
        proof {
            let a = ids_top(node_tasks(nv[i as int]), 0, mint.prefix_v(), mint.token_v(), mb);
            assert(m as nat == a.2);
            assert(track@.take(i + 1) =~= before.take(i as int).push(with_tasks(nv[i as int], a.0)));
            assert(whole.0 =~= track@.take(i + 1) + ids_nodes(nv, i + 1, mint.prefix_v(), mint.token_v(), m as nat).0);
            assert(with_track(track_id@, ids_nodes(nv, i as int, mint.prefix_v(), mint.token_v(), mb).1)
                =~= with_track(track_id@, a.1) + with_track(track_id@, ids_nodes(nv, i + 1, mint.prefix_v(), mint.token_v(), m as nat).1));
            assert forall|k: int| i + 1 <= k < nv.len() implies track@[k] == nv[k] by {
                assert(track@[k] == before[k]);
            }
        }
        i += 1;
    }
    assert(track@.take(i as int) =~= track@);
    assert(whole.0 =~= track@);
    assert(id_rows(out@) =~= id_rows(out@) + with_track(track_id@, Seq::<(Seq<char>, Seq<char>)>::empty()));
}

// ---------------------------------------------------------------------------
// Whole-track passes
// ---------------------------------------------------------------------------

/// A track with `f` applied to the tasks of each section.
pub open spec fn nodes_mapped(nodes: Seq<NodeV>, f: spec_fn(Seq<TaskV>) -> Seq<TaskV>) -> Seq<NodeV> {
    Seq::new(nodes.len(), |i: int| with_tasks(nodes[i], f(node_tasks(nodes[i]))))
}

/// What `f` finds in the tasks of each section from node `i` on, in order.
pub open spec fn nodes_found<A>(nodes: Seq<NodeV>, i: int, f: spec_fn(Seq<TaskV>) -> Seq<A>) -> Seq<A>
    decreases nodes.len() - i,
{
    if i < 0 || i >= nodes.len() {
        Seq::empty()
    } else {
        f(node_tasks(nodes[i])) + nodes_found(nodes, i + 1, f)
    }
}

/// Put `added: today` on every task of the track lacking one.
pub fn assign_missing_dates(track: &mut Track, track_id: &str, today: &str, out: &mut Vec<DateAssignment>)
    ensures
        final(track)@ == nodes_mapped(old(track)@, |ts: Seq<TaskV>| dated_list(ts, today@)),
        date_rows(final(out)@) == date_rows(old(out)@) + rows_for(track_id@,
            nodes_found(old(track)@, 0, |ts: Seq<TaskV>| undated_from(ts, 0)), today@, DateKind::Added),
{
    let ghost nv = track@;
    let ghost f = |ts: Seq<TaskV>| dated_list(ts, today@);
    let ghost g = |ts: Seq<TaskV>| undated_from(ts, 0);
    let ghost out0 = date_rows(out@);
    let mut i: usize = 0;
    while i < track.nodes.len()
        invariant
            i <= track.nodes@.len(),
            track@.len() == nv.len(),
            track.nodes@.len() == nv.len(),
            nv == old(track)@,
            f == (|ts: Seq<TaskV>| dated_list(ts, today@)),
            g == (|ts: Seq<TaskV>| undated_from(ts, 0)),
            forall|k: int| i <= k < nv.len() ==> track@[k] == nv[k],
            forall|k: int| 0 <= k < i ==> track@[k] == nodes_mapped(nv, f)[k],
            date_rows(out@) + rows_for(track_id@, nodes_found(nv, i as int, g), today@, DateKind::Added)
                == out0 + rows_for(track_id@, nodes_found(nv, 0, g), today@, DateKind::Added),
        decreases track.nodes.len() - i,
    {
        let ghost before = track@;
        let ghost ob = date_rows(out@);
        let is_section = match &track.nodes[i] {
            TrackNode::Section { .. } => true,
            TrackNode::Literal(_) => false,
        };
        if is_section {
            let mut tasks = track.swap_section_tasks(i, Vec::new());
            dates_in_list(&mut tasks, track_id, today, out);
            assert(track@.len() == track.nodes@.len());
            let _ = track.swap_section_tasks(i, tasks);
            proof {
                let nd = nv[i as int];
                assert(with_tasks(with_tasks(nd, Seq::empty()), tasks_v(tasks@)) == with_tasks(nd, tasks_v(tasks@)));
                assert(track@ =~= before.update(i as int, with_tasks(nd, tasks_v(tasks@))));
            }
        } else {
            proof {
                assert(undated_from(node_tasks(nv[i as int]), 0) =~= Seq::empty());
                assert(dated_list(node_tasks(nv[i as int]), today@) =~= Seq::empty());
            }
        }
        proof {
            assert(rows_for(track_id@, nodes_found(nv, i as int, g), today@, DateKind::Added)
                =~= rows_for(track_id@, undated_from(node_tasks(nv[i as int]), 0), today@, DateKind::Added)
                + rows_for(track_id@, nodes_found(nv, i + 1, g), today@, DateKind::Added));
            assert(date_rows(out@) + rows_for(track_id@, nodes_found(nv, i + 1, g), today@, DateKind::Added)
                =~= ob + rows_for(track_id@, nodes_found(nv, i as int, g), today@, DateKind::Added));
            assert forall|k: int| i + 1 <= k < nv.len() implies track@[k] == nv[k] by {
                assert(track@[k] == before[k]);
            }
            assert forall|k: int| 0 <= k < i + 1 implies track@[k] == nodes_mapped(nv, f)[k] by {
                if k < i {
                    assert(track@[k] == before[k]);
                }
            }
        }
        i += 1;
    }
    assert(track@ =~= nodes_mapped(nv, f));
    assert(date_rows(out@) =~= date_rows(out@) + rows_for(track_id@, Seq::<Seq<char>>::empty(), today@, DateKind::Added));
}

/// Put `resolved: today` on every done task of the track lacking one.
pub fn assign_missing_resolved_dates(track: &mut Track, track_id: &str, today: &str, out: &mut Vec<DateAssignment>)
    ensures
        final(track)@ == nodes_mapped(old(track)@, |ts: Seq<TaskV>| resolved_list(ts, today@)),
        date_rows(final(out)@) == date_rows(old(out)@) + rows_for(track_id@,
            nodes_found(old(track)@, 0, |ts: Seq<TaskV>| unresolved_from(ts, 0)), today@, DateKind::Resolved),
{
    let ghost nv = track@;
    let ghost f = |ts: Seq<TaskV>| resolved_list(ts, today@);
    let ghost g = |ts: Seq<TaskV>| unresolved_from(ts, 0);
    let ghost out0 = date_rows(out@);
    let mut i: usize = 0;
    while i < track.nodes.len()
        invariant
            i <= track.nodes@.len(),
            track@.len() == nv.len(),
            track.nodes@.len() == nv.len(),
            nv == old(track)@,
            f == (|ts: Seq<TaskV>| resolved_list(ts, today@)),
            g == (|ts: Seq<TaskV>| unresolved_from(ts, 0)),
            forall|k: int| i <= k < nv.len() ==> track@[k] == nv[k],
            forall|k: int| 0 <= k < i ==> track@[k] == nodes_mapped(nv, f)[k],
            date_rows(out@) + rows_for(track_id@, nodes_found(nv, i as int, g), today@, DateKind::Resolved)
                == out0 + rows_for(track_id@, nodes_found(nv, 0, g), today@, DateKind::Resolved),
        decreases track.nodes.len() - i,
    {
        let ghost before = track@;
        let ghost ob = date_rows(out@);
        let is_section = match &track.nodes[i] {
            TrackNode::Section { .. } => true,
            TrackNode::Literal(_) => false,
        };
        if is_section {
            let mut tasks = track.swap_section_tasks(i, Vec::new());
            resolved_in_list(&mut tasks, track_id, today, out);
            assert(track@.len() == track.nodes@.len());
            let _ = track.swap_section_tasks(i, tasks);
            proof {
                let nd = nv[i as int];
                assert(with_tasks(with_tasks(nd, Seq::empty()), tasks_v(tasks@)) == with_tasks(nd, tasks_v(tasks@)));
                assert(track@ =~= before.update(i as int, with_tasks(nd, tasks_v(tasks@))));
            }
        } else {
            proof {
                assert(unresolved_from(node_tasks(nv[i as int]), 0) =~= Seq::empty());
                assert(resolved_list(node_tasks(nv[i as int]), today@) =~= Seq::empty());
            }
        }
        proof {
            assert(rows_for(track_id@, nodes_found(nv, i as int, g), today@, DateKind::Resolved)
                =~= rows_for(track_id@, unresolved_from(node_tasks(nv[i as int]), 0), today@, DateKind::Resolved)
                + rows_for(track_id@, nodes_found(nv, i + 1, g), today@, DateKind::Resolved));
            assert(date_rows(out@) + rows_for(track_id@, nodes_found(nv, i + 1, g), today@, DateKind::Resolved)
                =~= ob + rows_for(track_id@, nodes_found(nv, i as int, g), today@, DateKind::Resolved));
            assert forall|k: int| i + 1 <= k < nv.len() implies track@[k] == nv[k] by {
                assert(track@[k] == before[k]);
            }
            assert forall|k: int| 0 <= k < i + 1 implies track@[k] == nodes_mapped(nv, f)[k] by {
                if k < i {
                    assert(track@[k] == before[k]);
                }
            }
        }
        i += 1;
    }
    assert(track@ =~= nodes_mapped(nv, f));
    assert(date_rows(out@) =~= date_rows(out@) + rows_for(track_id@, Seq::<Seq<char>>::empty(), today@, DateKind::Resolved));
}

/// Suggest marking done each task whose subtasks all are.
pub fn collect_suggestions(track: &Track, track_id: &str, out: &mut Vec<Suggestion>)
    ensures
        suggestion_rows(final(out)@) == suggestion_rows(old(out)@)
            + suggestions_for(track_id@, nodes_found(track@, 0, |ts: Seq<TaskV>| suggested_from(ts, 0))),
{
    let ghost g = |ts: Seq<TaskV>| suggested_from(ts, 0);
    let ghost out0 = suggestion_rows(out@);
    let mut i: usize = 0;
    while i < track.nodes.len()
        invariant
            i <= track.nodes@.len(),
            g == (|ts: Seq<TaskV>| suggested_from(ts, 0)),
            suggestion_rows(out@) + suggestions_for(track_id@, nodes_found(track@, i as int, g))
                == out0 + suggestions_for(track_id@, nodes_found(track@, 0, g)),
        decreases track.nodes.len() - i,
    {
        let ghost ob = suggestion_rows(out@);
        match &track.nodes[i] {
            TrackNode::Section { tasks, .. } => suggestions_in_list(tasks.as_slice(), track_id, out),
            TrackNode::Literal(_) => {
                assert(suggested_from(node_tasks(track@[i as int]), 0) =~= Seq::empty());
            },
        }
        proof {
            assert(suggestions_for(track_id@, nodes_found(track@, i as int, g))
                =~= suggestions_for(track_id@, suggested_from(node_tasks(track@[i as int]), 0))
                + suggestions_for(track_id@, nodes_found(track@, i + 1, g)));
            assert(suggestion_rows(out@) + suggestions_for(track_id@, nodes_found(track@, i + 1, g))
                =~= ob + suggestions_for(track_id@, nodes_found(track@, i as int, g)));
        }
        i += 1;
    }
    assert(suggestion_rows(out@) =~= suggestion_rows(out@) + suggestions_for(track_id@, Seq::<Seq<char>>::empty()));
}

/// Report each `dep:` entry of the track that names no ID in `all_ids`.
pub fn validate_deps(track: &Track, track_id: &str, all_ids: &Vec<String>, out: &mut Vec<DanglingDep>)
    ensures
        dangling_rows(final(out)@) == dangling_rows(old(out)@)
            + with_track(track_id@, nodes_found(track@, 0, |ts: Seq<TaskV>| dangling_from(ts, 0, strs_v(all_ids@)))),
{
    let ghost g = |ts: Seq<TaskV>| dangling_from(ts, 0, strs_v(all_ids@));
    let ghost out0 = dangling_rows(out@);
    let mut i: usize = 0;
    while i < track.nodes.len()
        invariant
            i <= track.nodes@.len(),
            g == (|ts: Seq<TaskV>| dangling_from(ts, 0, strs_v(all_ids@))),
            dangling_rows(out@) + with_track(track_id@, nodes_found(track@, i as int, g))
                == out0 + with_track(track_id@, nodes_found(track@, 0, g)),
        decreases track.nodes.len() - i,
    {
        let ghost ob = dangling_rows(out@);
        match &track.nodes[i] {
            TrackNode::Section { tasks, .. } => dangling_in_list(tasks.as_slice(), track_id, all_ids, out),
            TrackNode::Literal(_) => {
                assert(dangling_from(node_tasks(track@[i as int]), 0, strs_v(all_ids@)) =~= Seq::empty());
            },
        }
        proof {
            assert(with_track(track_id@, nodes_found(track@, i as int, g))
                =~= with_track(track_id@, dangling_from(node_tasks(track@[i as int]), 0, strs_v(all_ids@)))
                + with_track(track_id@, nodes_found(track@, i + 1, g)));
            assert(dangling_rows(out@) + with_track(track_id@, nodes_found(track@, i + 1, g))
                =~= ob + with_track(track_id@, nodes_found(track@, i as int, g)));
        }
        i += 1;
    }
    assert(dangling_rows(out@) =~= dangling_rows(out@) + with_track(track_id@, Seq::<(Seq<char>, Seq<char>)>::empty()));
}

/// Report each `ref:` or `spec:` path of the track that `missing` holds.
pub fn validate_refs(track: &Track, track_id: &str, missing: &Vec<String>, out: &mut Vec<BrokenRef>)
    ensures
        broken_rows(final(out)@) == broken_rows(old(out)@)
            + with_track3(track_id@, nodes_found(track@, 0, |ts: Seq<TaskV>| broken_from(ts, 0, strs_v(missing@)))),
{
    let ghost g = |ts: Seq<TaskV>| broken_from(ts, 0, strs_v(missing@));
    let ghost out0 = broken_rows(out@);
    let mut i: usize = 0;
    while i < track.nodes.len()
        invariant
            i <= track.nodes@.len(),
            g == (|ts: Seq<TaskV>| broken_from(ts, 0, strs_v(missing@))),
            broken_rows(out@) + with_track3(track_id@, nodes_found(track@, i as int, g))
                == out0 + with_track3(track_id@, nodes_found(track@, 0, g)),
        decreases track.nodes.len() - i,
    {
        let ghost ob = broken_rows(out@);
        match &track.nodes[i] {
            TrackNode::Section { tasks, .. } => broken_in_list(tasks.as_slice(), track_id, missing, out),
            TrackNode::Literal(_) => {
                assert(broken_from(node_tasks(track@[i as int]), 0, strs_v(missing@)) =~= Seq::empty());
            },
        }
        proof {
            assert(with_track3(track_id@, nodes_found(track@, i as int, g))
                =~= with_track3(track_id@, broken_from(node_tasks(track@[i as int]), 0, strs_v(missing@)))
                + with_track3(track_id@, nodes_found(track@, i + 1, g)));
            assert(broken_rows(out@) + with_track3(track_id@, nodes_found(track@, i + 1, g))
                =~= ob + with_track3(track_id@, nodes_found(track@, i as int, g)));
        }
        i += 1;
    }
    assert(broken_rows(out@) =~= broken_rows(out@) + with_track3(track_id@, Seq::<(Seq<char>, Seq<char>, RefKind)>::empty()));
}

// ---------------------------------------------------------------------------
// Duplicate IDs: finding them
// ---------------------------------------------------------------------------

/// A later holder of an ID already seen: (ID, track, ID of the task it sits
/// under).
pub type DupV = (Seq<char>, Seq<char>, Option<Seq<char>>);

/// The duplicates in a subtree under `parent`, given the IDs `seen` before
/// it; and the IDs seen after it.
pub open spec fn dups_t(t: TaskV, tid: Seq<char>, parent: Option<Seq<char>>, seen: Seq<Seq<char>>) -> (Seq<DupV>, Seq<Seq<char>>)
    decreases t, 0int,
{
    let (own, seen1): (Seq<DupV>, Seq<Seq<char>>) = match t.id {
        Some(x) => if seen.contains(x) {
            (seq![(x, tid, parent)], seen)
        } else {
            (Seq::empty(), seen.push(x))
        },
        None => (Seq::empty(), seen),
    };
    let r = dups_l(t.subtasks, 0, tid, t.id, seen1);
    (own + r.0, r.1)
}

pub open spec fn dups_l(ts: Seq<TaskV>, i: int, tid: Seq<char>, parent: Option<Seq<char>>, seen: Seq<Seq<char>>) -> (Seq<DupV>, Seq<Seq<char>>)
    decreases ts, ts.len() - i,
{
    if i < 0 || i >= ts.len() {
        (Seq::empty(), seen)
    } else {
        let a = dups_t(ts[i], tid, parent, seen);
        let b = dups_l(ts, i + 1, tid, parent, a.1);
        (a.0 + b.0, b.1)
    }
}

pub open spec fn dups_nodes(nodes: Seq<NodeV>, i: int, tid: Seq<char>, seen: Seq<Seq<char>>) -> (Seq<DupV>, Seq<Seq<char>>)
    decreases nodes.len() - i,
{
    if i < 0 || i >= nodes.len() {
        (Seq::empty(), seen)
    } else {
        let a = dups_l(node_tasks(nodes[i]), 0, tid, None, seen);
        let b = dups_nodes(nodes, i + 1, tid, a.1);
        (a.0 + b.0, b.1)
    }
}

/// The index of the first track with this ID.
pub open spec fn track_index_from(tracks: Seq<(Seq<char>, Seq<NodeV>)>, id: Seq<char>, i: int) -> Option<int>
    decreases tracks.len() - i,
{
    if i < 0 || i >= tracks.len() {
        None
    } else if tracks[i].0 == id {
        Some(i)
    } else {
        track_index_from(tracks, id, i + 1)
    }
}

/// The duplicates of a project, walking its tracks in configured order
/// (`order[j..]`), each track in file order.
pub open spec fn dups_order(order: Seq<Seq<char>>, j: int, tracks: Seq<(Seq<char>, Seq<NodeV>)>, seen: Seq<Seq<char>>) -> (Seq<DupV>, Seq<Seq<char>>)
    decreases order.len() - j,
{
    if j < 0 || j >= order.len() {
        (Seq::empty(), seen)
    } else {
        let a: (Seq<DupV>, Seq<Seq<char>>) = match track_index_from(tracks, order[j], 0) {
            Some(k) => dups_nodes(tracks[k].1, 0, order[j], seen),
            None => (Seq::empty(), seen),
        };
        let b = dups_order(order, j + 1, tracks, a.1);
        (a.0 + b.0, b.1)
    }
}

/// An occurrence of a duplicate ID awaiting a fresh one.
struct Duplicate {
    old_id: String,
    track_id: String,
    parent_id: Option<String>,
}

spec fn dup_v(d: Duplicate) -> DupV {
    (d.old_id@, d.track_id@, opt_str(d.parent_id))
}

spec fn dups_view(v: Seq<Duplicate>) -> Seq<DupV> {
    v.map_values(|d: Duplicate| dup_v(d))
}

fn clone_opt(o: &Option<String>) -> (r: Option<String>)
    ensures
        opt_str(r) == opt_str(*o),
{
    match o {
        Some(s) => Some(s.clone()),
        None => None,
    }
}

fn dups_in_task(t: &Task, tid: &str, parent: &Option<String>, seen: &mut Vec<String>, out: &mut Vec<Duplicate>)
    ensures
        strs_v(final(seen)@) == dups_t(t@, tid@, opt_str(*parent), strs_v(old(seen)@)).1,
        dups_view(final(out)@) == dups_view(old(out)@) + dups_t(t@, tid@, opt_str(*parent), strs_v(old(seen)@)).0,
    decreases t@, 1int,
{
    assert(tasks_v(t.subtasks@) =~= t@.subtasks);
    let ghost o0 = dups_view(out@);
    match &t.id {
        Some(x) => {
            if string_in(seen, x.as_str()) {
                let ghost ob = out@;
                let d = Duplicate { old_id: x.clone(), track_id: String::from_str(tid), parent_id: clone_opt(parent) };
                out.push(d);
                assert(out@ == ob.push(d));
                assert(dups_view(out@) =~= dups_view(ob).push(dup_v(d)));
            } else {
                let ghost sb = seen@;
                seen.push(x.clone());
                assert(strs_v(seen@) =~= strs_v(sb).push(x@));
            }
        },
        None => {},
    }
    let ghost mid = dups_view(out@);
    let myid = clone_opt(&t.id);
    dups_in_list(t.subtasks.as_slice(), tid, &myid, seen, out);
    proof {
        let own: Seq<DupV> = match t@.id {
            Some(x) => if strs_v(old(seen)@).contains(x) { seq![(x, tid@, opt_str(*parent))] } else { Seq::empty() },
            None => Seq::empty(),
        };
        assert(mid =~= o0 + own);
        assert(dups_view(out@) =~= o0 + dups_t(t@, tid@, opt_str(*parent), strs_v(old(seen)@)).0);
    }
}

fn dups_in_list(ts: &[Task], tid: &str, parent: &Option<String>, seen: &mut Vec<String>, out: &mut Vec<Duplicate>)
    ensures
        strs_v(final(seen)@) == dups_l(tasks_v(ts@), 0, tid@, opt_str(*parent), strs_v(old(seen)@)).1,
        dups_view(final(out)@) == dups_view(old(out)@) + dups_l(tasks_v(ts@), 0, tid@, opt_str(*parent), strs_v(old(seen)@)).0,
    decreases tasks_v(ts@),
{
    let ghost tv = tasks_v(ts@);
    let ghost pv = opt_str(*parent);
    let ghost whole = dups_l(tv, 0, tid@, pv, strs_v(seen@));
    let ghost o0 = dups_view(out@);
    let mut i: usize = 0;
    while i < ts.len()
        invariant
            i <= ts@.len(),
            tv == tasks_v(ts@),
            pv == opt_str(*parent),
            whole.1 == dups_l(tv, i as int, tid@, pv, strs_v(seen@)).1,
            o0 + whole.0 == dups_view(out@) + dups_l(tv, i as int, tid@, pv, strs_v(seen@)).0,
        decreases ts.len() - i,
    {
        let ghost sb = strs_v(seen@);
        let ghost ob = dups_view(out@);
        assert(ts[i as int]@ == tv[i as int]);
        proof {
            assert(decreases_to!(tv => tv[i as int]));
        }
        dups_in_task(&ts[i], tid, parent, seen, out);
        proof {
            let a = dups_t(tv[i as int], tid@, pv, sb);
            assert(dups_l(tv, i as int, tid@, pv, sb).0 =~= a.0 + dups_l(tv, i + 1, tid@, pv, a.1).0);
            assert(o0 + whole.0 =~= dups_view(out@) + dups_l(tv, i + 1, tid@, pv, strs_v(seen@)).0);
        }
        i += 1;
    }
    assert(dups_view(out@) =~= dups_view(out@) + Seq::<DupV>::empty());
}

fn dups_in_track(track: &Track, tid: &str, seen: &mut Vec<String>, out: &mut Vec<Duplicate>)
    ensures
        strs_v(final(seen)@) == dups_nodes(track@, 0, tid@, strs_v(old(seen)@)).1,
        dups_view(final(out)@) == dups_view(old(out)@) + dups_nodes(track@, 0, tid@, strs_v(old(seen)@)).0,
{
    let ghost whole = dups_nodes(track@, 0, tid@, strs_v(seen@));
    let ghost o0 = dups_view(out@);
    let none: Option<String> = None;
    let mut i: usize = 0;
    while i < track.nodes.len()
        invariant
            i <= track.nodes@.len(),
            none is None,
            whole.1 == dups_nodes(track@, i as int, tid@, strs_v(seen@)).1,
            o0 + whole.0 == dups_view(out@) + dups_nodes(track@, i as int, tid@, strs_v(seen@)).0,
        decreases track.nodes.len() - i,
    {
        let ghost sb = strs_v(seen@);
        match &track.nodes[i] {
            TrackNode::Section { tasks, .. } => dups_in_list(tasks.as_slice(), tid, &none, seen, out),
            TrackNode::Literal(_) => {
                assert(dups_l(node_tasks(track@[i as int]), 0, tid@, None, sb).0 =~= Seq::empty());
            },
        }
        proof {
            let a = dups_l(node_tasks(track@[i as int]), 0, tid@, None, sb);
            assert(dups_nodes(track@, i as int, tid@, sb).0 =~= a.0 + dups_nodes(track@, i + 1, tid@, a.1).0);
            assert(o0 + whole.0 =~= dups_view(out@) + dups_nodes(track@, i + 1, tid@, strs_v(seen@)).0);
        }
        i += 1;
    }
    assert(dups_view(out@) =~= dups_view(out@) + Seq::<DupV>::empty());
}

/// The index of the first track with this ID.
pub fn track_index(tracks: &Vec<(String, Track)>, id: &str) -> (r: Option<usize>)
    ensures
        match r {
            Some(k) => track_index_from(crate::project::tracks_view(tracks@), id@, 0) == Some(k as int) && k < tracks@.len(),
            None => track_index_from(crate::project::tracks_view(tracks@), id@, 0) is None,
        },
{
    let ghost tv = crate::project::tracks_view(tracks@);
    let mut i: usize = 0;
    while i < tracks.len()
        invariant
            i <= tracks@.len(),
            tv == crate::project::tracks_view(tracks@),
            track_index_from(tv, id@, 0) == track_index_from(tv, id@, i as int),
        decreases tracks.len() - i,
    {
        if str_eq(tracks[i].0.as_str(), id) {
            return Some(i);
        }
        i += 1;
    }
    None
}

fn find_duplicates(tracks: &Vec<(String, Track)>, order: &Vec<String>) -> (r: Vec<Duplicate>)
    ensures
        dups_view(r@) == dups_order(strs_v(order@), 0, crate::project::tracks_view(tracks@), Seq::empty()).0,
{
    let ghost tv = crate::project::tracks_view(tracks@);
    let ghost ov = strs_v(order@);
    let ghost whole = dups_order(ov, 0, tv, Seq::empty());
    let mut seen: Vec<String> = Vec::new();
    let mut out: Vec<Duplicate> = Vec::new();
    assert(strs_v(seen@) =~= Seq::<Seq<char>>::empty());
    let mut j: usize = 0;
    while j < order.len()
        invariant
            j <= order@.len(),
            tv == crate::project::tracks_view(tracks@),
            ov == strs_v(order@),
            whole.0 == dups_view(out@) + dups_order(ov, j as int, tv, strs_v(seen@)).0,
        decreases order.len() - j,
    {
        let ghost sb = strs_v(seen@);
        let ghost ob = dups_view(out@);
        match track_index(tracks, order[j].as_str()) {
            Some(k) => {
                assert(tv[k as int].1 == tracks@[k as int].1@);
                dups_in_track(&tracks[k].1, order[j].as_str(), &mut seen, &mut out);
            },
            None => {},
        }
        proof {
            assert(dups_order(ov, j as int, tv, sb).0 =~= (dups_view(out@).subrange(ob.len() as int, dups_view(out@).len() as int))
                + dups_order(ov, j + 1, tv, strs_v(seen@)).0);
            assert(whole.0 =~= dups_view(out@) + dups_order(ov, j + 1, tv, strs_v(seen@)).0);
        }
        j += 1;
    }
    assert(dups_view(out@) =~= dups_view(out@) + Seq::<DupV>::empty());
    out
}

// ---------------------------------------------------------------------------
// Duplicate IDs: choosing fresh ones
// ---------------------------------------------------------------------------

/// The highest number after `st` among the new IDs of `pairs`.
pub open spec fn staged_top(pairs: Seq<(Seq<char>, Seq<char>)>, st: Seq<char>) -> nat
    decreases pairs.len(),
{
    if pairs.len() == 0 {
        0
    } else {
        max_nat(staged_top(pairs.drop_last(), st), match suffix_number(pairs.last().1, st) {
            Some(n) => n,
            None => 0,
        })
    }
}

pub open spec fn nat_or_zero(o: Option<nat>) -> nat {
    match o {
        Some(n) => n,
        None => 0,
    }
}

pub open spec fn floors_view(v: Seq<(String, usize)>) -> Seq<(Seq<char>, nat)> {
    v.map_values(|p: (String, usize)| (p.0@, p.1 as nat))
}

/// The fresh ID one duplicate gets, given the (old, new) pairs chosen so far
/// and the child numbers handed out per parent (newest first): a nested one
/// the next child number under its parent, counting those handed out in this
/// batch; a top-level one, or one whose parent is gone, the next number of
/// the track's namespace above the floor and above the numbers handed out in
/// this batch. A duplicate whose track has no prefix, or is missing, gets
/// none.
pub open spec fn plan_step(
    d: DupV,
    tracks: Seq<(Seq<char>, Seq<NodeV>)>,
    prefixes: Seq<(Seq<char>, Seq<char>)>,
    floors: Seq<(Seq<char>, nat)>,
    tok: Seq<char>,
    pairs: Seq<(Seq<char>, Seq<char>)>,
    staged: Seq<(Seq<char>, nat)>,
) -> (Seq<(Seq<char>, Seq<char>)>, Seq<(Seq<char>, nat)>) {
    match lookup_v(prefixes, d.1) {
        None => (pairs, staged),
        Some(pfx) => match track_index_from(tracks, d.1, 0) {
            None => (pairs, staged),
            Some(k) => {
                let nodes = tracks[k].1;
                let parent: Option<(Seq<char>, TaskV)> = match d.2 {
                    Some(pid) => match find_in_track(nodes, pid) {
                        Some(pt) => Some((pid, pt)),
                        None => None,
                    },
                    None => None,
                };
                match parent {
                    Some((pid, pt)) => {
                        let scanned = bump(max_ns(pt.subtasks, child_stem(pid, tok)));
                        let number = max_nat(scanned, bump(nat_or_zero(lookup_v(staged, pid))));
                        (pairs.push((d.0, child_of_v(pid, number, tok))), seq![(pid, number)] + staged)
                    },
                    None => {
                        let fl = max_nat(nat_or_zero(lookup_v(floors, d.1)), max_num_track(nodes, stem(pfx, tok)));
                        let number = bump(max_nat(fl, staged_top(pairs, stem(pfx, tok))));
                        (pairs.push((d.0, with_number_v(pfx, number, tok))), staged)
                    },
                }
            },
        },
    }
}

/// The (old, new) pairs for the duplicates `dups[k..]`.
pub open spec fn plan_from(
    dups: Seq<DupV>,
    k: int,
    tracks: Seq<(Seq<char>, Seq<NodeV>)>,
    prefixes: Seq<(Seq<char>, Seq<char>)>,
    floors: Seq<(Seq<char>, nat)>,
    tok: Seq<char>,
    pairs: Seq<(Seq<char>, Seq<char>)>,
    staged: Seq<(Seq<char>, nat)>,
) -> Seq<(Seq<char>, Seq<char>)>
    decreases dups.len() - k,
{
    if k < 0 || k >= dups.len() {
        pairs
    } else {
        let a = plan_step(dups[k], tracks, prefixes, floors, tok, pairs, staged);
        plan_from(dups, k + 1, tracks, prefixes, floors, tok, a.0, a.1)
    }
}

fn staged_top_of(pairs: &Vec<(String, String)>, st: &str) -> (r: usize)
    ensures
        r as nat == staged_top(crate::task_tree::pairs_v(pairs@), st@),
{
    let ghost pv = crate::task_tree::pairs_v(pairs@);
    let mut m: usize = 0;
    let mut i: usize = 0;
    while i < pairs.len()
        invariant
            i <= pairs@.len(),
            pv == crate::task_tree::pairs_v(pairs@),
            m as nat == staged_top(pv.take(i as int), st@),
        decreases pairs.len() - i,
    {
        assert(pv.take(i + 1).drop_last() =~= pv.take(i as int));
        let n = match suffix_number_of(pairs[i].1.as_str(), st) {
            Some(n) => n,
            None => 0,
        };
        if n > m {
            m = n;
        }
        i += 1;
    }
    assert(pv.take(i as int) =~= pv);
    m
}

fn staged_for(staged: &Vec<(String, usize)>, pid: &str) -> (r: usize)
    ensures
        r as nat == nat_or_zero(lookup_v(floors_view(staged@), pid@)),
{
    let ghost sv = floors_view(staged@);
    let mut i: usize = 0;
    while i < staged.len()
        invariant
            i <= staged@.len(),
            sv == floors_view(staged@),
            lookup_v(sv, pid@) == lookup_from(sv, pid@, i as int),
        decreases staged.len() - i,
    {
        if str_eq(staged[i].0.as_str(), pid) {
            return staged[i].1;
        }
        i += 1;
    }
    0
}

fn bump_exec(m: usize) -> (r: usize)
    ensures
        r as nat == bump(m as nat),
{
    if m < usize::MAX { m + 1 } else { m }
}

fn plan_one(
    d: &Duplicate,
    tracks: &Vec<(String, Track)>,
    prefixes: &Vec<(String, String)>,
    floors: &Vec<(String, usize)>,
    tok: Option<&Token>,
    pairs: &mut Vec<(String, String)>,
    staged: &mut Vec<(String, usize)>,
)
    ensures
        (crate::task_tree::pairs_v(final(pairs)@), floors_view(final(staged)@)) == plan_step(dup_v(*d),
            crate::project::tracks_view(tracks@), crate::project::pairs_view(prefixes@), floors_view(floors@), tok_v(tok),
            crate::task_tree::pairs_v(old(pairs)@), floors_view(old(staged)@)),
{
    let ghost tv = crate::project::tracks_view(tracks@);
    let pfx = match crate::project::prefix_for(prefixes, d.track_id.as_str()) {
        Some(p) => p,
        None => {
            return;
        },
    };
    let k = match track_index(tracks, d.track_id.as_str()) {
        Some(k) => k,
        None => {
            return;
        },
    };
    let track = &tracks[k].1;
    assert(tv[k as int].1 == track@);
    let parent: Option<(&String, &Task)> = match &d.parent_id {
        Some(pid) => match crate::task_ops::find_task_in_track(track, pid.as_str()) {
            Some(pt) => Some((pid, pt)),
            None => None,
        },
        None => None,
    };
    match parent {
        Some((pid, pt)) => {
            let mut st = pid.clone();
            st.push('.');
            match tok {
                Some(t) => push_str(&mut st, t.as_str()),
                None => {
                    assert(st@ + Seq::<char>::empty() =~= st@);
                },
            }
            assert(tasks_v(pt.subtasks@) =~= pt@.subtasks);
            assert(st@ == child_stem(pid@, tok_v(tok)));
            let scanned = bump_exec(max_number(&pt.subtasks, st.as_str()));
            let slot = bump_exec(staged_for(staged, pid.as_str()));
            let number = if scanned > slot { scanned } else { slot };
            let ghost pb = pairs@;
            let ghost sb = staged@;
            let np = (d.old_id.clone(), child_of(pid.as_str(), number, tok));
            pairs.push(np);
            staged.insert(0, (pid.clone(), number));
            proof {
                assert(pairs@ == pb.push(np));
                assert(crate::task_tree::pairs_v(pairs@) =~= crate::task_tree::pairs_v(pb).push((np.0@, np.1@)));
                assert(floors_view(staged@) =~= seq![(pid@, number as nat)] + floors_view(sb));
            }
        },
        None => {
            let st = stem_of(pfx.as_str(), tok);
            let known = crate::project::floor_for(floors, d.track_id.as_str());
            let mut fl = known;
            crate::task_ops::find_max_id_in_track(track, st.as_str(), &mut fl);
            let staged_max = staged_top_of(pairs, st.as_str());
            let top = if fl > staged_max { fl } else { staged_max };
            let number = bump_exec(top);
            let ghost pb = pairs@;
            let np = (d.old_id.clone(), with_number(pfx.as_str(), number, tok));
            pairs.push(np);
            proof {
                assert(pairs@ == pb.push(np));
                assert(crate::task_tree::pairs_v(pairs@) =~= crate::task_tree::pairs_v(pb).push((np.0@, np.1@)));
                assert(floors@.map_values(|p: (String, usize)| (p.0@, p.1)).len() == floors_view(floors@).len());
                assert(nat_or_zero(lookup_v(floors_view(floors@), d.track_id@)) == known as nat) by {
                    lemma_lookup_floors(floors@, d.track_id@, 0);
                }
            }
        },
    }
}

proof fn lemma_lookup_floors(v: Seq<(String, usize)>, k: Seq<char>, i: int)
    requires
        0 <= i <= v.len(),
    ensures
        nat_or_zero(lookup_from(floors_view(v), k, i)) == match lookup_from(v.map_values(|p: (String, usize)| (p.0@, p.1)), k, i) {
            Some(n) => n as nat,
            None => 0,
        },
    decreases v.len() - i,
{
    if i < v.len() {
        lemma_lookup_floors(v, k, i + 1);
    }
}

fn plan_reassignments(
    dups: &Vec<Duplicate>,
    tracks: &Vec<(String, Track)>,
    prefixes: &Vec<(String, String)>,
    floors: &Vec<(String, usize)>,
    tok: Option<&Token>,
) -> (r: Vec<(String, String)>)
    ensures
        crate::task_tree::pairs_v(r@) == plan_from(dups_view(dups@), 0, crate::project::tracks_view(tracks@),
            crate::project::pairs_view(prefixes@), floors_view(floors@), tok_v(tok), Seq::empty(), Seq::empty()),
{
    let ghost dv = dups_view(dups@);
    let ghost whole = plan_from(dv, 0, crate::project::tracks_view(tracks@),
        crate::project::pairs_view(prefixes@), floors_view(floors@), tok_v(tok), Seq::empty(), Seq::empty());
    let mut pairs: Vec<(String, String)> = Vec::new();
    let mut staged: Vec<(String, usize)> = Vec::new();
    assert(crate::task_tree::pairs_v(pairs@) =~= Seq::empty());
    assert(floors_view(staged@) =~= Seq::empty());
    let mut k: usize = 0;
    while k < dups.len()
        invariant
            k <= dups@.len(),
            dv == dups_view(dups@),
            whole == plan_from(dv, k as int, crate::project::tracks_view(tracks@),
                crate::project::pairs_view(prefixes@), floors_view(floors@), tok_v(tok),
                crate::task_tree::pairs_v(pairs@), floors_view(staged@)),
        decreases dups.len() - k,
    {
        plan_one(&dups[k], tracks, prefixes, floors, tok, &mut pairs, &mut staged);
        k += 1;
    }
    pairs
}

// ---------------------------------------------------------------------------
// Duplicate IDs: applying the fresh ones
// ---------------------------------------------------------------------------

/// How often `x` occurs in `s`.
pub open spec fn count_of(s: Seq<Seq<char>>, x: Seq<char>) -> nat
    decreases s.len(),
{
    if s.len() == 0 {
        0
    } else {
        count_of(s.drop_last(), x) + if s.last() == x { 1nat } else { 0nat }
    }
}

/// Whether some pair has `x` as its old ID.
pub open spec fn is_key(pairs: Seq<(Seq<char>, Seq<char>)>, x: Seq<char>) -> bool {
    exists|k: int| 0 <= k < pairs.len() && (#[trigger] pairs[k]).0 == x
}

/// The new ID of the `n`-th pair (from 0) among `pairs[i..]` whose old ID is
/// `x`.
pub open spec fn nth_new(pairs: Seq<(Seq<char>, Seq<char>)>, x: Seq<char>, n: nat, i: int) -> Option<Seq<char>>
    decreases pairs.len() - i,
{
    if i < 0 || i >= pairs.len() {
        None
    } else if pairs[i].0 == x {
        if n == 0 {
            Some(pairs[i].1)
        } else {
            nth_new(pairs, x, (n - 1) as nat, i + 1)
        }
    } else {
        nth_new(pairs, x, n, i + 1)
    }
}

pub proof fn lemma_size_rekeyed(t: TaskV, nid: Seq<char>)
    ensures
        size(rekeyed(t, nid)) == size(t),
    decreases t, 0int,
{
    lemma_size_from_rekeyed(t.subtasks, nid, 0);
}

proof fn lemma_size_from_rekeyed(ts: Seq<TaskV>, pid: Seq<char>, i: int)
    requires
        0 <= i <= ts.len(),
    ensures
        size_from(rekey_children(ts, pid), i) == size_from(ts, i),
    decreases ts, ts.len() - i,
{
    if i < ts.len() {
        assert(decreases_to!(ts => ts[i]));
        lemma_size_rekeyed(ts[i], child_id(pid, (i + 1) as nat));
        lemma_size_from_rekeyed(ts, pid, i + 1);
    }
}

/// What visiting a task does, given the occurrences `occ` of reassigned IDs
/// visited before it: the first holder of such an ID keeps it; each later
/// holder takes the next fresh ID chosen for it, with its descendants
/// renumbered under that ID; then its children are visited. Also gives the
/// occurrences after it and the (old, new, title) of each reassignment.
pub open spec fn re_t(c: TaskV, pairs: Seq<(Seq<char>, Seq<char>)>, occ: Seq<Seq<char>>)
    -> (TaskV, Seq<Seq<char>>, Seq<(Seq<char>, Seq<char>, Seq<char>)>)
    decreases size(c), 0int,
{
    let step: (TaskV, Seq<Seq<char>>, Seq<(Seq<char>, Seq<char>, Seq<char>)>) = match c.id {
        Some(x) => if is_key(pairs, x) {
            if occ.contains(x) {
                match nth_new(pairs, x, (count_of(occ, x) - 1) as nat, 0) {
                    Some(y) => (rekeyed(c, y), occ.push(x), seq![(x, y, c.title)]),
                    None => (c, occ.push(x), Seq::empty()),
                }
            } else {
                (c, occ.push(x), Seq::empty())
            }
        } else {
            (c, occ, Seq::empty())
        },
        None => (c, occ, Seq::empty()),
    };
    proof {
        match c.id {
            Some(x) => {
                if is_key(pairs, x) && occ.contains(x) {
                    match nth_new(pairs, x, (count_of(occ, x) - 1) as nat, 0) {
                        Some(y) => lemma_size_rekeyed(c, y),
                        None => {},
                    }
                }
            },
            None => {},
        }
    }
    let r = re_l(step.0.subtasks, 0, pairs, step.1);
    (TaskV { subtasks: r.0, ..step.0 }, r.1, step.2 + r.2)
}

pub open spec fn re_l(ts: Seq<TaskV>, i: int, pairs: Seq<(Seq<char>, Seq<char>)>, occ: Seq<Seq<char>>)
    -> (Seq<TaskV>, Seq<Seq<char>>, Seq<(Seq<char>, Seq<char>, Seq<char>)>)
    decreases size_from(ts, i), 1int,
{
    if i < 0 || i >= ts.len() {
        (Seq::empty(), occ, Seq::empty())
    } else {
        let a = re_t(ts[i], pairs, occ);
        proof {
            assert(size(ts[i]) >= 1);
        }
        let b = re_l(ts, i + 1, pairs, a.1);
        (seq![a.0] + b.0, b.1, a.2 + b.2)
    }
}

pub open spec fn re_nodes(nodes: Seq<NodeV>, i: int, pairs: Seq<(Seq<char>, Seq<char>)>, occ: Seq<Seq<char>>)
    -> (Seq<NodeV>, Seq<Seq<char>>, Seq<(Seq<char>, Seq<char>, Seq<char>)>)
    decreases nodes.len() - i,
{
    if i < 0 || i >= nodes.len() {
        (Seq::empty(), occ, Seq::empty())
    } else {
        let a = re_l(node_tasks(nodes[i]), 0, pairs, occ);
        let b = re_nodes(nodes, i + 1, pairs, a.1);
        (seq![with_tasks(nodes[i], a.0)] + b.0, b.1, a.2 + b.2)
    }
}

/// The tracks after visiting them in configured order (`order[j..]`): the
/// tracks, and the (track, old, new, title) of each reassignment.
pub open spec fn re_order(
    order: Seq<Seq<char>>,
    j: int,
    tracks: Seq<(Seq<char>, Seq<NodeV>)>,
    pairs: Seq<(Seq<char>, Seq<char>)>,
    occ: Seq<Seq<char>>,
) -> (Seq<(Seq<char>, Seq<NodeV>)>, Seq<(Seq<char>, Seq<char>, Seq<char>, Seq<char>)>)
    decreases order.len() - j,
{
    if j < 0 || j >= order.len() {
        (tracks, Seq::empty())
    } else {
        match track_index_from(tracks, order[j], 0) {
            Some(k) => {
                let a = re_nodes(tracks[k].1, 0, pairs, occ);
                let b = re_order(order, j + 1, tracks.update(k, (tracks[k].0, a.0)), pairs, a.1);
                (b.0, with_track3(order[j], a.2) + b.1)
            },
            None => re_order(order, j + 1, tracks, pairs, occ),
        }
    }
}

pub open spec fn dup_rows(v: Seq<DuplicateResolution>) -> Seq<(Seq<char>, Seq<char>, Seq<char>, Seq<char>)> {
    v.map_values(|d: DuplicateResolution| (d.track_id@, d.original_id@, d.new_id@, d.title@))
}

fn is_key_exec(pairs: &Vec<(String, String)>, x: &str) -> (r: bool)
    ensures
        r == is_key(crate::task_tree::pairs_v(pairs@), x@),
{
    let ghost pv = crate::task_tree::pairs_v(pairs@);
    let mut i: usize = 0;
    while i < pairs.len()
        invariant
            i <= pairs@.len(),
            pv == crate::task_tree::pairs_v(pairs@),
            forall|k: int| 0 <= k < i ==> (#[trigger] pv[k]).0 != x@,
        decreases pairs.len() - i,
    {
        if str_eq(pairs[i].0.as_str(), x) {
            assert(pv[i as int].0 == x@);
            return true;
        }
        i += 1;
    }
    false
}

fn count_exec(s: &Vec<String>, x: &str) -> (r: usize)
    ensures
        r as nat == count_of(strs_v(s@), x@),
{
    let ghost sv = strs_v(s@);
    let mut n: usize = 0;
    let mut i: usize = 0;
    while i < s.len()
        invariant
            i <= s@.len(),
            sv == strs_v(s@),
            n as nat == count_of(sv.take(i as int), x@),
            n <= i,
        decreases s.len() - i,
    {
        assert(sv.take(i + 1).drop_last() =~= sv.take(i as int));
        if str_eq(s[i].as_str(), x) {
            n += 1;
        }
        i += 1;
    }
    assert(sv.take(i as int) =~= sv);
    n
}

fn nth_new_exec(pairs: &Vec<(String, String)>, x: &str, n: usize) -> (r: Option<String>)
    ensures
        opt_str(r) == nth_new(crate::task_tree::pairs_v(pairs@), x@, n as nat, 0),
{
    let ghost pv = crate::task_tree::pairs_v(pairs@);
    let mut left = n;
    let mut i: usize = 0;
    while i < pairs.len()
        invariant
            i <= pairs@.len(),
            pv == crate::task_tree::pairs_v(pairs@),
            nth_new(pv, x@, n as nat, 0) == nth_new(pv, x@, left as nat, i as int),
        decreases pairs.len() - i,
    {
        if str_eq(pairs[i].0.as_str(), x) {
            if left == 0 {
                return Some(pairs[i].1.clone());
            }
            left = left - 1;
        }
        i += 1;
    }
    None
}

proof fn lemma_count_pos(s: Seq<Seq<char>>, x: Seq<char>)
    requires
        s.contains(x),
    ensures
        count_of(s, x) >= 1,
    decreases s.len(),
{
    if s.last() != x {
        let k = choose|k: int| 0 <= k < s.len() && s[k] == x;
        assert(s.drop_last()[k] == x);
        lemma_count_pos(s.drop_last(), x);
    }
}

fn re_task(task: &mut Task, pairs: &Vec<(String, String)>, occ: &mut Vec<String>, track_id: &str, out: &mut Vec<DuplicateResolution>)
    ensures
        final(task)@ == re_t(old(task)@, crate::task_tree::pairs_v(pairs@), strs_v(old(occ)@)).0,
        strs_v(final(occ)@) == re_t(old(task)@, crate::task_tree::pairs_v(pairs@), strs_v(old(occ)@)).1,
        dup_rows(final(out)@) == dup_rows(old(out)@)
            + with_track3(track_id@, re_t(old(task)@, crate::task_tree::pairs_v(pairs@), strs_v(old(occ)@)).2),
    decreases size(old(task)@), 0int,
{
    let ghost c = task@;
    let ghost pv = crate::task_tree::pairs_v(pairs@);
    let ghost occ0 = strs_v(occ@);
    let ghost o0 = dup_rows(out@);
    let ghost step: (TaskV, Seq<Seq<char>>, Seq<(Seq<char>, Seq<char>, Seq<char>)>) = match c.id {
        Some(x) => if is_key(pv, x) {
            if occ0.contains(x) {
                match nth_new(pv, x, (count_of(occ0, x) - 1) as nat, 0) {
                    Some(y) => (rekeyed(c, y), occ0.push(x), seq![(x, y, c.title)]),
                    None => (c, occ0.push(x), Seq::empty()),
                }
            } else {
                (c, occ0.push(x), Seq::empty())
            }
        } else {
            (c, occ0, Seq::empty())
        },
        None => (c, occ0, Seq::empty()),
    };
    let cur: Option<String> = clone_opt(&task.id);
    match cur {
        Some(x) => {
            if is_key_exec(pairs, x.as_str()) {
                let seen_before = string_in(occ, x.as_str());
                let ghost ob = occ@;
                occ.push(x.clone());
                assert(strs_v(occ@) =~= strs_v(ob).push(x@));
                if seen_before {
                    let n = count_exec(occ, x.as_str());
                    proof {
                        assert(strs_v(occ@).drop_last() =~= occ0);
                        lemma_count_pos(occ0, x@);
                    }
                    match nth_new_exec(pairs, x.as_str(), n - 2) {
                        Some(y) => {
                            let ghost outb = out@;
                            let row = DuplicateResolution {
                                track_id: String::from_str(track_id),
                                original_id: x.clone(),
                                new_id: y.clone(),
                                title: task.title.clone(),
                            };
                            out.push(row);
                            assert(out@ == outb.push(row));
                            assert(dup_rows(out@) =~= dup_rows(outb).push((track_id@, x@, y@, c.title)));
                            let _ = crate::task_tree::rekey_subtree(task, y.as_str());
                        },
                        None => {},
                    }
                }
            }
        },
        None => {},
    }
    assert(task@ == step.0);
    assert(strs_v(occ@) == step.1);
    assert(dup_rows(out@) =~= o0 + with_track3(track_id@, step.2));
    proof {
        match c.id {
            Some(x) => {
                if is_key(pv, x) && occ0.contains(x) {
                    match nth_new(pv, x, (count_of(occ0, x) - 1) as nat, 0) {
                        Some(y) => lemma_size_rekeyed(c, y),
                        None => {},
                    }
                }
            },
            None => {},
        }
    }
    assert(tasks_v(task.subtasks@) =~= step.0.subtasks);
    let ghost mid_out = dup_rows(out@);
    re_list(&mut task.subtasks, pairs, occ, track_id, out);
    assert(task@.subtasks =~= tasks_v(task.subtasks@));
    proof {
        let r = re_l(step.0.subtasks, 0, pv, step.1);
        assert(re_t(c, pv, occ0) == (TaskV { subtasks: r.0, ..step.0 }, r.1, step.2 + r.2));
        assert(with_track3(track_id@, step.2 + r.2) =~= with_track3(track_id@, step.2) + with_track3(track_id@, r.2));
    }
}

fn re_list(tasks: &mut Vec<Task>, pairs: &Vec<(String, String)>, occ: &mut Vec<String>, track_id: &str, out: &mut Vec<DuplicateResolution>)
    ensures
        tasks_v(final(tasks)@) == re_l(tasks_v(old(tasks)@), 0, crate::task_tree::pairs_v(pairs@), strs_v(old(occ)@)).0,
        strs_v(final(occ)@) == re_l(tasks_v(old(tasks)@), 0, crate::task_tree::pairs_v(pairs@), strs_v(old(occ)@)).1,
        dup_rows(final(out)@) == dup_rows(old(out)@)
            + with_track3(track_id@, re_l(tasks_v(old(tasks)@), 0, crate::task_tree::pairs_v(pairs@), strs_v(old(occ)@)).2),
    decreases size_from(tasks_v(old(tasks)@), 0), 1int,
{
    let ghost ts = tasks_v(tasks@);
    let ghost pv = crate::task_tree::pairs_v(pairs@);
    let ghost whole = re_l(ts, 0, pv, strs_v(occ@));
    let ghost out0 = dup_rows(out@);
    let mut i: usize = 0;
    while i < tasks.len()
        invariant
            i <= tasks@.len(),
            tasks@.len() == ts.len(),
            ts == tasks_v(old(tasks)@),
            pv == crate::task_tree::pairs_v(pairs@),
            forall|k: int| i <= k < ts.len() ==> tasks_v(tasks@)[k] == ts[k],
            whole.0 == tasks_v(tasks@).take(i as int) + re_l(ts, i as int, pv, strs_v(occ@)).0,
            whole.1 == re_l(ts, i as int, pv, strs_v(occ@)).1,
            out0 + with_track3(track_id@, whole.2) == dup_rows(out@) + with_track3(track_id@, re_l(ts, i as int, pv, strs_v(occ@)).2),
        decreases tasks@.len() - i,
    {
        let ghost before = tasks@;
        let ghost ob = strs_v(occ@);
        let mut t = tasks.remove(i);
        assert(t@ == ts[i as int]);
        proof {
            crate::reconcile::lemma_size_elem(ts, 0, i as int);
        }
        re_task(&mut t, pairs, occ, track_id, out);
        tasks.insert(i, t);
        proof {
            let a = re_t(ts[i as int], pv, ob);
            assert(tasks@ =~= before.update(i as int, t));
            assert(tasks_v(tasks@).take(i + 1) =~= tasks_v(before).take(i as int).push(a.0));
            assert(re_l(ts, i as int, pv, ob).0 =~= seq![a.0] + re_l(ts, i + 1, pv, a.1).0);
            assert(whole.0 =~= tasks_v(tasks@).take(i + 1) + re_l(ts, i + 1, pv, strs_v(occ@)).0);
            assert(with_track3(track_id@, re_l(ts, i as int, pv, ob).2)
                =~= with_track3(track_id@, a.2) + with_track3(track_id@, re_l(ts, i + 1, pv, a.1).2));
            assert forall|k: int| i + 1 <= k < ts.len() implies tasks_v(tasks@)[k] == ts[k] by {
                assert(tasks_v(tasks@)[k] == tasks_v(before)[k]);
            }
        }
        i += 1;
    }
    assert(tasks_v(tasks@).take(i as int) =~= tasks_v(tasks@));
    assert(whole.0 =~= tasks_v(tasks@));
    assert(dup_rows(out@) =~= dup_rows(out@) + with_track3(track_id@, Seq::<(Seq<char>, Seq<char>, Seq<char>)>::empty()));
}

fn re_track(track: &mut Track, pairs: &Vec<(String, String)>, occ: &mut Vec<String>, track_id: &str, out: &mut Vec<DuplicateResolution>)
    ensures
        final(track)@ == re_nodes(old(track)@, 0, crate::task_tree::pairs_v(pairs@), strs_v(old(occ)@)).0,
        strs_v(final(occ)@) == re_nodes(old(track)@, 0, crate::task_tree::pairs_v(pairs@), strs_v(old(occ)@)).1,
        dup_rows(final(out)@) == dup_rows(old(out)@)
            + with_track3(track_id@, re_nodes(old(track)@, 0, crate::task_tree::pairs_v(pairs@), strs_v(old(occ)@)).2),
{
    let ghost nv = track@;
    let ghost pv = crate::task_tree::pairs_v(pairs@);
    let ghost whole = re_nodes(nv, 0, pv, strs_v(occ@));
    let ghost out0 = dup_rows(out@);
    let mut i: usize = 0;
    while i < track.nodes.len()
        invariant
            i <= track.nodes@.len(),
            track@.len() == nv.len(),
            track.nodes@.len() == nv.len(),
            pv == crate::task_tree::pairs_v(pairs@),
            forall|k: int| i <= k < nv.len() ==> track@[k] == nv[k],
            whole.0 == track@.take(i as int) + re_nodes(nv, i as int, pv, strs_v(occ@)).0,
            whole.1 == re_nodes(nv, i as int, pv, strs_v(occ@)).1,
            out0 + with_track3(track_id@, whole.2) == dup_rows(out@) + with_track3(track_id@, re_nodes(nv, i as int, pv, strs_v(occ@)).2),
        decreases track.nodes.len() - i,
    {
        let ghost before = track@;
        let ghost ob = strs_v(occ@);
        let is_section = match &track.nodes[i] {
            TrackNode::Section { .. } => true,
            TrackNode::Literal(_) => false,
        };
        if is_section {
            let mut tasks = track.swap_section_tasks(i, Vec::new());
            re_list(&mut tasks, pairs, occ, track_id, out);
            assert(track@.len() == track.nodes@.len());
            let _ = track.swap_section_tasks(i, tasks);
            proof {
                let nd = nv[i as int];
                assert(with_tasks(with_tasks(nd, Seq::empty()), tasks_v(tasks@)) == with_tasks(nd, tasks_v(tasks@)));
                assert(track@ =~= before.update(i as int, with_tasks(nd, tasks_v(tasks@))));
            }
        } else {
            proof {
                assert(node_tasks(nv[i as int]) =~= Seq::empty());
                assert(with_tasks(nv[i as int], Seq::empty()) == nv[i as int]);
            }
        }
        proof {
            let a = re_l(node_tasks(nv[i as int]), 0, pv, ob);
            assert(track@.take(i + 1) =~= before.take(i as int).push(with_tasks(nv[i as int], a.0)));
            assert(whole.0 =~= track@.take(i + 1) + re_nodes(nv, i + 1, pv, strs_v(occ@)).0);
            assert(with_track3(track_id@, re_nodes(nv, i as int, pv, ob).2)
                =~= with_track3(track_id@, a.2) + with_track3(track_id@, re_nodes(nv, i + 1, pv, a.1).2));
            assert forall|k: int| i + 1 <= k < nv.len() implies track@[k] == nv[k] by {
                assert(track@[k] == before[k]);
            }
        }
        i += 1;
    }
    assert(track@.take(i as int) =~= track@);
    assert(whole.0 =~= track@);
    assert(dup_rows(out@) =~= dup_rows(out@) + with_track3(track_id@, Seq::<(Seq<char>, Seq<char>, Seq<char>)>::empty()));
}

fn re_all(order: &Vec<String>, tracks: &mut Vec<(String, Track)>, pairs: &Vec<(String, String)>, out: &mut Vec<DuplicateResolution>)
    ensures
        crate::project::tracks_view(final(tracks)@) == re_order(strs_v(order@), 0, crate::project::tracks_view(old(tracks)@),
            crate::task_tree::pairs_v(pairs@), Seq::empty()).0,
        dup_rows(final(out)@) == dup_rows(old(out)@) + re_order(strs_v(order@), 0, crate::project::tracks_view(old(tracks)@),
            crate::task_tree::pairs_v(pairs@), Seq::empty()).1,
{
    let ghost ov = strs_v(order@);
    let ghost pv = crate::task_tree::pairs_v(pairs@);
    let ghost whole = re_order(ov, 0, crate::project::tracks_view(tracks@), pv, Seq::empty());
    let ghost out0 = dup_rows(out@);
    let mut occ: Vec<String> = Vec::new();
    assert(strs_v(occ@) =~= Seq::<Seq<char>>::empty());
    let mut j: usize = 0;
    while j < order.len()
        invariant
            j <= order@.len(),
            ov == strs_v(order@),
            pv == crate::task_tree::pairs_v(pairs@),
            whole.0 == re_order(ov, j as int, crate::project::tracks_view(tracks@), pv, strs_v(occ@)).0,
            out0 + whole.1 == dup_rows(out@) + re_order(ov, j as int, crate::project::tracks_view(tracks@), pv, strs_v(occ@)).1,
        decreases order.len() - j,
    {
        let ghost tb = crate::project::tracks_view(tracks@);
        let ghost ob = strs_v(occ@);
        let ghost outb = dup_rows(out@);
        match track_index(tracks, order[j].as_str()) {
            Some(k) => {
                let (tid, mut tr) = tracks.remove(k);
                assert(tr@ == tb[k as int].1);
                re_track(&mut tr, pairs, &mut occ, order[j].as_str(), out);
                let ghost trv = tr@;
                let ghost tidv = tid@;
                tracks.insert(k, (tid, tr));
                proof {
                    assert(crate::project::tracks_view(tracks@) =~= tb.update(k as int, (tb[k as int].0, trv)));
                    let a = re_nodes(tb[k as int].1, 0, pv, ob);
                    assert(re_order(ov, j as int, tb, pv, ob).1 == with_track3(ov[j as int], a.2)
                        + re_order(ov, j + 1, tb.update(k as int, (tb[k as int].0, a.0)), pv, a.1).1);
                }
            },
            None => {},
        }
        j += 1;
    }
    assert(dup_rows(out@) =~= dup_rows(out@) + Seq::<(Seq<char>, Seq<char>, Seq<char>, Seq<char>)>::empty());
}

/// What resolving duplicate IDs does to a project's tracks: the first holder
/// of each ID, walking tracks in configured order and each in file order,
/// keeps it; every later holder is given a fresh ID (see [`plan_step`]) with
/// its descendants renumbered under it. Also gives the (track, old, new,
/// title) of each reassignment.
pub open spec fn dups_resolved(
    tracks: Seq<(Seq<char>, Seq<NodeV>)>,
    order: Seq<Seq<char>>,
    prefixes: Seq<(Seq<char>, Seq<char>)>,
    floors: Seq<(Seq<char>, nat)>,
    tok: Seq<char>,
) -> (Seq<(Seq<char>, Seq<NodeV>)>, Seq<(Seq<char>, Seq<char>, Seq<char>, Seq<char>)>) {
    let dups = dups_order(order, 0, tracks, Seq::empty()).0;
    if dups.len() == 0 {
        (tracks, Seq::empty())
    } else {
        re_order(order, 0, tracks, plan_from(dups, 0, tracks, prefixes, floors, tok, Seq::empty(), Seq::empty()), Seq::empty())
    }
}

/// Give every later holder of a duplicated ID a fresh one in the namespace
/// of `token` (see [`dups_resolved`]).
pub fn resolve_duplicate_ids(
    tracks: &mut Vec<(String, Track)>,
    order: &Vec<String>,
    prefixes: &Vec<(String, String)>,
    floors: &Vec<(String, usize)>,
    token: Option<&Token>,
    out: &mut Vec<DuplicateResolution>,
)
    ensures
        crate::project::tracks_view(final(tracks)@) == dups_resolved(crate::project::tracks_view(old(tracks)@), strs_v(order@),
            crate::project::pairs_view(prefixes@), floors_view(floors@), tok_v(token)).0,
        dup_rows(final(out)@) == dup_rows(old(out)@) + dups_resolved(crate::project::tracks_view(old(tracks)@), strs_v(order@),
            crate::project::pairs_view(prefixes@), floors_view(floors@), tok_v(token)).1,
{
    let dups = find_duplicates(tracks, order);
    if dups.len() == 0 {
        assert(dup_rows(out@) =~= dup_rows(out@) + Seq::<(Seq<char>, Seq<char>, Seq<char>, Seq<char>)>::empty());
        return;
    }
    let pairs = plan_reassignments(&dups, tracks, prefixes, floors, token);
    re_all(order, tracks, &pairs, out);
}

// ---------------------------------------------------------------------------
// Putting misplaced tasks in their sections
// ---------------------------------------------------------------------------

/// The section a task's state belongs in: done tasks in Done, parked ones in
/// Parked, the rest in the backlog.
pub open spec fn canonical_v(s: TaskState) -> SectionKind {
    match s {
        TaskState::Done => SectionKind::Done,
        TaskState::Parked => SectionKind::Parked,
        _ => SectionKind::Backlog,
    }
}

/// The section a task's state belongs in (see [`canonical_v`]).
pub fn canonical_section(s: TaskState) -> (r: SectionKind)
    ensures
        r == canonical_v(s),
{
    match s {
        TaskState::Done => SectionKind::Done,
        TaskState::Parked => SectionKind::Parked,
        _ => SectionKind::Backlog,
    }
}

/// A move: (task ID, from section, to section).
pub type MoveV = (Seq<char>, SectionKind, SectionKind);

/// The moves the top-level tasks of a section of `kind` call for, in order:
/// each task with an ID whose state belongs elsewhere.
pub open spec fn moves_in(ts: Seq<TaskV>, kind: SectionKind) -> Seq<MoveV>
    decreases ts.len(),
{
    if ts.len() == 0 {
        Seq::empty()
    } else {
        let t = ts.last();
        moves_in(ts.drop_last(), kind) + if canonical_v(t.state) != kind && t.id is Some {
            seq![(t.id->0, kind, canonical_v(t.state))]
        } else {
            Seq::empty()
        }
    }
}

pub open spec fn moves_nodes(nodes: Seq<NodeV>, i: int) -> Seq<MoveV>
    decreases nodes.len() - i,
{
    if i < 0 || i >= nodes.len() {
        Seq::empty()
    } else {
        match nodes[i] {
            NodeV::Section { kind, tasks, .. } => moves_in(tasks, kind) + moves_nodes(nodes, i + 1),
            NodeV::Literal(_) => moves_nodes(nodes, i + 1),
        }
    }
}

/// A track after [`move_task_between_sections`] (see
/// [`section_move_post`]).
pub open spec fn moved_v(old: Seq<NodeV>, id: Seq<char>, from: SectionKind, to: SectionKind) -> Seq<NodeV> {
    let src = section_tasks_v(old, from);
    if section_pos(old, from) is None {
        old
    } else {
        match child_pos_from(src, id, 0) {
            None => old,
            Some(k) => {
                let mid = ensured_v(set_section(old, from, src.remove(k)), to);
                set_section(mid, to, section_tasks_v(mid, to).insert(0, src[k]))
            },
        }
    }
}

/// A track after the moves `ms[k..]`, one after another.
pub open spec fn moves_applied(nodes: Seq<NodeV>, ms: Seq<MoveV>, k: int) -> Seq<NodeV>
    decreases ms.len() - k,
{
    if k < 0 || k >= ms.len() {
        nodes
    } else {
        moves_applied(moved_v(nodes, ms[k].0, ms[k].1, ms[k].2), ms, k + 1)
    }
}

pub open spec fn reconcile_rows(v: Seq<SectionReconcile>) -> Seq<(Seq<char>, Seq<char>, SectionKind, SectionKind)> {
    v.map_values(|r: SectionReconcile| (r.track_id@, r.task_id@, r.from, r.to))
}

fn moves_of(track: &Track) -> (r: Vec<(String, SectionKind, SectionKind)>)
    ensures
        r@.map_values(|m: (String, SectionKind, SectionKind)| (m.0@, m.1, m.2)) == moves_nodes(track@, 0),
{
    let mut out: Vec<(String, SectionKind, SectionKind)> = Vec::new();
    let mut i: usize = 0;
    while i < track.nodes.len()
        invariant
            i <= track.nodes@.len(),
            out@.map_values(|m: (String, SectionKind, SectionKind)| (m.0@, m.1, m.2)) + moves_nodes(track@, i as int)
                == moves_nodes(track@, 0),
        decreases track.nodes.len() - i,
    {
        let ghost ob = out@.map_values(|m: (String, SectionKind, SectionKind)| (m.0@, m.1, m.2));
        match &track.nodes[i] {
            TrackNode::Section { kind, tasks, .. } => {
                let ghost tv = tasks_v(tasks@);
                let mut j: usize = 0;
                while j < tasks.len()
                    invariant
                        j <= tasks@.len(),
                        tv == tasks_v(tasks@),
                        out@.map_values(|m: (String, SectionKind, SectionKind)| (m.0@, m.1, m.2)) == ob + moves_in(tv.take(j as int), *kind),
                    decreases tasks.len() - j,
                {
                    assert(tv.take(j + 1).drop_last() =~= tv.take(j as int));
                    assert(tv[j as int] == tasks@[j as int]@);
                    let target = canonical_section(tasks[j].state);
                    if target != *kind {
                        match &tasks[j].id {
                            Some(id) => {
                                let ghost b = out@;
                                let m = (id.clone(), *kind, target);
                                out.push(m);
                                assert(out@ == b.push(m));
                                assert(out@.map_values(|m: (String, SectionKind, SectionKind)| (m.0@, m.1, m.2))
                                    =~= b.map_values(|m: (String, SectionKind, SectionKind)| (m.0@, m.1, m.2)).push((id@, *kind, target)));
                            },
                            None => {},
                        }
                    }
                    j += 1;
                    assert(out@.map_values(|m: (String, SectionKind, SectionKind)| (m.0@, m.1, m.2)) =~= ob + moves_in(tv.take(j as int), *kind));
                }
                assert(tv.take(j as int) =~= tv);
            },
            TrackNode::Literal(_) => {},
        }
        i += 1;
    }
    out
}

/// Move each top-level task that sits in a section its state does not
/// belong in to the top of the one it does, in file order. Whether any
/// moved.
pub fn reconcile_sections_for_track(track: &mut Track, track_id: &str, out: &mut Vec<SectionReconcile>) -> (r: bool)
    ensures
        final(track)@ == moves_applied(old(track)@, moves_nodes(old(track)@, 0), 0),
        reconcile_rows(final(out)@) == reconcile_rows(old(out)@) + moves_nodes(old(track)@, 0).map_values(
            |m: MoveV| (track_id@, m.0, m.1, m.2)),
        r == (moves_nodes(old(track)@, 0).len() > 0),
{
    let moves = moves_of(track);
    let ghost ms = moves_nodes(track@, 0);
    let ghost nv = track@;
    let ghost o0 = reconcile_rows(out@);
    if moves.len() == 0 {
        assert(reconcile_rows(out@) =~= o0 + ms.map_values(|m: MoveV| (track_id@, m.0, m.1, m.2)));
        return false;
    }
    let mut k: usize = 0;
    while k < moves.len()
        invariant
            k <= moves@.len(),
            moves@.map_values(|m: (String, SectionKind, SectionKind)| (m.0@, m.1, m.2)) == ms,
            moves_applied(nv, ms, 0) == moves_applied(track@, ms, k as int),
            reconcile_rows(out@) == o0 + ms.take(k as int).map_values(|m: MoveV| (track_id@, m.0, m.1, m.2)),
        decreases moves.len() - k,
    {
        let ghost tb = track@;
        let ghost ob = out@;
        assert(ms[k as int] == (moves@[k as int].0@, moves@[k as int].1, moves@[k as int].2));
        let _ = crate::task_tree::move_task_between_sections(track, moves[k].0.as_str(), moves[k].1, moves[k].2);
        assert(track@ == moved_v(tb, ms[k as int].0, ms[k as int].1, ms[k as int].2));
        let row = SectionReconcile { track_id: String::from_str(track_id), task_id: moves[k].0.clone(), from: moves[k].1, to: moves[k].2 };
        out.push(row);
        proof {
            assert(out@ == ob.push(row));
            assert(reconcile_rows(out@) =~= reconcile_rows(ob).push((track_id@, ms[k as int].0, ms[k as int].1, ms[k as int].2)));
            assert(ms.take(k + 1) =~= ms.take(k as int).push(ms[k as int]));
            assert(reconcile_rows(out@) =~= o0 + ms.take(k + 1).map_values(|m: MoveV| (track_id@, m.0, m.1, m.2)));
        }
        k += 1;
    }
    assert(ms.take(k as int) =~= ms);
    true
}

// ---------------------------------------------------------------------------
// Archiving done tasks
// ---------------------------------------------------------------------------

/// A set of task IDs, each held once.
#[derive(Debug)]
pub struct IdSet {
    ids: Vec<String>,
}

impl IdSet {
    #[verifier::type_invariant]
    spec fn held_once(self) -> bool {
        strs_v(self.ids@).no_duplicates()
    }

    pub closed spec fn ids_v(self) -> Seq<Seq<char>> {
        strs_v(self.ids@)
    }

    /// The IDs held.
    pub open spec fn set_v(self) -> Set<Seq<char>> {
        self.ids_v().to_set()
    }

    /// Whether the set holds `id`.
    pub fn contains(&self, id: &str) -> (r: bool)
        ensures
            r == self.set_v().contains(id@),
    {
        string_in(&self.ids, id)
    }

    /// How many IDs the set holds.
    pub fn len(&self) -> (r: usize)
        ensures
            r as nat == self.set_v().len(),
    {
        proof {
            use_type_invariant(self);
            self.ids_v().unique_seq_to_set();
            assert(self.ids_v().len() == self.ids@.len());
        }
        self.ids.len()
    }
}

/// The ID a task line of an archive names: on a line that, past leading
/// whitespace, starts with `- [`, the text between its first two backticks
/// when that is not empty.
pub open spec fn line_id(l: Seq<char>) -> Option<Seq<char>> {
    let t = l.subrange(ws_prefix(l), l.len() as int);
    if starts_with(t, seq!['-', ' ', '[']) {
        match find_char_from(t, '`', 0) {
            Some(a) => match find_char_from(t, '`', a + 1) {
                Some(b) => if b > a + 1 { Some(t.subrange(a + 1, b)) } else { None },
                None => None,
            },
            None => None,
        }
    } else {
        None
    }
}

/// The IDs the task lines of an archive text name.
pub open spec fn archived_ids_v(text: Seq<char>) -> Set<Seq<char>> {
    Set::new(|x: Seq<char>| exists|k: int| 0 <= k < lines_v(text).len() && line_id(#[trigger] lines_v(text)[k]) == Some(x))
}

fn line_id_of(l: &Vec<char>) -> (r: Option<String>)
    ensures
        opt_str(r) == line_id(l@),
{
    let w = ws_prefix_len(l.as_slice());
    proof { crate::text::lemma_ws_prefix(l@); }
    let t: Vec<char> = chars_of(substring(l.as_slice(), w, l.len()).as_str());
    let dash = chars_of("- [");
    proof { reveal_strlit("- ["); }
    assert(dash@ =~= seq!['-', ' ', '[']);
    if !seq_starts_with(&t, &dash) {
        return None;
    }
    proof { lemma_find_char_from(t@, '`', 0); }
    let a = match find_char(&t, '`', 0) {
        Some(a) => a,
        None => {
            return None;
        },
    };
    proof { lemma_find_char_from(t@, '`', a + 1); }
    let b = match find_char(&t, '`', a + 1) {
        Some(b) => b,
        None => {
            return None;
        },
    };
    if b > a + 1 {
        Some(substring(&t, a + 1, b))
    } else {
        None
    }
}

/// The IDs an archive already holds, read straight from its task lines.
pub fn archived_task_ids(existing: &str) -> (r: IdSet)
    ensures
        r.set_v() == archived_ids_v(existing@),
{
    let (lines, _crlf) = split_lines(existing);
    let ghost lv = lines_v(existing@);
    assert(lines@.len() == lv.len());
    let mut ids: Vec<String> = Vec::new();
    let mut i: usize = 0;
    while i < lines.len()
        invariant
            i <= lines@.len(),
            lines@.len() == lv.len(),
            lv == lines_v(existing@),
            forall|k: int| 0 <= k < lines@.len() ==> #[trigger] lines@[k]@ == lv[k],
            strs_v(ids@).no_duplicates(),
            forall|x: Seq<char>| strs_v(ids@).contains(x) <==> exists|k: int| 0 <= k < i && line_id(#[trigger] lv[k]) == Some(x),
        decreases lines.len() - i,
    {
        let ghost ib = strs_v(ids@);
        match line_id_of(&lines[i]) {
            Some(x) => {
                if !string_in(&ids, x.as_str()) {
                    let ghost b = ids@;
                    ids.push(x);
                    assert(strs_v(ids@) =~= strs_v(b).push(x@));
                }
                proof {
                    assert forall|y: Seq<char>| strs_v(ids@).contains(y) <==> exists|k: int| 0 <= k < i + 1 && line_id(#[trigger] lv[k]) == Some(y) by {
                        if strs_v(ids@).contains(y) && !ib.contains(y) {
                            assert(line_id(lv[i as int]) == Some(y));
                        }
                        if exists|k: int| 0 <= k < i + 1 && line_id(#[trigger] lv[k]) == Some(y) {
                            let k = choose|k: int| 0 <= k < i + 1 && line_id(#[trigger] lv[k]) == Some(y);
                            if k < i {
                                assert(ib.contains(y));
                                let m = choose|m: int| 0 <= m < ib.len() && ib[m] == y;
                                assert(strs_v(ids@)[m] == y);
                            } else {
                                assert(y == x@);
                                if ib.contains(y) {
                                    let m = choose|m: int| 0 <= m < ib.len() && ib[m] == y;
                                    assert(strs_v(ids@)[m] == y);
                                } else {
                                    assert(strs_v(ids@)[strs_v(ids@).len() - 1] == y);
                                }
                            }
                        }
                    }
                }
            },
            None => {
                proof {
                    assert forall|y: Seq<char>| strs_v(ids@).contains(y) <==> exists|k: int| 0 <= k < i + 1 && line_id(#[trigger] lv[k]) == Some(y) by {
                        if exists|k: int| 0 <= k < i + 1 && line_id(#[trigger] lv[k]) == Some(y) {
                            let k = choose|k: int| 0 <= k < i + 1 && line_id(#[trigger] lv[k]) == Some(y);
                            assert(k < i);
                        }
                    }
                }
            },
        }
        i += 1;
    }
    let r = IdSet { ids };
    assert(r.set_v() =~= archived_ids_v(existing@));
    r
}

/// The first `resolved:` date of a task's metadata, empty when it has none.
pub open spec fn resolved_date(ms: Seq<MetaV>) -> Seq<char>
    decreases ms.len(),
{
    if ms.len() == 0 {
        Seq::empty()
    } else {
        match ms[0] {
            MetaV::Resolved(d) => d,
            _ => resolved_date(ms.drop_first()),
        }
    }
}

/// Whether `a` comes after `b` in character order.
pub open spec fn seq_gt(a: Seq<char>, b: Seq<char>) -> bool
    decreases a.len(),
{
    if a.len() == 0 {
        false
    } else if b.len() == 0 {
        true
    } else if a[0] != b[0] {
        (a[0] as u32) > (b[0] as u32)
    } else {
        seq_gt(a.drop_first(), b.drop_first())
    }
}

/// How many of `dates[..n]` rank ahead of `dates[i]`: later, or the same
/// and earlier in the list.
pub open spec fn ahead(dates: Seq<Seq<char>>, i: int, n: int) -> nat
    decreases n,
{
    if n <= 0 {
        0
    } else {
        ahead(dates, i, n - 1) + if seq_gt(dates[n - 1], dates[i]) || (dates[n - 1] == dates[i] && n - 1 < i) {
            1nat
        } else {
            0nat
        }
    }
}

/// The resolved dates of tasks, in order.
pub open spec fn dates_of(ts: Seq<TaskV>) -> Seq<Seq<char>> {
    Seq::new(ts.len(), |i: int| resolved_date(ts[i].metadata))
}

/// Whether the done task at `i` is among the `retain` most recently
/// resolved, a missing date counting as oldest and ties going to the
/// earlier task.
pub open spec fn retained(ts: Seq<TaskV>, i: int, retain: nat) -> bool {
    ahead(dates_of(ts), i, ts.len() as int) < retain
}

/// The tasks of `ts[..n]` retained (`keep`) or not.
pub open spec fn part_done(ts: Seq<TaskV>, n: int, retain: nat, keep: bool) -> Seq<TaskV>
    decreases n,
{
    if n <= 0 {
        Seq::empty()
    } else {
        part_done(ts, n - 1, retain, keep) + if retained(ts, n - 1, retain) == keep {
            seq![ts[n - 1]]
        } else {
            Seq::empty()
        }
    }
}

fn resolved_date_of(ms: &Vec<Metadata>) -> (r: String)
    ensures
        r@ == resolved_date(metas_v(ms@)),
{
    let ghost mv = metas_v(ms@);
    assert(mv.subrange(0, mv.len() as int) =~= mv);
    let mut i: usize = 0;
    while i < ms.len()
        invariant
            i <= ms@.len(),
            mv == metas_v(ms@),
            resolved_date(mv) == resolved_date(mv.subrange(i as int, mv.len() as int)),
        decreases ms.len() - i,
    {
        assert(mv.subrange(i as int, mv.len() as int)[0] == mv[i as int]);
        assert(mv.subrange(i as int, mv.len() as int).drop_first() =~= mv.subrange(i + 1, mv.len() as int));
        if let Metadata::Resolved(d) = &ms[i] {
            return d.clone();
        }
        i += 1;
    }
    String::new()
}

fn gt_exec(a: &Vec<char>, b: &Vec<char>) -> (r: bool)
    ensures
        r == seq_gt(a@, b@),
{
    assert(a@.subrange(0, a@.len() as int) =~= a@);
    assert(b@.subrange(0, b@.len() as int) =~= b@);
    let mut i: usize = 0;
    while i < a.len() && i < b.len() && a[i] == b[i]
        invariant
            i <= a@.len(),
            i <= b@.len(),
            seq_gt(a@, b@) == seq_gt(a@.subrange(i as int, a@.len() as int), b@.subrange(i as int, b@.len() as int)),
        decreases a.len() - i,
    {
        assert(a@.subrange(i as int, a@.len() as int).drop_first() =~= a@.subrange(i + 1, a@.len() as int));
        assert(b@.subrange(i as int, b@.len() as int).drop_first() =~= b@.subrange(i + 1, b@.len() as int));
        i += 1;
    }
    if i >= a.len() {
        false
    } else if i >= b.len() {
        true
    } else {
        (a[i] as u32) > (b[i] as u32)
    }
}

/// Which done tasks stay: the `retain` most recently resolved.
fn retained_flags(ts: &[Task], retain: usize) -> (r: Vec<bool>)
    ensures
        r@.len() == ts@.len(),
        forall|i: int| 0 <= i < ts@.len() ==> r@[i] == retained(tasks_v(ts@), i, retain as nat),
{
    let ghost tv = tasks_v(ts@);
    let mut dates: Vec<Vec<char>> = Vec::new();
    let mut k: usize = 0;
    while k < ts.len()
        invariant
            k <= ts@.len(),
            tv == tasks_v(ts@),
            dates@.len() == k,
            forall|j: int| 0 <= j < k ==> #[trigger] dates@[j]@ == dates_of(tv)[j],
        decreases ts.len() - k,
    {
        assert(tv[k as int] == ts@[k as int]@);
        let d = resolved_date_of(&ts[k].metadata);
        dates.push(chars_of(d.as_str()));
        k += 1;
    }
    let ghost dv = dates_of(tv);
    let mut flags: Vec<bool> = Vec::new();
    let mut i: usize = 0;
    while i < ts.len()
        invariant
            i <= ts@.len(),
            tv == tasks_v(ts@),
            dv == dates_of(tv),
            dates@.len() == ts@.len(),
            forall|j: int| 0 <= j < ts@.len() ==> #[trigger] dates@[j]@ == dv[j],
            flags@.len() == i,
            forall|j: int| 0 <= j < i ==> flags@[j] == retained(tv, j, retain as nat),
        decreases ts.len() - i,
    {
        let mut n: usize = 0;
        let mut j: usize = 0;
        while j < ts.len()
            invariant
                j <= ts@.len(),
                i < ts@.len(),
                dates@.len() == ts@.len(),
                dv.len() == ts@.len(),
                forall|q: int| 0 <= q < ts@.len() ==> #[trigger] dates@[q]@ == dv[q],
                n as nat == ahead(dv, i as int, j as int),
                n <= j,
            decreases ts.len() - j,
        {
            let later = gt_exec(&dates[j], &dates[i]);
            let same = crate::text::seq_eq(dates[j].as_slice(), dates[i].as_slice());
            if later || (same && j < i) {
                n += 1;
            }
            j += 1;
        }
        flags.push(n < retain);
        i += 1;
    }
    flags
}

/// What archiving does to a track, when it archives anything: the track
/// with only the retained done tasks left in Done, and the done tasks that
/// leave it, in order. `None` when archiving is off, the done section is
/// within the threshold, or every done task is retained.
pub open spec fn archive_plan(nodes: Seq<NodeV>, cfg: CleanConfig) -> Option<(Seq<NodeV>, Seq<TaskV>)> {
    let done = section_tasks_v(nodes, SectionKind::Done);
    let n = done.len() as int;
    let gone = part_done(done, n, cfg.done_retain as nat, false);
    if !cfg.archive_per_track || done.len() <= cfg.done_threshold || cfg.done_retain >= done.len() || gone.len() == 0 {
        None
    } else {
        Some((set_section(nodes, SectionKind::Done, part_done(done, n, cfg.done_retain as nat, true)), gone))
    }
}

/// Whether an archive whose IDs are `held` lacks a task.
pub open spec fn not_held(t: TaskV, held: Set<Seq<char>>) -> bool {
    t.id is None || !held.contains(t.id->0)
}

/// The tasks of `gone[..n]` an archive holding `held` lacks, in order.
pub open spec fn fresh_upto(gone: Seq<TaskV>, n: int, held: Set<Seq<char>>) -> Seq<TaskV>
    decreases n,
{
    if n <= 0 {
        Seq::empty()
    } else {
        fresh_upto(gone, n - 1, held) + if not_held(gone[n - 1], held) { seq![gone[n - 1]] } else { Seq::empty() }
    }
}

/// The leaving tasks the archive text `existing` does not hold yet: those
/// without an ID and those whose ID its task lines do not name.
pub open spec fn fresh_for(gone: Seq<TaskV>, existing: Seq<char>) -> Seq<TaskV> {
    fresh_upto(gone, gone.len() as int, archived_ids_v(existing))
}

pub open spec fn archive_rows(v: Seq<ArchiveRecord>) -> Seq<(Seq<char>, Seq<char>, Seq<char>)> {
    v.map_values(|a: ArchiveRecord| (a.track_id@, a.task_id@, a.title@))
}

pub open spec fn gone_rows(track_id: Seq<char>, gone: Seq<TaskV>) -> Seq<(Seq<char>, Seq<char>, Seq<char>)> {
    gone.map_values(|t: TaskV| (track_id, id_or_empty(t), t.title))
}

fn split_done(tasks: Vec<Task>, flags: &Vec<bool>, retain: usize) -> (r: (Vec<Task>, Vec<Task>))
    requires
        flags@.len() == tasks@.len(),
        forall|i: int| 0 <= i < tasks@.len() ==> flags@[i] == retained(tasks_v(tasks@), i, retain as nat),
    ensures
        tasks_v(r.0@) == part_done(tasks_v(tasks@), tasks@.len() as int, retain as nat, true),
        tasks_v(r.1@) == part_done(tasks_v(tasks@), tasks@.len() as int, retain as nat, false),
{
    let ghost tv = tasks_v(tasks@);
    let n = tasks.len();
    let mut kept: Vec<Task> = Vec::new();
    let mut gone: Vec<Task> = Vec::new();
    let mut rest = tasks;
    let mut i: usize = 0;
    while i < n
        invariant
            i <= n,
            n == tv.len(),
            flags@.len() == n,
            forall|k: int| 0 <= k < n ==> flags@[k] == retained(tv, k, retain as nat),
            rest@.len() == n - i,
            forall|k: int| 0 <= k < rest@.len() ==> #[trigger] rest@[k]@ == tv[i + k],
            tasks_v(kept@) == part_done(tv, i as int, retain as nat, true),
            tasks_v(gone@) == part_done(tv, i as int, retain as nat, false),
        decreases n - i,
    {
        let t = rest.remove(0);
        assert(t@ == tv[i as int]);
        let ghost kb = kept@;
        let ghost gb = gone@;
        if flags[i] {
            kept.push(t);
            assert(tasks_v(kept@) =~= tasks_v(kb).push(t@));
            assert(tasks_v(gone@) =~= tasks_v(gb));
        } else {
            gone.push(t);
            assert(tasks_v(gone@) =~= tasks_v(gb).push(t@));
            assert(tasks_v(kept@) =~= tasks_v(kb));
        }
        proof {
            assert(part_done(tv, i + 1, retain as nat, true) =~= part_done(tv, i as int, retain as nat, true)
                + if retained(tv, i as int, retain as nat) == true { seq![tv[i as int]] } else { Seq::<TaskV>::empty() });
            assert(part_done(tv, i + 1, retain as nat, false) =~= part_done(tv, i as int, retain as nat, false)
                + if retained(tv, i as int, retain as nat) == false { seq![tv[i as int]] } else { Seq::<TaskV>::empty() });
        }
        i += 1;
    }
    (kept, gone)
}

proof fn lemma_none_gone(ts: Seq<TaskV>, n: int, retain: nat)
    requires
        0 <= n <= ts.len(),
    ensures
        part_done(ts, n, retain, false).len() == 0 <==> forall|k: int| 0 <= k < n ==> retained(ts, k, retain),
        (forall|k: int| 0 <= k < n ==> retained(ts, k, retain)) ==> part_done(ts, n, retain, true) == ts.take(n),
    decreases n,
{
    if n > 0 {
        lemma_none_gone(ts, n - 1, retain);
        if forall|k: int| 0 <= k < n ==> retained(ts, k, retain) {
            assert(ts.take(n) =~= ts.take(n - 1).push(ts[n - 1]));
        }
        if part_done(ts, n, retain, false).len() == 0 {
            assert(part_done(ts, n - 1, retain, false).len() == 0);
        }
    }
}

fn fresh_tasks(gone: &Vec<Task>, held: &IdSet) -> (r: Vec<Task>)
    ensures
        tasks_v(r@) == fresh_upto(tasks_v(gone@), gone@.len() as int, held.set_v()),
{
    let ghost gv = tasks_v(gone@);
    let mut out: Vec<Task> = Vec::new();
    let mut i: usize = 0;
    while i < gone.len()
        invariant
            i <= gone@.len(),
            gv == tasks_v(gone@),
            tasks_v(out@) == fresh_upto(gv, i as int, held.set_v()),
        decreases gone.len() - i,
    {
        assert(gv[i as int] == gone@[i as int]@);
        let keep = match &gone[i].id {
            None => true,
            Some(x) => !held.contains(x.as_str()),
        };
        if keep {
            let ghost ob = out@;
            let c = gone[i].duplicate();
            out.push(c);
            assert(tasks_v(out@) =~= tasks_v(ob).push(gv[i as int]));
        }
        i += 1;
    }
    out
}

fn push_archive_rows(gone: &Vec<Task>, track_id: &str, out: &mut Vec<ArchiveRecord>)
    ensures
        archive_rows(final(out)@) == archive_rows(old(out)@) + gone_rows(track_id@, tasks_v(gone@)),
{
    let ghost gv = tasks_v(gone@);
    let ghost o0 = archive_rows(out@);
    let mut i: usize = 0;
    while i < gone.len()
        invariant
            i <= gone@.len(),
            gv == tasks_v(gone@),
            archive_rows(out@) == o0 + gone_rows(track_id@, gv.take(i as int)),
        decreases gone.len() - i,
    {
        assert(gv[i as int] == gone@[i as int]@);
        let ghost ob = out@;
        let row = ArchiveRecord { track_id: String::from_str(track_id), task_id: id_string(&gone[i]), title: gone[i].title.clone() };
        out.push(row);
        assert(out@ == ob.push(row));
        assert(archive_rows(out@) =~= archive_rows(ob).push((track_id@, id_or_empty(gv[i as int]), gv[i as int].title)));
        assert(gv.take(i + 1) =~= gv.take(i as int).push(gv[i as int]));
        assert(archive_rows(out@) =~= o0 + gone_rows(track_id@, gv.take(i + 1)));
        i += 1;
    }
    assert(gv.take(i as int) =~= gv);
}

/// Archive a track's done tasks past the threshold (see [`archive_plan`]):
/// the leaving tasks are reported; the ones the archive text `existing` does
/// not hold yet are appended to it, and the new archive text is returned
/// when there are any.
pub fn archive_track(track: &mut Track, track_id: &str, cfg: &CleanConfig, existing: &str, out: &mut Vec<ArchiveRecord>)
    -> (r: Option<String>)
    ensures
        match archive_plan(old(track)@, *cfg) {
            None => final(track)@ == old(track)@ && final(out)@ == old(out)@ && r is None,
            Some((nodes, gone)) => {
                &&& final(track)@ == nodes
                &&& archive_rows(final(out)@) == archive_rows(old(out)@) + gone_rows(track_id@, gone)
                &&& (r is Some <==> fresh_for(gone, existing@).len() > 0)
            },
        },
{
    let ghost nv = track@;
    if !cfg.archive_per_track {
        return None;
    }
    proof { lemma_section_from(nv, SectionKind::Done, 0); }
    let di = match crate::task_tree::section_index_of(track, SectionKind::Done) {
        Some(i) => i,
        None => {
            proof {
                assert(section_tasks_v(nv, SectionKind::Done) =~= Seq::empty());
            }
            return None;
        },
    };
    let count = track.section_tasks(SectionKind::Done).len();
    if count <= cfg.done_threshold || cfg.done_retain >= count {
        return None;
    }
    let flags = retained_flags(track.section_tasks(SectionKind::Done), cfg.done_retain);
    let ghost dv = section_tasks_v(nv, SectionKind::Done);
    proof { lemma_none_gone(dv, dv.len() as int, cfg.done_retain as nat); }
    let mut any_gone = false;
    let mut k: usize = 0;
    while k < flags.len()
        invariant
            k <= flags@.len(),
            flags@.len() == dv.len(),
            forall|q: int| 0 <= q < dv.len() ==> flags@[q] == retained(dv, q, cfg.done_retain as nat),
            any_gone == exists|q: int| 0 <= q < k && !flags@[q],
        decreases flags.len() - k,
    {
        if !flags[k] {
            any_gone = true;
        }
        k += 1;
    }
    if !any_gone {
        assert forall|q: int| 0 <= q < dv.len() implies retained(dv, q, cfg.done_retain as nat) by {
            assert(flags@[q]);
        }
        return None;
    }
    let done = track.swap_section_tasks(di, Vec::new());
    assert(tasks_v(done@) == dv);
    let (kept, gone) = split_done(done, &flags, cfg.done_retain);
    assert(track@.len() == track.nodes@.len());
    let _ = track.swap_section_tasks(di, kept);
    proof {
        let nd = nv[di as int];
        assert(with_tasks(with_tasks(nd, Seq::empty()), tasks_v(kept@)) == with_tasks(nd, tasks_v(kept@)));
        assert(track@ =~= nv.update(di as int, with_tasks(nd, tasks_v(kept@))));
    }
    push_archive_rows(&gone, track_id, out);
    let held = archived_task_ids(existing);
    let fresh = fresh_tasks(&gone, &held);
    if fresh.len() == 0 {
        return None;
    }
    let mut archive = if existing.len() == 0 {
        crate::model::Archive::new(track_id)
    } else {
        crate::parse::parse_archive(existing)
    };
    let mut more = fresh;
    archive.tasks.append(&mut more);
    Some(crate::parse::serialize_archive(&archive))
}

// ---------------------------------------------------------------------------
// Whole-project passes
// ---------------------------------------------------------------------------

/// Each track with `f` applied to it.
pub open spec fn tracks_mapped(
    tracks: Seq<(Seq<char>, Seq<NodeV>)>,
    f: spec_fn(Seq<char>, Seq<NodeV>) -> Seq<NodeV>,
) -> Seq<(Seq<char>, Seq<NodeV>)> {
    Seq::new(tracks.len(), |i: int| (tracks[i].0, f(tracks[i].0, tracks[i].1)))
}

/// What `g` finds in each track from `i` on, in order.
pub open spec fn tracks_found<A>(tracks: Seq<(Seq<char>, Seq<NodeV>)>, i: int, g: spec_fn(Seq<char>, Seq<NodeV>) -> Seq<A>) -> Seq<A>
    decreases tracks.len() - i,
{
    if i < 0 || i >= tracks.len() {
        Seq::empty()
    } else {
        g(tracks[i].0, tracks[i].1) + tracks_found(tracks, i + 1, g)
    }
}

/// The namespace a scope mints in (its token's spelling, empty for null), or
/// `None` for a scope that mints nothing.
pub open spec fn scope_tok(scope: IdScope) -> Option<Seq<char>> {
    match scope {
        IdScope::Mint(Some(t)) => Some(t@),
        IdScope::Mint(None) => Some(Seq::empty()),
        IdScope::Unclaimed => None,
    }
}

/// A track after its missing IDs are filled, when the scope mints and the
/// track has a prefix, with the (ID, title) of each task given one.
pub open spec fn ids_step(
    tid: Seq<char>,
    nodes: Seq<NodeV>,
    prefixes: Seq<(Seq<char>, Seq<char>)>,
    floors: Seq<(Seq<char>, nat)>,
    tok: Option<Seq<char>>,
) -> (Seq<NodeV>, Seq<(Seq<char>, Seq<char>)>) {
    match (lookup_v(prefixes, tid), tok) {
        (Some(p), Some(t)) => ids_filled(nodes, p, t,
            max_nat(nat_or_zero(lookup_v(floors, tid)), max_num_track(nodes, stem(p, t)))),
        _ => (nodes, Seq::empty()),
    }
}

pub struct FillCtx {
    pub prefixes: Seq<(Seq<char>, Seq<char>)>,
    pub floors: Seq<(Seq<char>, nat)>,
    pub tok: Option<Seq<char>>,
    pub today: Seq<char>,
}

/// A track after IDs, then `added:` dates, are filled.
pub open spec fn filled_track(c: FillCtx, tid: Seq<char>, nodes: Seq<NodeV>) -> Seq<NodeV> {
    nodes_mapped(ids_step(tid, nodes, c.prefixes, c.floors, c.tok).0, |ts: Seq<TaskV>| dated_list(ts, c.today))
}

pub open spec fn filled_ids(c: FillCtx, tid: Seq<char>, nodes: Seq<NodeV>) -> Seq<(Seq<char>, Seq<char>, Seq<char>)> {
    with_track(tid, ids_step(tid, nodes, c.prefixes, c.floors, c.tok).1)
}

pub open spec fn filled_dates(c: FillCtx, tid: Seq<char>, nodes: Seq<NodeV>) -> Seq<(Seq<char>, Seq<char>, Seq<char>, DateKind)> {
    rows_for(tid, nodes_found(ids_step(tid, nodes, c.prefixes, c.floors, c.tok).0, 0, |ts: Seq<TaskV>| undated_from(ts, 0)),
        c.today, DateKind::Added)
}

/// The context of a filling pass over a project.
pub open spec fn fill_ctx(project: Project, scope: IdScope, today: Seq<char>) -> FillCtx {
    FillCtx {
        prefixes: crate::project::pairs_view(project.prefixes@),
        floors: floors_view(project.id_floors@),
        tok: scope_tok(scope),
        today,
    }
}

fn scope_token(scope: &IdScope) -> (r: Option<Option<&Token>>)
    ensures
        match r {
            Some(t) => scope_tok(*scope) == Some(tok_v(t)),
            None => scope_tok(*scope) is None,
        },
{
    match scope {
        IdScope::Mint(Some(t)) => Some(Some(t)),
        IdScope::Mint(None) => Some(None),
        IdScope::Unclaimed => None,
    }
}

/// Fill one track's missing IDs (when the scope mints) and `added:` dates.
fn fill_track(
    track: &mut Track,
    tid: &str,
    prefixes: &Vec<(String, String)>,
    floors: &Vec<(String, usize)>,
    tok: Option<Option<&Token>>,
    today: &str,
    ids_out: &mut Vec<IdAssignment>,
    dates_out: &mut Vec<DateAssignment>,
)
    ensures
        final(track)@ == filled_track(FillCtx { prefixes: crate::project::pairs_view(prefixes@), floors: floors_view(floors@),
            tok: match tok { Some(t) => Some(tok_v(t)), None => None }, today: today@ }, tid@, old(track)@),
        id_rows(final(ids_out)@) == id_rows(old(ids_out)@) + filled_ids(FillCtx { prefixes: crate::project::pairs_view(prefixes@),
            floors: floors_view(floors@), tok: match tok { Some(t) => Some(tok_v(t)), None => None }, today: today@ }, tid@, old(track)@),
        date_rows(final(dates_out)@) == date_rows(old(dates_out)@) + filled_dates(FillCtx { prefixes: crate::project::pairs_view(prefixes@),
            floors: floors_view(floors@), tok: match tok { Some(t) => Some(tok_v(t)), None => None }, today: today@ }, tid@, old(track)@),
{
    let ghost nv = track@;
    let ghost tokv: Option<Seq<char>> = match tok { Some(t) => Some(tok_v(t)), None => None };
    let prefix = crate::project::prefix_for(prefixes, tid);
    match (&prefix, tok) {
        (Some(p), Some(t)) => {
            let known = crate::project::floor_for(floors, tid);
            proof { lemma_lookup_floors(floors@, tid@, 0); }
            let mint = Mint::new(p.as_str(), t, known);
            assign_missing_ids(track, tid, &mint, ids_out);
        },
        _ => {
            assert(id_rows(ids_out@) =~= id_rows(ids_out@) + with_track(tid@, Seq::<(Seq<char>, Seq<char>)>::empty()));
        },
    }
    assert(track@ == ids_step(tid@, nv, crate::project::pairs_view(prefixes@), floors_view(floors@), tokv).0);
    assign_missing_dates(track, tid, today, dates_out);
}

/// Every track after [`filled_track`].
pub open spec fn fill_tracks(c: FillCtx, ts: Seq<(Seq<char>, Seq<NodeV>)>) -> Seq<(Seq<char>, Seq<NodeV>)> {
    Seq::new(ts.len(), |i: int| (ts[i].0, filled_track(c, ts[i].0, ts[i].1)))
}

/// The ID rows of filling the tracks from `i` on.
pub open spec fn fill_ids_from(c: FillCtx, ts: Seq<(Seq<char>, Seq<NodeV>)>, i: int) -> Seq<(Seq<char>, Seq<char>, Seq<char>)>
    decreases ts.len() - i,
{
    if i < 0 || i >= ts.len() {
        Seq::empty()
    } else {
        filled_ids(c, ts[i].0, ts[i].1) + fill_ids_from(c, ts, i + 1)
    }
}

/// The date rows of filling the tracks from `i` on.
pub open spec fn fill_dates_from(c: FillCtx, ts: Seq<(Seq<char>, Seq<NodeV>)>, i: int) -> Seq<(Seq<char>, Seq<char>, Seq<char>, DateKind)>
    decreases ts.len() - i,
{
    if i < 0 || i >= ts.len() {
        Seq::empty()
    } else {
        filled_dates(c, ts[i].0, ts[i].1) + fill_dates_from(c, ts, i + 1)
    }
}

/// Fill missing IDs (when the scope mints) and `added:` dates in every track.
fn fill_all(
    tracks: &mut Vec<(String, Track)>,
    prefixes: &Vec<(String, String)>,
    floors: &Vec<(String, usize)>,
    tok: Option<Option<&Token>>,
    today: &str,
    ids_out: &mut Vec<IdAssignment>,
    dates_out: &mut Vec<DateAssignment>,
)
    ensures
        crate::project::tracks_view(final(tracks)@) == fill_tracks(FillCtx { prefixes: crate::project::pairs_view(prefixes@),
            floors: floors_view(floors@), tok: match tok { Some(t) => Some(tok_v(t)), None => None }, today: today@ },
            crate::project::tracks_view(old(tracks)@)),
        id_rows(final(ids_out)@) == id_rows(old(ids_out)@) + fill_ids_from(FillCtx { prefixes: crate::project::pairs_view(prefixes@),
            floors: floors_view(floors@), tok: match tok { Some(t) => Some(tok_v(t)), None => None }, today: today@ },
            crate::project::tracks_view(old(tracks)@), 0),
        date_rows(final(dates_out)@) == date_rows(old(dates_out)@) + fill_dates_from(FillCtx { prefixes: crate::project::pairs_view(prefixes@),
            floors: floors_view(floors@), tok: match tok { Some(t) => Some(tok_v(t)), None => None }, today: today@ },
            crate::project::tracks_view(old(tracks)@), 0),
{
    let ghost c = FillCtx { prefixes: crate::project::pairs_view(prefixes@), floors: floors_view(floors@),
        tok: match tok { Some(t) => Some(tok_v(t)), None => None }, today: today@ };
    let ghost tv = crate::project::tracks_view(tracks@);
    let ghost i0 = id_rows(ids_out@);
    let ghost d0 = date_rows(dates_out@);
    let mut i: usize = 0;
    while i < tracks.len()
        invariant
            i <= tracks@.len(),
            tracks@.len() == tv.len(),
            tv == crate::project::tracks_view(old(tracks)@),
            c == (FillCtx { prefixes: crate::project::pairs_view(prefixes@), floors: floors_view(floors@),
                tok: match tok { Some(t) => Some(tok_v(t)), None => None }, today: today@ }),
            forall|k: int| i <= k < tv.len() ==> crate::project::tracks_view(tracks@)[k] == tv[k],
            forall|k: int| 0 <= k < i ==> crate::project::tracks_view(tracks@)[k] == fill_tracks(c, tv)[k],
            id_rows(ids_out@) + fill_ids_from(c, tv, i as int) == i0 + fill_ids_from(c, tv, 0),
            date_rows(dates_out@) + fill_dates_from(c, tv, i as int) == d0 + fill_dates_from(c, tv, 0),
        decreases tracks.len() - i,
    {
        let ghost before = tracks@;
        let ghost ib = id_rows(ids_out@);
        let ghost db = date_rows(dates_out@);
        let (tid, mut tr) = tracks.remove(i);
        assert((tid@, tr@) == tv[i as int]);
        fill_track(&mut tr, tid.as_str(), prefixes, floors, tok, today, ids_out, dates_out);
        tracks.insert(i, (tid, tr));
        proof {
            assert(tracks@ =~= before.update(i as int, tracks@[i as int]));
            assert forall|k: int| i + 1 <= k < tv.len() implies crate::project::tracks_view(tracks@)[k] == tv[k] by {
                assert(tracks@[k] == before[k]);
            }
            assert forall|k: int| 0 <= k < i + 1 implies crate::project::tracks_view(tracks@)[k] == fill_tracks(c, tv)[k] by {
                if k < i {
                    assert(tracks@[k] == before[k]);
                }
            }
            assert(id_rows(ids_out@) + fill_ids_from(c, tv, i + 1) =~= ib + fill_ids_from(c, tv, i as int));
            assert(date_rows(dates_out@) + fill_dates_from(c, tv, i + 1) =~= db + fill_dates_from(c, tv, i as int));
        }
        i += 1;
    }
    assert(crate::project::tracks_view(tracks@) =~= fill_tracks(c, tv));
    assert(id_rows(ids_out@) =~= id_rows(ids_out@) + Seq::<(Seq<char>, Seq<char>, Seq<char>)>::empty());
    assert(date_rows(dates_out@) =~= date_rows(dates_out@) + Seq::<(Seq<char>, Seq<char>, Seq<char>, DateKind)>::empty());
}

/// Put misplaced top-level tasks in their sections, track by track.
fn reconcile_all(tracks: &mut Vec<(String, Track)>, out: &mut Vec<SectionReconcile>)
    ensures
        crate::project::tracks_view(final(tracks)@) == tracks_mapped(crate::project::tracks_view(old(tracks)@), (|tid: Seq<char>, nodes: Seq<NodeV>| moves_applied(nodes, moves_nodes(nodes, 0), 0))),
        reconcile_rows(final(out)@) == reconcile_rows(old(out)@) + tracks_found(crate::project::tracks_view(old(tracks)@), 0, (|tid: Seq<char>, nodes: Seq<NodeV>| moves_nodes(nodes, 0).map_values(|m: MoveV| (tid, m.0, m.1, m.2)))),
{
    let ghost f = (|tid: Seq<char>, nodes: Seq<NodeV>| moves_applied(nodes, moves_nodes(nodes, 0), 0));
    let ghost g = (|tid: Seq<char>, nodes: Seq<NodeV>| moves_nodes(nodes, 0).map_values(|m: MoveV| (tid, m.0, m.1, m.2)));
    let ghost tv = crate::project::tracks_view(tracks@);
    let ghost o0 = reconcile_rows(out@);
    let mut i: usize = 0;
    while i < tracks.len()
        invariant
            i <= tracks@.len(),
            tracks@.len() == tv.len(),
            tv == crate::project::tracks_view(old(tracks)@),
            f == (|tid: Seq<char>, nodes: Seq<NodeV>| moves_applied(nodes, moves_nodes(nodes, 0), 0)),
            g == (|tid: Seq<char>, nodes: Seq<NodeV>| moves_nodes(nodes, 0).map_values(|m: MoveV| (tid, m.0, m.1, m.2))),
            forall|k: int| i <= k < tv.len() ==> crate::project::tracks_view(tracks@)[k] == tv[k],
            forall|k: int| 0 <= k < i ==> crate::project::tracks_view(tracks@)[k] == tracks_mapped(tv, f)[k],
            reconcile_rows(out@) + tracks_found(tv, i as int, g) == o0 + tracks_found(tv, 0, g),
        decreases tracks.len() - i,
    {
        let ghost before = tracks@;
        let ghost ob = reconcile_rows(out@);
        let (tid, mut tr) = tracks.remove(i);
        assert((tid@, tr@) == tv[i as int]);
        let _ = reconcile_sections_for_track(&mut tr, tid.as_str(), out);
        tracks.insert(i, (tid, tr));
        proof {
            assert(tracks@ =~= before.update(i as int, tracks@[i as int]));
            assert forall|k: int| i + 1 <= k < tv.len() implies crate::project::tracks_view(tracks@)[k] == tv[k] by {
                assert(tracks@[k] == before[k]);
            }
            assert forall|k: int| 0 <= k < i + 1 implies crate::project::tracks_view(tracks@)[k] == tracks_mapped(tv, f)[k] by {
                if k < i {
                    assert(tracks@[k] == before[k]);
                }
            }
            assert(reconcile_rows(out@) + tracks_found(tv, i + 1, g) =~= ob + tracks_found(tv, i as int, g));
        }
        i += 1;
    }
    assert(crate::project::tracks_view(tracks@) =~= tracks_mapped(tv, f));
    assert(reconcile_rows(out@) =~= reconcile_rows(out@) + Seq::<(Seq<char>, Seq<char>, SectionKind, SectionKind)>::empty());
}

/// Fill missing `resolved:` dates, track by track.
fn resolved_all(tracks: &mut Vec<(String, Track)>, today: &str, out: &mut Vec<DateAssignment>)
    ensures
        crate::project::tracks_view(final(tracks)@) == tracks_mapped(crate::project::tracks_view(old(tracks)@), (|tid: Seq<char>, nodes: Seq<NodeV>| nodes_mapped(nodes, |ts: Seq<TaskV>| resolved_list(ts, today@)))),
        date_rows(final(out)@) == date_rows(old(out)@) + tracks_found(crate::project::tracks_view(old(tracks)@), 0, (|tid: Seq<char>, nodes: Seq<NodeV>| rows_for(tid, nodes_found(nodes, 0, |ts: Seq<TaskV>| unresolved_from(ts, 0)), today@, DateKind::Resolved))),
{
    let ghost f = (|tid: Seq<char>, nodes: Seq<NodeV>| nodes_mapped(nodes, |ts: Seq<TaskV>| resolved_list(ts, today@)));
    let ghost g = (|tid: Seq<char>, nodes: Seq<NodeV>| rows_for(tid, nodes_found(nodes, 0, |ts: Seq<TaskV>| unresolved_from(ts, 0)), today@, DateKind::Resolved));
    let ghost tv = crate::project::tracks_view(tracks@);
    let ghost o0 = date_rows(out@);
    let mut i: usize = 0;
    while i < tracks.len()
        invariant
            i <= tracks@.len(),
            tracks@.len() == tv.len(),
            tv == crate::project::tracks_view(old(tracks)@),
            f == (|tid: Seq<char>, nodes: Seq<NodeV>| nodes_mapped(nodes, |ts: Seq<TaskV>| resolved_list(ts, today@))),
            g == (|tid: Seq<char>, nodes: Seq<NodeV>| rows_for(tid, nodes_found(nodes, 0, |ts: Seq<TaskV>| unresolved_from(ts, 0)), today@, DateKind::Resolved)),
            forall|k: int| i <= k < tv.len() ==> crate::project::tracks_view(tracks@)[k] == tv[k],
            forall|k: int| 0 <= k < i ==> crate::project::tracks_view(tracks@)[k] == tracks_mapped(tv, f)[k],
            date_rows(out@) + tracks_found(tv, i as int, g) == o0 + tracks_found(tv, 0, g),
        decreases tracks.len() - i,
    {
        let ghost before = tracks@;
        let ghost ob = date_rows(out@);
        let (tid, mut tr) = tracks.remove(i);
        assert((tid@, tr@) == tv[i as int]);
        assign_missing_resolved_dates(&mut tr, tid.as_str(), today, out);
        tracks.insert(i, (tid, tr));
        proof {
            assert(tracks@ =~= before.update(i as int, tracks@[i as int]));
            assert forall|k: int| i + 1 <= k < tv.len() implies crate::project::tracks_view(tracks@)[k] == tv[k] by {
                assert(tracks@[k] == before[k]);
            }
            assert forall|k: int| 0 <= k < i + 1 implies crate::project::tracks_view(tracks@)[k] == tracks_mapped(tv, f)[k] by {
                if k < i {
                    assert(tracks@[k] == before[k]);
                }
            }
            assert(date_rows(out@) + tracks_found(tv, i + 1, g) =~= ob + tracks_found(tv, i as int, g));
        }
        i += 1;
    }
    assert(crate::project::tracks_view(tracks@) =~= tracks_mapped(tv, f));
    assert(date_rows(out@) =~= date_rows(out@) + Seq::<(Seq<char>, Seq<char>, Seq<char>, DateKind)>::empty());
}

/// Report dangling deps, track by track.
fn deps_all(tracks: &Vec<(String, Track)>, all_ids: &Vec<String>, out: &mut Vec<DanglingDep>)
    ensures
        dangling_rows(final(out)@) == dangling_rows(old(out)@) + tracks_found(crate::project::tracks_view(tracks@), 0, (|tid: Seq<char>, nodes: Seq<NodeV>| with_track(tid, nodes_found(nodes, 0, |ts: Seq<TaskV>| dangling_from(ts, 0, strs_v(all_ids@)))))),
{
    let ghost g = (|tid: Seq<char>, nodes: Seq<NodeV>| with_track(tid, nodes_found(nodes, 0, |ts: Seq<TaskV>| dangling_from(ts, 0, strs_v(all_ids@)))));
    let ghost tv = crate::project::tracks_view(tracks@);
    let ghost o0 = dangling_rows(out@);
    let mut i: usize = 0;
    while i < tracks.len()
        invariant
            i <= tracks@.len(),
            tv == crate::project::tracks_view(tracks@),
            g == (|tid: Seq<char>, nodes: Seq<NodeV>| with_track(tid, nodes_found(nodes, 0, |ts: Seq<TaskV>| dangling_from(ts, 0, strs_v(all_ids@))))),
            dangling_rows(out@) + tracks_found(tv, i as int, g) == o0 + tracks_found(tv, 0, g),
        decreases tracks.len() - i,
    {
        let ghost ob = dangling_rows(out@);
        assert(tv[i as int] == (tracks@[i as int].0@, tracks@[i as int].1@));
        validate_deps(&tracks[i].1, tracks[i].0.as_str(), all_ids, out);
        proof {
            assert(dangling_rows(out@) + tracks_found(tv, i + 1, g) =~= ob + tracks_found(tv, i as int, g));
        }
        i += 1;
    }
    assert(dangling_rows(out@) =~= dangling_rows(out@) + Seq::<(Seq<char>, Seq<char>, Seq<char>)>::empty());
}

/// Report broken references, track by track.
fn refs_all(tracks: &Vec<(String, Track)>, missing: &Vec<String>, out: &mut Vec<BrokenRef>)
    ensures
        broken_rows(final(out)@) == broken_rows(old(out)@) + tracks_found(crate::project::tracks_view(tracks@), 0, (|tid: Seq<char>, nodes: Seq<NodeV>| with_track3(tid, nodes_found(nodes, 0, |ts: Seq<TaskV>| broken_from(ts, 0, strs_v(missing@)))))),
{
    let ghost g = (|tid: Seq<char>, nodes: Seq<NodeV>| with_track3(tid, nodes_found(nodes, 0, |ts: Seq<TaskV>| broken_from(ts, 0, strs_v(missing@)))));
    let ghost tv = crate::project::tracks_view(tracks@);
    let ghost o0 = broken_rows(out@);
    let mut i: usize = 0;
    while i < tracks.len()
        invariant
            i <= tracks@.len(),
            tv == crate::project::tracks_view(tracks@),
            g == (|tid: Seq<char>, nodes: Seq<NodeV>| with_track3(tid, nodes_found(nodes, 0, |ts: Seq<TaskV>| broken_from(ts, 0, strs_v(missing@))))),
            broken_rows(out@) + tracks_found(tv, i as int, g) == o0 + tracks_found(tv, 0, g),
        decreases tracks.len() - i,
    {
        let ghost ob = broken_rows(out@);
        assert(tv[i as int] == (tracks@[i as int].0@, tracks@[i as int].1@));
        validate_refs(&tracks[i].1, tracks[i].0.as_str(), missing, out);
        proof {
            assert(broken_rows(out@) + tracks_found(tv, i + 1, g) =~= ob + tracks_found(tv, i as int, g));
        }
        i += 1;
    }
    assert(broken_rows(out@) =~= broken_rows(out@) + Seq::<(Seq<char>, Seq<char>, Seq<char>, RefKind)>::empty());
}

/// Collect suggestions, track by track.
fn suggestions_all(tracks: &Vec<(String, Track)>, out: &mut Vec<Suggestion>)
    ensures
        suggestion_rows(final(out)@) == suggestion_rows(old(out)@) + tracks_found(crate::project::tracks_view(tracks@), 0, (|tid: Seq<char>, nodes: Seq<NodeV>| suggestions_for(tid, nodes_found(nodes, 0, |ts: Seq<TaskV>| suggested_from(ts, 0))))),
{
    let ghost g = (|tid: Seq<char>, nodes: Seq<NodeV>| suggestions_for(tid, nodes_found(nodes, 0, |ts: Seq<TaskV>| suggested_from(ts, 0))));
    let ghost tv = crate::project::tracks_view(tracks@);
    let ghost o0 = suggestion_rows(out@);
    let mut i: usize = 0;
    while i < tracks.len()
        invariant
            i <= tracks@.len(),
            tv == crate::project::tracks_view(tracks@),
            g == (|tid: Seq<char>, nodes: Seq<NodeV>| suggestions_for(tid, nodes_found(nodes, 0, |ts: Seq<TaskV>| suggested_from(ts, 0)))),
            suggestion_rows(out@) + tracks_found(tv, i as int, g) == o0 + tracks_found(tv, 0, g),
        decreases tracks.len() - i,
    {
        let ghost ob = suggestion_rows(out@);
        assert(tv[i as int] == (tracks@[i as int].0@, tracks@[i as int].1@));
        collect_suggestions(&tracks[i].1, tracks[i].0.as_str(), out);
        proof {
            assert(suggestion_rows(out@) + tracks_found(tv, i + 1, g) =~= ob + tracks_found(tv, i as int, g));
        }
        i += 1;
    }
    assert(suggestion_rows(out@) =~= suggestion_rows(out@) + Seq::<(Seq<char>, Seq<char>, SuggestionKind)>::empty());
}

/// A track after archiving (see [`archive_plan`]).
pub open spec fn archived_track(nodes: Seq<NodeV>, cfg: CleanConfig) -> Seq<NodeV> {
    match archive_plan(nodes, cfg) {
        Some((n, _)) => n,
        None => nodes,
    }
}

/// The report rows of a track's archiving.
pub open spec fn archived_rows(tid: Seq<char>, nodes: Seq<NodeV>, cfg: CleanConfig) -> Seq<(Seq<char>, Seq<char>, Seq<char>)> {
    match archive_plan(nodes, cfg) {
        Some((_, gone)) => gone_rows(tid, gone),
        None => Seq::empty(),
    }
}

/// The index of the first pair keyed `k` from `i` on.
pub open spec fn key_index_from(v: Seq<(Seq<char>, Seq<char>)>, k: Seq<char>, i: int) -> Option<int>
    decreases v.len() - i,
{
    if i < 0 || i >= v.len() {
        None
    } else if v[i].0 == k {
        Some(i)
    } else {
        key_index_from(v, k, i + 1)
    }
}

/// Replace the text of the first archive keyed `tid`, or add one.
fn set_archive(archives: &mut Vec<(String, String)>, tid: &str, text: String)
    ensures
        crate::project::pairs_view(final(archives)@) == match key_index_from(crate::project::pairs_view(old(archives)@), tid@, 0) {
            Some(k) => crate::project::pairs_view(old(archives)@).update(k, (tid@, text@)),
            None => crate::project::pairs_view(old(archives)@).push((tid@, text@)),
        },
{
    let ghost av = crate::project::pairs_view(archives@);
    let ghost tv = text@;
    let mut i: usize = 0;
    while i < archives.len()
        invariant
            i <= archives@.len(),
            archives@ == old(archives)@,
            av == crate::project::pairs_view(archives@),
            tv == text@,
            key_index_from(av, tid@, 0) == key_index_from(av, tid@, i as int),
        decreases archives.len() - i,
    {
        assert(av[i as int].0 == archives@[i as int].0@);
        if str_eq(archives[i].0.as_str(), tid) {
            let pair = (String::from_str(tid), text);
            let ghost before = archives@;
            archives.set(i, pair);
            assert(archives@ == before.update(i as int, pair));
            assert(pair.0@ == tid@ && pair.1@ == tv);
            assert forall|k: int| 0 <= k < archives@.len() implies
                #[trigger] crate::project::pairs_view(archives@)[k] == av.update(i as int, (tid@, tv))[k] by {
                if k != i {
                    assert(archives@[k] == before[k]);
                }
            }
            assert(crate::project::pairs_view(archives@) =~= av.update(i as int, (tid@, tv)));
            return;
        }
        i += 1;
    }
    archives.push((String::from_str(tid), text));
    assert(crate::project::pairs_view(archives@) =~= av.push((tid@, tv)));
}

fn archive_text_for(archives: &Vec<(String, String)>, tid: &str) -> (r: String)
    ensures
        r@ == match lookup_v(crate::project::pairs_view(archives@), tid@) {
            Some(t) => t,
            None => Seq::empty(),
        },
{
    let ghost av = crate::project::pairs_view(archives@);
    let mut i: usize = 0;
    while i < archives.len()
        invariant
            i <= archives@.len(),
            av == crate::project::pairs_view(archives@),
            lookup_v(av, tid@) == lookup_from(av, tid@, i as int),
        decreases archives.len() - i,
    {
        if str_eq(archives[i].0.as_str(), tid) {
            return archives[i].1.clone();
        }
        i += 1;
    }
    String::new()
}

/// Archive done tasks past the threshold, track by track, keeping each
/// track's archive text in `archives` up to date.
fn archive_all(tracks: &mut Vec<(String, Track)>, cfg: &CleanConfig, archives: &mut Vec<(String, String)>, out: &mut Vec<ArchiveRecord>)
    ensures
        crate::project::tracks_view(final(tracks)@) == tracks_mapped(crate::project::tracks_view(old(tracks)@),
            |tid: Seq<char>, nodes: Seq<NodeV>| archived_track(nodes, *cfg)),
        archive_rows(final(out)@) == archive_rows(old(out)@) + tracks_found(crate::project::tracks_view(old(tracks)@), 0,
            |tid: Seq<char>, nodes: Seq<NodeV>| archived_rows(tid, nodes, *cfg)),
{
    let ghost f = |tid: Seq<char>, nodes: Seq<NodeV>| archived_track(nodes, *cfg);
    let ghost g = |tid: Seq<char>, nodes: Seq<NodeV>| archived_rows(tid, nodes, *cfg);
    let ghost tv = crate::project::tracks_view(tracks@);
    let ghost o0 = archive_rows(out@);
    let mut i: usize = 0;
    while i < tracks.len()
        invariant
            i <= tracks@.len(),
            tracks@.len() == tv.len(),
            tv == crate::project::tracks_view(old(tracks)@),
            f == (|tid: Seq<char>, nodes: Seq<NodeV>| archived_track(nodes, *cfg)),
            g == (|tid: Seq<char>, nodes: Seq<NodeV>| archived_rows(tid, nodes, *cfg)),
            forall|k: int| i <= k < tv.len() ==> crate::project::tracks_view(tracks@)[k] == tv[k],
            forall|k: int| 0 <= k < i ==> crate::project::tracks_view(tracks@)[k] == tracks_mapped(tv, f)[k],
            archive_rows(out@) + tracks_found(tv, i as int, g) == o0 + tracks_found(tv, 0, g),
        decreases tracks.len() - i,
    {
        let ghost before = tracks@;
        let ghost ob = archive_rows(out@);
        let (tid, mut tr) = tracks.remove(i);
        assert((tid@, tr@) == tv[i as int]);
        let existing = archive_text_for(archives, tid.as_str());
        match archive_track(&mut tr, tid.as_str(), cfg, existing.as_str(), out) {
            Some(text) => set_archive(archives, tid.as_str(), text),
            None => {},
        }
        proof {
            match archive_plan(tv[i as int].1, *cfg) {
                Some(p) => {},
                None => {
                    assert(archive_rows(out@) =~= ob + Seq::<(Seq<char>, Seq<char>, Seq<char>)>::empty());
                },
            }
        }
        tracks.insert(i, (tid, tr));
        proof {
            assert(tracks@ =~= before.update(i as int, tracks@[i as int]));
            assert forall|k: int| i + 1 <= k < tv.len() implies crate::project::tracks_view(tracks@)[k] == tv[k] by {
                assert(tracks@[k] == before[k]);
            }
            assert forall|k: int| 0 <= k < i + 1 implies crate::project::tracks_view(tracks@)[k] == tracks_mapped(tv, f)[k] by {
                if k < i {
                    assert(tracks@[k] == before[k]);
                }
            }
            assert(archive_rows(out@) + tracks_found(tv, i + 1, g) =~= ob + tracks_found(tv, i as int, g));
        }
        i += 1;
    }
    assert(crate::project::tracks_view(tracks@) =~= tracks_mapped(tv, f));
    assert(archive_rows(out@) =~= archive_rows(out@) + Seq::<(Seq<char>, Seq<char>, Seq<char>)>::empty());
}

// ---------------------------------------------------------------------------
// Clean
// ---------------------------------------------------------------------------

/// What a clean run gives: the tracks, and the rows of each report list.
pub struct CleanV {
    pub tracks: Seq<(Seq<char>, Seq<NodeV>)>,
    pub ids: Seq<(Seq<char>, Seq<char>, Seq<char>)>,
    pub dates: Seq<(Seq<char>, Seq<char>, Seq<char>, DateKind)>,
    pub dups: Seq<(Seq<char>, Seq<char>, Seq<char>, Seq<char>)>,
    pub moves: Seq<(Seq<char>, Seq<char>, SectionKind, SectionKind)>,
    pub dangling: Seq<(Seq<char>, Seq<char>, Seq<char>)>,
    pub broken: Seq<(Seq<char>, Seq<char>, Seq<char>, RefKind)>,
    pub suggestions: Seq<(Seq<char>, Seq<char>, SuggestionKind)>,
    pub archived: Seq<(Seq<char>, Seq<char>, Seq<char>)>,
}

/// The tracks after filling, duplicate resolution (when the scope mints) and
/// section reconciliation, with those passes' rows.
pub open spec fn prepared_v(project: Project, scope: IdScope, today: Seq<char>) -> CleanV {
    let c = fill_ctx(project, scope, today);
    let t0 = crate::project::tracks_view(project.tracks@);
    let t1 = fill_tracks(c, t0);
    let d: (Seq<(Seq<char>, Seq<NodeV>)>, Seq<(Seq<char>, Seq<char>, Seq<char>, Seq<char>)>) = match scope_tok(scope) {
        Some(tok) => dups_resolved(t1, strs_v(project.track_order@), c.prefixes, c.floors, tok),
        None => (t1, Seq::empty()),
    };
    let t3 = tracks_mapped(d.0, |tid: Seq<char>, nodes: Seq<NodeV>| moves_applied(nodes, moves_nodes(nodes, 0), 0));
    CleanV {
        tracks: t3,
        ids: fill_ids_from(c, t0, 0),
        dates: fill_dates_from(c, t0, 0),
        dups: d.1,
        moves: tracks_found(d.0, 0, |tid: Seq<char>, nodes: Seq<NodeV>| moves_nodes(nodes, 0).map_values(|m: MoveV| (tid, m.0, m.1, m.2))),
        dangling: Seq::empty(),
        broken: Seq::empty(),
        suggestions: Seq::empty(),
        archived: Seq::empty(),
    }
}

/// What a clean run dated `today` gives (see [`clean_project`]).
pub open spec fn clean_v(project: Project, scope: IdScope, today: Seq<char>) -> CleanV {
    let p = prepared_v(project, scope, today);
    let t3 = p.tracks;
    let all = ids_in_tracks(t3, 0);
    let missing = strs_v(project.missing_paths@);
    let cfg = project.clean;
    let t4 = tracks_mapped(t3, |tid: Seq<char>, nodes: Seq<NodeV>| archived_track(nodes, cfg));
    let t5 = tracks_mapped(t4, |tid: Seq<char>, nodes: Seq<NodeV>| nodes_mapped(nodes, |ts: Seq<TaskV>| resolved_list(ts, today)));
    CleanV {
        tracks: t5,
        dates: p.dates + tracks_found(t4, 0, |tid: Seq<char>, nodes: Seq<NodeV>|
            rows_for(tid, nodes_found(nodes, 0, |ts: Seq<TaskV>| unresolved_from(ts, 0)), today, DateKind::Resolved)),
        dangling: tracks_found(t3, 0, |tid: Seq<char>, nodes: Seq<NodeV>|
            with_track(tid, nodes_found(nodes, 0, |ts: Seq<TaskV>| dangling_from(ts, 0, all)))),
        broken: tracks_found(t3, 0, |tid: Seq<char>, nodes: Seq<NodeV>|
            with_track3(tid, nodes_found(nodes, 0, |ts: Seq<TaskV>| broken_from(ts, 0, missing)))),
        suggestions: tracks_found(t3, 0, |tid: Seq<char>, nodes: Seq<NodeV>|
            suggestions_for(tid, nodes_found(nodes, 0, |ts: Seq<TaskV>| suggested_from(ts, 0)))),
        archived: tracks_found(t3, 0, |tid: Seq<char>, nodes: Seq<NodeV>| archived_rows(tid, nodes, cfg)),
        ..p
    }
}

/// Whether a clean result's lists hold the rows `v` gives.
pub open spec fn result_is(r: CleanResult, v: CleanV) -> bool {
    &&& id_rows(r.ids_assigned@) == v.ids
    &&& date_rows(r.dates_assigned@) == v.dates
    &&& dup_rows(r.duplicates_resolved@) == v.dups
    &&& reconcile_rows(r.sections_reconciled@) == v.moves
    &&& dangling_rows(r.dangling_deps@) == v.dangling
    &&& broken_rows(r.broken_refs@) == v.broken
    &&& suggestion_rows(r.suggestions@) == v.suggestions
    &&& archive_rows(r.tasks_archived@) == v.archived
}

/// Fill, resolve duplicates (when the scope mints) and reconcile sections:
/// the passes clean and its lighter sibling share.
fn prepare_project(project: &mut Project, scope: &IdScope, today: &str, result: &mut CleanResult)
    requires
        old(result).ids_assigned@.len() == 0,
        old(result).dates_assigned@.len() == 0,
        old(result).duplicates_resolved@.len() == 0,
        old(result).sections_reconciled@.len() == 0,
    ensures
        crate::project::tracks_view(final(project).tracks@) == prepared_v(*old(project), *scope, today@).tracks,
        id_rows(final(result).ids_assigned@) == prepared_v(*old(project), *scope, today@).ids,
        date_rows(final(result).dates_assigned@) == prepared_v(*old(project), *scope, today@).dates,
        dup_rows(final(result).duplicates_resolved@) == prepared_v(*old(project), *scope, today@).dups,
        reconcile_rows(final(result).sections_reconciled@) == prepared_v(*old(project), *scope, today@).moves,
        final(result).dangling_deps@ == old(result).dangling_deps@,
        final(result).broken_refs@ == old(result).broken_refs@,
        final(result).suggestions@ == old(result).suggestions@,
        final(result).tasks_archived@ == old(result).tasks_archived@,
        final(project).track_order@ == old(project).track_order@,
        final(project).prefixes@ == old(project).prefixes@,
        final(project).id_floors@ == old(project).id_floors@,
        final(project).missing_paths@ == old(project).missing_paths@,
        final(project).archives@ == old(project).archives@,
        final(project).clean == old(project).clean,
{
    let tok = scope_token(scope);
    let ghost c = fill_ctx(*old(project), *scope, today@);
    let ghost t0 = crate::project::tracks_view(project.tracks@);
    assert(id_rows(result.ids_assigned@) =~= Seq::empty());
    assert(date_rows(result.dates_assigned@) =~= Seq::empty());
    assert(dup_rows(result.duplicates_resolved@) =~= Seq::empty());
    assert(reconcile_rows(result.sections_reconciled@) =~= Seq::empty());
    fill_all(&mut project.tracks, &project.prefixes, &project.id_floors, tok, today, &mut result.ids_assigned, &mut result.dates_assigned);
    proof {
        let c2 = FillCtx { prefixes: crate::project::pairs_view(project.prefixes@), floors: floors_view(project.id_floors@),
            tok: match tok { Some(t) => Some(tok_v(t)), None => None }, today: today@ };
        assert(c == c2);
    }
    match tok {
        Some(t) => {
            resolve_duplicate_ids(&mut project.tracks, &project.track_order, &project.prefixes, &project.id_floors, t,
                &mut result.duplicates_resolved);
        },
        None => {
            assert(dup_rows(result.duplicates_resolved@) =~= Seq::empty());
        },
    }
    reconcile_all(&mut project.tracks, &mut result.sections_reconciled);
    proof {
        let p = prepared_v(*old(project), *scope, today@);
        assert(id_rows(result.ids_assigned@) =~= p.ids);
        assert(date_rows(result.dates_assigned@) =~= p.dates);
        assert(reconcile_rows(result.sections_reconciled@) =~= p.moves);
    }
}

/// Clean a project, dated `today`: fill missing IDs (when the scope mints)
/// and `added:` dates; resolve duplicate IDs (when the scope mints); put
/// misplaced top-level tasks in their sections; report dangling deps, broken
/// references and parents whose subtasks are all done; archive done tasks
/// past the threshold; fill missing `resolved:` dates (see [`clean_v`]).
pub fn clean_project_dated(project: &mut Project, scope: IdScope, today: &str) -> (r: CleanResult)
    ensures
        crate::project::tracks_view(final(project).tracks@) == clean_v(*old(project), scope, today@).tracks,
        result_is(r, clean_v(*old(project), scope, today@)),
        final(project).track_order@ == old(project).track_order@,
        final(project).prefixes@ == old(project).prefixes@,
        final(project).id_floors@ == old(project).id_floors@,
        final(project).missing_paths@ == old(project).missing_paths@,
        final(project).clean == old(project).clean,
{
    let mut result = CleanResult::new();
    prepare_project(project, &scope, today, &mut result);
    let ghost p = prepared_v(*old(project), scope, today@);
    let ghost t3 = p.tracks;
    let all = collect_all_task_ids(&project.tracks);
    assert(dangling_rows(result.dangling_deps@) =~= Seq::empty());
    assert(broken_rows(result.broken_refs@) =~= Seq::empty());
    assert(suggestion_rows(result.suggestions@) =~= Seq::empty());
    assert(archive_rows(result.tasks_archived@) =~= Seq::empty());
    deps_all(&project.tracks, &all, &mut result.dangling_deps);
    refs_all(&project.tracks, &project.missing_paths, &mut result.broken_refs);
    suggestions_all(&project.tracks, &mut result.suggestions);
    let cfg = project.clean;
    archive_all(&mut project.tracks, &cfg, &mut project.archives, &mut result.tasks_archived);
    resolved_all(&mut project.tracks, today, &mut result.dates_assigned);
    proof {
        let v = clean_v(*old(project), scope, today@);
        assert(dangling_rows(result.dangling_deps@) =~= v.dangling);
        assert(broken_rows(result.broken_refs@) =~= v.broken);
        assert(suggestion_rows(result.suggestions@) =~= v.suggestions);
        assert(archive_rows(result.tasks_archived@) =~= v.archived);
        assert(date_rows(result.dates_assigned@) =~= v.dates);
    }
    result
}

/// Clean a project, dated today (see [`clean_project_dated`]).
pub fn clean_project(project: &mut Project, scope: IdScope) -> (r: CleanResult)
    ensures
        exists|d: Seq<char>| #[trigger] result_is(r, clean_v(*old(project), scope, d))
            && crate::project::tracks_view(final(project).tracks@) == clean_v(*old(project), scope, d).tracks,
{
    let today = crate::clock::today_str();
    let r = clean_project_dated(project, scope, today.as_str());
    assert(result_is(r, clean_v(*old(project), scope, today@)));
    r
}

/// The tracks a lighter clean touched: those named by a row of any of its
/// lists.
pub open spec fn touched(v: CleanV) -> Set<Seq<char>> {
    v.ids.map_values(|r: (Seq<char>, Seq<char>, Seq<char>)| r.0).to_set()
        + v.dates.map_values(|r: (Seq<char>, Seq<char>, Seq<char>, DateKind)| r.0).to_set()
        + v.dups.map_values(|r: (Seq<char>, Seq<char>, Seq<char>, Seq<char>)| r.0).to_set()
        + v.moves.map_values(|r: (Seq<char>, Seq<char>, SectionKind, SectionKind)| r.0).to_set()
}

fn add_unique(v: &mut Vec<String>, x: &String)
    requires
        strs_v(old(v)@).no_duplicates(),
    ensures
        strs_v(final(v)@).no_duplicates(),
        strs_v(final(v)@).to_set() == strs_v(old(v)@).to_set().insert(x@),
{
    if !string_in(v, x.as_str()) {
        let ghost b = v@;
        v.push(x.clone());
        assert(strs_v(v@) =~= strs_v(b).push(x@));
        proof { strs_v(b).lemma_push_to_set_commute(x@); }
    } else {
        assert(strs_v(v@).to_set() =~= strs_v(v@).to_set().insert(x@));
    }
}

/// Fill missing IDs (when the scope mints) and `added:` dates, resolve
/// duplicate IDs (when the scope mints) and put misplaced tasks in their
/// sections, dated `today`; the IDs of the tracks this changed, each once.
pub fn ensure_ids_and_dates_dated(project: &mut Project, scope: IdScope, today: &str) -> (r: Vec<String>)
    ensures
        crate::project::tracks_view(final(project).tracks@) == prepared_v(*old(project), scope, today@).tracks,
        strs_v(r@).no_duplicates(),
        strs_v(r@).to_set() == touched(prepared_v(*old(project), scope, today@)),
{
    let mut result = CleanResult::new();
    prepare_project(project, &scope, today, &mut result);
    let ghost v = prepared_v(*old(project), scope, today@);
    let mut out: Vec<String> = Vec::new();
    assert(strs_v(out@).to_set() =~= Set::<Seq<char>>::empty());
    let ghost s1 = v.ids.map_values(|r: (Seq<char>, Seq<char>, Seq<char>)| r.0);
    let mut i: usize = 0;
    while i < result.ids_assigned.len()
        invariant
            i <= result.ids_assigned@.len(),
            id_rows(result.ids_assigned@) == v.ids,
            s1 == v.ids.map_values(|r: (Seq<char>, Seq<char>, Seq<char>)| r.0),
            strs_v(out@).no_duplicates(),
            strs_v(out@).to_set() == s1.take(i as int).to_set(),
        decreases result.ids_assigned.len() - i,
    {
        add_unique(&mut out, &result.ids_assigned[i].track_id);
        assert(s1.take(i + 1) =~= s1.take(i as int).push(s1[i as int]));
        proof { s1.take(i as int).lemma_push_to_set_commute(s1[i as int]); }
        i += 1;
    }
    assert(s1.take(i as int) =~= s1);
    let ghost u1 = strs_v(out@).to_set();
    let ghost s2 = v.dates.map_values(|r: (Seq<char>, Seq<char>, Seq<char>, DateKind)| r.0);
    let mut i: usize = 0;
    while i < result.dates_assigned.len()
        invariant
            i <= result.dates_assigned@.len(),
            date_rows(result.dates_assigned@) == v.dates,
            s2 == v.dates.map_values(|r: (Seq<char>, Seq<char>, Seq<char>, DateKind)| r.0),
            strs_v(out@).no_duplicates(),
            strs_v(out@).to_set() == u1 + s2.take(i as int).to_set(),
        decreases result.dates_assigned.len() - i,
    {
        add_unique(&mut out, &result.dates_assigned[i].track_id);
        assert(s2.take(i + 1) =~= s2.take(i as int).push(s2[i as int]));
        proof { s2.take(i as int).lemma_push_to_set_commute(s2[i as int]); }
        assert(strs_v(out@).to_set() =~= u1 + s2.take(i + 1).to_set());
        i += 1;
    }
    assert(s2.take(i as int) =~= s2);
    let ghost u2 = strs_v(out@).to_set();
    let ghost s3 = v.dups.map_values(|r: (Seq<char>, Seq<char>, Seq<char>, Seq<char>)| r.0);
    let mut i: usize = 0;
    while i < result.duplicates_resolved.len()
        invariant
            i <= result.duplicates_resolved@.len(),
            dup_rows(result.duplicates_resolved@) == v.dups,
            s3 == v.dups.map_values(|r: (Seq<char>, Seq<char>, Seq<char>, Seq<char>)| r.0),
            strs_v(out@).no_duplicates(),
            strs_v(out@).to_set() == u2 + s3.take(i as int).to_set(),
        decreases result.duplicates_resolved.len() - i,
    {
        add_unique(&mut out, &result.duplicates_resolved[i].track_id);
        assert(s3.take(i + 1) =~= s3.take(i as int).push(s3[i as int]));
        proof { s3.take(i as int).lemma_push_to_set_commute(s3[i as int]); }
        assert(strs_v(out@).to_set() =~= u2 + s3.take(i + 1).to_set());
        i += 1;
    }
    assert(s3.take(i as int) =~= s3);
    let ghost u3 = strs_v(out@).to_set();
    let ghost s4 = v.moves.map_values(|r: (Seq<char>, Seq<char>, SectionKind, SectionKind)| r.0);
    let mut i: usize = 0;
    while i < result.sections_reconciled.len()
        invariant
            i <= result.sections_reconciled@.len(),
            reconcile_rows(result.sections_reconciled@) == v.moves,
            s4 == v.moves.map_values(|r: (Seq<char>, Seq<char>, SectionKind, SectionKind)| r.0),
            strs_v(out@).no_duplicates(),
            strs_v(out@).to_set() == u3 + s4.take(i as int).to_set(),
        decreases result.sections_reconciled.len() - i,
    {
        add_unique(&mut out, &result.sections_reconciled[i].track_id);
        assert(s4.take(i + 1) =~= s4.take(i as int).push(s4[i as int]));
        proof { s4.take(i as int).lemma_push_to_set_commute(s4[i as int]); }
        assert(strs_v(out@).to_set() =~= u3 + s4.take(i + 1).to_set());
        i += 1;
    }
    assert(s4.take(i as int) =~= s4);
    assert(strs_v(out@).to_set() =~= touched(v));
    out
}

/// The lighter clean, dated today (see [`ensure_ids_and_dates_dated`]).
pub fn ensure_ids_and_dates(project: &mut Project, scope: IdScope) -> (r: Vec<String>)
    ensures
        strs_v(r@).no_duplicates(),
        exists|d: Seq<char>| crate::project::tracks_view(final(project).tracks@) == prepared_v(*old(project), scope, d).tracks
            && strs_v(r@).to_set() == #[trigger] touched(prepared_v(*old(project), scope, d)),
{
    let today = crate::clock::today_str();
    ensure_ids_and_dates_dated(project, scope, today.as_str())
}

/// The IDs of the tracks from `i` on that have misplaced top-level tasks.
pub open spec fn misplaced_tracks(ts: Seq<(Seq<char>, Seq<NodeV>)>, i: int) -> Seq<Seq<char>>
    decreases ts.len() - i,
{
    if i < 0 || i >= ts.len() {
        Seq::empty()
    } else {
        (if moves_nodes(ts[i].1, 0).len() > 0 { seq![ts[i].0] } else { Seq::empty() }) + misplaced_tracks(ts, i + 1)
    }
}

/// Put misplaced top-level tasks in their sections in every track; the IDs
/// of the tracks that changed, in order.
pub fn reconcile_sections(project: &mut Project) -> (r: Vec<String>)
    ensures
        crate::project::tracks_view(final(project).tracks@) == tracks_mapped(crate::project::tracks_view(old(project).tracks@),
            |tid: Seq<char>, nodes: Seq<NodeV>| moves_applied(nodes, moves_nodes(nodes, 0), 0)),
        strs_v(r@) == misplaced_tracks(crate::project::tracks_view(old(project).tracks@), 0),
{
    let ghost f = |tid: Seq<char>, nodes: Seq<NodeV>| moves_applied(nodes, moves_nodes(nodes, 0), 0);
    let ghost tv = crate::project::tracks_view(project.tracks@);
    let mut scratch: Vec<SectionReconcile> = Vec::new();
    let mut out: Vec<String> = Vec::new();
    let mut i: usize = 0;
    while i < project.tracks.len()
        invariant
            i <= project.tracks@.len(),
            project.tracks@.len() == tv.len(),
            tv == crate::project::tracks_view(old(project).tracks@),
            f == (|tid: Seq<char>, nodes: Seq<NodeV>| moves_applied(nodes, moves_nodes(nodes, 0), 0)),
            forall|k: int| i <= k < tv.len() ==> crate::project::tracks_view(project.tracks@)[k] == tv[k],
            forall|k: int| 0 <= k < i ==> crate::project::tracks_view(project.tracks@)[k] == tracks_mapped(tv, f)[k],
            strs_v(out@) + misplaced_tracks(tv, i as int) == misplaced_tracks(tv, 0),
        decreases project.tracks.len() - i,
    {
        let ghost before = project.tracks@;
        let ghost ob = strs_v(out@);
        let (tid, mut tr) = project.tracks.remove(i);
        assert((tid@, tr@) == tv[i as int]);
        if reconcile_sections_for_track(&mut tr, tid.as_str(), &mut scratch) {
            out.push(tid.clone());
            assert(strs_v(out@) =~= ob.push(tid@));
        }
        project.tracks.insert(i, (tid, tr));
        proof {
            assert(project.tracks@ =~= before.update(i as int, project.tracks@[i as int]));
            assert forall|k: int| i + 1 <= k < tv.len() implies crate::project::tracks_view(project.tracks@)[k] == tv[k] by {
                assert(project.tracks@[k] == before[k]);
            }
            assert forall|k: int| 0 <= k < i + 1 implies crate::project::tracks_view(project.tracks@)[k] == tracks_mapped(tv, f)[k] by {
                if k < i {
                    assert(project.tracks@[k] == before[k]);
                }
            }
            assert(strs_v(out@) + misplaced_tracks(tv, i + 1) =~= ob + misplaced_tracks(tv, i as int));
        }
        i += 1;
    }
    assert(crate::project::tracks_view(project.tracks@) =~= tracks_mapped(tv, f));
    assert(strs_v(out@) =~= strs_v(out@) + Seq::<Seq<char>>::empty());
    out
}

} // verus!
