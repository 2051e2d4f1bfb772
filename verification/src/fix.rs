//! Repairs for the findings of a check that have one correct answer.
//!
//! A plan is read off a check's warnings, one repair per warning that has a
//! safe automatic repair and none for the rest; errors are never repaired.

use vstd::prelude::*;
use crate::model::{SectionKind, Task, Inbox, TaskV, Metadata, MetaV, NodeV, ItemV, strs_v, opt_str_v, clone_strings,
    clone_opt_string, metas_v, meta_v, items_v, item_v};
use crate::project::Project;
use crate::model::{Track, TrackNode, tasks_v, node_v, node_tasks, with_tasks};
use crate::task_ops::{find_in_track, edit_in_track, to_task, child_pos_from, set_section};
use crate::model::{section_pos, section_tasks_v, ensured_v};
use crate::clean::track_index_from;
use crate::check::{CheckResult, CheckWarning, WarnV, warn_v, warns_view, ticks_v, count_ticks, unclosed_fence,
    unclosed_fence_v};
use crate::text::{push_str, string_of, decimal, dec_v, chars_of, substring, take_chars, find_char, find_char_from,
    lemma_find_char_from};
use crate::refs::{split_v, split_chars};
use crate::refs::join_v;
use crate::text::str_eq;
use crate::parse::{lines_v, tasks_at, tasks_lines_v, chars_lines, split_lines, parse_tasks, serialize_tasks, lines_to_strings};
use crate::git_setup::join_lines;
use crate::task_id::{structured, is_structured, child_of_id, is_child_of, letters_v, child_stem, child_of_v};
use crate::task_tree::{rekeyed, rekey_map, deps_swapped_nodes, update_dep_references, pairs_v};
use crate::clean::max_ns;

verus! {

/// A single repair: what would change, and enough to apply it.
#[derive(Debug, Clone)]
pub enum Repair {
    /// Append a closing fence to a task note that leaves one open.
    CloseNoteFence { track_id: String, task_id: Option<String>, title: String, fence: String, closer: String },
    /// Append a closing fence to an inbox item body that leaves one open;
    /// `index` counts from one.
    CloseInboxFence { index: usize, title: String, fence: String, closer: String },
    /// Drop the extra archived copies of a task, keeping the first.
    DedupeArchivedTask { task_id: String, total: usize, archives: Vec<String> },
    /// Remove the leftover frontier-store backup.
    RemoveFrontierBackup { path: String },
    /// Give a subtask whose ID does not extend its parent's the next free
    /// child number under that parent.
    RenumberSubtask { track_id: String, task_id: String, parent_id: String },
    /// Move a top-level task into the section its state calls for.
    MoveTaskToSection { track_id: String, task_id: String, from: SectionKind, to: SectionKind },
    /// Clear an in-flight marker that recovery declined to act on.
    ClearInflightMarker { operation: String, command: String },
}

/// The mathematical value of a [`Repair`].
pub enum RepairV {
    CloseNote(Seq<char>, Option<Seq<char>>, Seq<char>, Seq<char>, Seq<char>),
    CloseInbox(nat, Seq<char>, Seq<char>, Seq<char>),
    Dedupe(Seq<char>, nat, Seq<Seq<char>>),
    RemoveBackup(Seq<char>),
    Renumber(Seq<char>, Seq<char>, Seq<char>),
    Move(Seq<char>, Seq<char>, SectionKind, SectionKind),
    ClearInflight(Seq<char>, Seq<char>),
}

impl View for Repair {
    type V = RepairV;

    open spec fn view(&self) -> RepairV {
        match *self {
            Repair::CloseNoteFence { track_id, task_id, title, fence, closer } =>
                RepairV::CloseNote(track_id@, opt_str_v(task_id), title@, fence@, closer@),
            Repair::CloseInboxFence { index, title, fence, closer } =>
                RepairV::CloseInbox(index as nat, title@, fence@, closer@),
            Repair::DedupeArchivedTask { task_id, total, archives } =>
                RepairV::Dedupe(task_id@, total as nat, strs_v(archives@)),
            Repair::RemoveFrontierBackup { path } => RepairV::RemoveBackup(path@),
            Repair::RenumberSubtask { track_id, task_id, parent_id } =>
                RepairV::Renumber(track_id@, task_id@, parent_id@),
            Repair::MoveTaskToSection { track_id, task_id, from, to } =>
                RepairV::Move(track_id@, task_id@, from, to),
            Repair::ClearInflightMarker { operation, command } => RepairV::ClearInflight(operation@, command@),
        }
    }
}

pub open spec fn repairs_view(v: Seq<Repair>) -> Seq<RepairV> {
    v.map_values(|r: Repair| r@)
}

/// A section's heading as it stands in a file.
pub open spec fn section_name_v(kind: SectionKind) -> Seq<char> {
    match kind {
        SectionKind::Backlog => "## Backlog"@,
        SectionKind::Parked => "## Parked"@,
        SectionKind::Done => "## Done"@,
    }
}

/// A section's name as it appears in the file, for messages.
pub fn section_name(kind: SectionKind) -> (r: &'static str)
    ensures
        r@ == section_name_v(kind),
{
    match kind {
        SectionKind::Backlog => "## Backlog",
        SectionKind::Parked => "## Parked",
        SectionKind::Done => "## Done",
    }
}

/// Whether a repair destroys something that cannot be rebuilt from what
/// remains: a deletion, or an ID rewritten out of existence.
pub open spec fn destructive_v(r: RepairV) -> bool {
    match r {
        RepairV::CloseNote(..) | RepairV::CloseInbox(..) | RepairV::Move(..) => false,
        _ => true,
    }
}

/// The parts joined with `sep` between each two.
pub open spec fn join_sep(parts: Seq<Seq<char>>, sep: Seq<char>) -> Seq<char>
    decreases parts.len(),
{
    if parts.len() == 0 {
        Seq::empty()
    } else if parts.len() == 1 {
        parts[0]
    } else {
        join_sep(parts.drop_last(), sep) + sep + parts.last()
    }
}

/// The one line a repair is described by.
pub open spec fn describe_v(r: RepairV) -> Seq<char> {
    match r {
        RepairV::CloseNote(tid, id, title, fence, _) => "["@ + tid + "] "@
            + (match id {
                Some(x) => x,
                None => "\""@ + title + "\""@,
            }) + ": close note fence opened by `"@ + fence + "`"@,
        RepairV::CloseInbox(index, title, fence, _) => "inbox "@ + dec_v(index) + " \""@ + title
            + "\": close body fence opened by `"@ + fence + "`"@,
        RepairV::Dedupe(id, total, archives) => id + ": delete "@ + dec_v((total - 1) as nat)
            + " duplicate archive cop"@ + (if total == 2 { "y"@ } else { "ies"@ }) + " ("@
            + join_sep(archives, ", "@) + "), keeping one"@,
        RepairV::RemoveBackup(path) => "delete stale frontier backup "@ + path,
        RepairV::Renumber(tid, id, parent) => "["@ + tid + "] "@ + id + ": renumber under its parent "@ + parent
            + " (its id does not extend the parent's); deps follow"@,
        RepairV::Move(tid, id, from, to) => "["@ + tid + "] "@ + id + ": move from "@ + section_name_v(from)
            + " to "@ + section_name_v(to) + " (its state belongs there)"@,
        RepairV::ClearInflight(_, command) => "clear the in-flight marker for `"@ + command
            + "` (recovery could not complete it)"@,
    }
}

fn join_strings(parts: &Vec<String>, sep: &str) -> (r: String)
    ensures
        r@ == join_sep(strs_v(parts@), sep@),
{
    let ghost pv = strs_v(parts@);
    let mut out = String::new();
    let mut i: usize = 0;
    while i < parts.len()
        invariant
            i <= parts@.len(),
            pv == strs_v(parts@),
            out@ == join_sep(pv.take(i as int), sep@),
        decreases parts.len() - i,
    {
        assert(pv.take(i + 1).drop_last() =~= pv.take(i as int));
        if i > 0 {
            push_str(&mut out, sep);
        }
        push_str(&mut out, parts[i].as_str());
        i += 1;
        if i == 1 {
            assert(join_sep(pv.take(0), sep@) =~= Seq::<char>::empty());
        }
        assert(out@ =~= join_sep(pv.take(i as int), sep@));
    }
    assert(pv.take(i as int) =~= pv);
    out
}

impl Repair {
    /// Whether applying this destroys something that cannot be
    /// reconstructed from what remains.
    pub fn destructive(&self) -> (r: bool)
        ensures
            r == destructive_v(self@),
    {
        match self {
            Repair::CloseNoteFence { .. } | Repair::CloseInboxFence { .. } | Repair::MoveTaskToSection { .. } => false,
            _ => true,
        }
    }

    /// One line, for the plan the user reads before confirming. A dedupe
    /// repair counts at least the one copy it keeps.
    pub fn describe(&self) -> (r: String)
        requires
            self@ matches RepairV::Dedupe(_, total, _) ==> total >= 1,
        ensures
            r@ == describe_v(self@),
    {
        let mut s = String::new();
        match self {
            Repair::CloseNoteFence { track_id, task_id, title, fence, .. } => {
                push_str(&mut s, "[");
                push_str(&mut s, track_id.as_str());
                push_str(&mut s, "] ");
                match task_id {
                    Some(x) => push_str(&mut s, x.as_str()),
                    None => {
                        push_str(&mut s, "\"");
                        push_str(&mut s, title.as_str());
                        push_str(&mut s, "\"");
                    },
                }
                push_str(&mut s, ": close note fence opened by `");
                push_str(&mut s, fence.as_str());
                push_str(&mut s, "`");
            },
            Repair::CloseInboxFence { index, title, fence, .. } => {
                push_str(&mut s, "inbox ");
                push_str(&mut s, string_of(&decimal(*index)).as_str());
                push_str(&mut s, " \"");
                push_str(&mut s, title.as_str());
                push_str(&mut s, "\": close body fence opened by `");
                push_str(&mut s, fence.as_str());
                push_str(&mut s, "`");
            },
            Repair::DedupeArchivedTask { task_id, total, archives } => {
                push_str(&mut s, task_id.as_str());
                push_str(&mut s, ": delete ");
                push_str(&mut s, string_of(&decimal(*total - 1)).as_str());
                push_str(&mut s, " duplicate archive cop");
                if *total == 2 {
                    push_str(&mut s, "y");
                } else {
                    push_str(&mut s, "ies");
                }
                push_str(&mut s, " (");
                push_str(&mut s, join_strings(archives, ", ").as_str());
                push_str(&mut s, "), keeping one");
            },
            Repair::RemoveFrontierBackup { path } => {
                push_str(&mut s, "delete stale frontier backup ");
                push_str(&mut s, path.as_str());
            },
            Repair::RenumberSubtask { track_id, task_id, parent_id } => {
                push_str(&mut s, "[");
                push_str(&mut s, track_id.as_str());
                push_str(&mut s, "] ");
                push_str(&mut s, task_id.as_str());
                push_str(&mut s, ": renumber under its parent ");
                push_str(&mut s, parent_id.as_str());
                push_str(&mut s, " (its id does not extend the parent's); deps follow");
            },
            Repair::MoveTaskToSection { track_id, task_id, from, to } => {
                push_str(&mut s, "[");
                push_str(&mut s, track_id.as_str());
                push_str(&mut s, "] ");
                push_str(&mut s, task_id.as_str());
                push_str(&mut s, ": move from ");
                push_str(&mut s, section_name(*from));
                push_str(&mut s, " to ");
                push_str(&mut s, section_name(*to));
                push_str(&mut s, " (its state belongs there)");
            },
            Repair::ClearInflightMarker { command, .. } => {
                push_str(&mut s, "clear the in-flight marker for `");
                push_str(&mut s, command.as_str());
                push_str(&mut s, "` (recovery could not complete it)");
            },
        }
        assert(s@ =~= describe_v(self@));
        s
    }

    /// A copy of the repair.
    pub fn duplicate(&self) -> (r: Repair)
        ensures
            r@ == self@,
    {
        match self {
            Repair::CloseNoteFence { track_id, task_id, title, fence, closer } => Repair::CloseNoteFence {
                track_id: track_id.clone(),
                task_id: clone_opt_string(task_id),
                title: title.clone(),
                fence: fence.clone(),
                closer: closer.clone(),
            },
            Repair::CloseInboxFence { index, title, fence, closer } => Repair::CloseInboxFence {
                index: *index,
                title: title.clone(),
                fence: fence.clone(),
                closer: closer.clone(),
            },
            Repair::DedupeArchivedTask { task_id, total, archives } => Repair::DedupeArchivedTask {
                task_id: task_id.clone(),
                total: *total,
                archives: clone_strings(archives),
            },
            Repair::RemoveFrontierBackup { path } => Repair::RemoveFrontierBackup { path: path.clone() },
            Repair::RenumberSubtask { track_id, task_id, parent_id } => Repair::RenumberSubtask {
                track_id: track_id.clone(),
                task_id: task_id.clone(),
                parent_id: parent_id.clone(),
            },
            Repair::MoveTaskToSection { track_id, task_id, from, to } => Repair::MoveTaskToSection {
                track_id: track_id.clone(),
                task_id: task_id.clone(),
                from: *from,
                to: *to,
            },
            Repair::ClearInflightMarker { operation, command } => Repair::ClearInflightMarker {
                operation: operation.clone(),
                command: command.clone(),
            },
        }
    }
}

// ---------------------------------------------------------------------------
// Planning
// ---------------------------------------------------------------------------

/// The closing line for an opening fence: as many backticks as the opener
/// starts with, and never fewer than three.
pub open spec fn closer_v(fence: Seq<char>) -> Seq<char> {
    let n: nat = if ticks_v(fence) < 3 { 3 } else { ticks_v(fence) };
    Seq::new(n, |i: int| '`')
}

/// The closing line for an opening fence (see [`closer_v`]).
pub fn closer_for(opening_fence: &str) -> (r: String)
    ensures
        r@ == closer_v(opening_fence@),
{
    let cs = chars_of(opening_fence);
    let t = count_ticks(&cs);
    let n: usize = if t < 3 { 3 } else { t };
    let mut s = String::new();
    let mut i: usize = 0;
    while i < n
        invariant
            i <= n,
            s@ == Seq::new(i as nat, |k: int| '`'),
        decreases n - i,
    {
        s.push('`');
        i += 1;
        assert(s@ =~= Seq::new(i as nat, |k: int| '`'));
    }
    s
}

/// The repair a warning calls for, if it has one.
pub open spec fn repair_for(w: WarnV) -> Seq<RepairV> {
    match w {
        WarnV::UnclosedNote(tid, id, title, fence) => seq![RepairV::CloseNote(tid, id, title, fence, closer_v(fence))],
        WarnV::UnclosedInbox(index, title, fence) => seq![RepairV::CloseInbox(index, title, fence, closer_v(fence))],
        WarnV::DupArchived(id, total, archives) => seq![RepairV::Dedupe(id, total, archives)],
        WarnV::ChildNotUnder(tid, id, parent) => seq![RepairV::Renumber(tid, id, parent)],
        WarnV::WrongSection(tid, id, expected, actual) => seq![RepairV::Move(tid, id, actual, expected)],
        WarnV::FrontierReset(path) => seq![RepairV::RemoveBackup(path)],
        WarnV::Interrupted(operation, command, _) => seq![RepairV::ClearInflight(operation, command)],
        _ => Seq::empty(),
    }
}

/// The repairs for a list of warnings, in order.
pub open spec fn plan_v(ws: Seq<WarnV>) -> Seq<RepairV>
    decreases ws.len(),
{
    if ws.len() == 0 {
        Seq::empty()
    } else {
        plan_v(ws.drop_last()) + repair_for(ws.last())
    }
}

fn repair_of(w: &CheckWarning) -> (r: Option<Repair>)
    ensures
        repair_for(warn_v(*w)) == match r {
            Some(x) => seq![x@],
            None => Seq::<RepairV>::empty(),
        },
{
    match w {
        CheckWarning::UnclosedNoteFence { track_id, task_id, title, fence } => Some(Repair::CloseNoteFence {
            track_id: track_id.clone(),
            task_id: clone_opt_string(task_id),
            title: title.clone(),
            closer: closer_for(fence.as_str()),
            fence: fence.clone(),
        }),
        CheckWarning::UnclosedInboxFence { index, title, fence } => Some(Repair::CloseInboxFence {
            index: *index,
            title: title.clone(),
            closer: closer_for(fence.as_str()),
            fence: fence.clone(),
        }),
        CheckWarning::DuplicateArchivedId { task_id, total, archives } => Some(Repair::DedupeArchivedTask {
            task_id: task_id.clone(),
            total: *total,
            archives: clone_strings(archives),
        }),
        CheckWarning::ChildIdNotUnderParent { track_id, task_id, parent_id } => Some(Repair::RenumberSubtask {
            track_id: track_id.clone(),
            task_id: task_id.clone(),
            parent_id: parent_id.clone(),
        }),
        CheckWarning::TaskInWrongSection { track_id, task_id, expected, actual } => Some(Repair::MoveTaskToSection {
            track_id: track_id.clone(),
            task_id: task_id.clone(),
            from: *actual,
            to: *expected,
        }),
        CheckWarning::IdFrontierWasReset { path } => Some(Repair::RemoveFrontierBackup { path: path.clone() }),
        CheckWarning::InterruptedOperation { operation, command, .. } => Some(Repair::ClearInflightMarker {
            operation: operation.clone(),
            command: command.clone(),
        }),
        _ => {
            assert(repair_for(warn_v(*w)) =~= Seq::<RepairV>::empty());
            None
        },
    }
}

/// Turn a check's warnings into the repairs that can be applied for them:
/// at most one repair per warning, in order; errors are never repaired.
pub fn plan(check: &CheckResult) -> (r: Vec<Repair>)
    ensures
        repairs_view(r@) == plan_v(warns_view(check.warnings@)),
{
    let ghost wv = warns_view(check.warnings@);
    let mut out: Vec<Repair> = Vec::new();
    let mut i: usize = 0;
    while i < check.warnings.len()
        invariant
            i <= check.warnings@.len(),
            wv == warns_view(check.warnings@),
            repairs_view(out@) == plan_v(wv.take(i as int)),
        decreases check.warnings.len() - i,
    {
        assert(wv.take(i + 1).drop_last() =~= wv.take(i as int));
        assert(wv.take(i + 1).last() == warn_v(check.warnings@[i as int]));
        let ghost ob = out@;
        match repair_of(&check.warnings[i]) {
            Some(x) => {
                out.push(x);
                assert(out@ == ob.push(x));
            },
            None => {},
        }
        i += 1;
        assert(repairs_view(out@) =~= plan_v(wv.take(i as int)));
    }
    assert(wv.take(i as int) =~= wv);
    out
}

/// How many repairs of `rs` are destructive.
pub open spec fn destructive_in(rs: Seq<RepairV>) -> nat
    decreases rs.len(),
{
    if rs.len() == 0 {
        0
    } else {
        destructive_in(rs.drop_last()) + if destructive_v(rs.last()) { 1nat } else { 0nat }
    }
}

/// How many repairs in `plan` cannot be undone.
pub fn destructive_count(plan: &Vec<Repair>) -> (r: usize)
    ensures
        r as nat == destructive_in(repairs_view(plan@)),
{
    let ghost pv = repairs_view(plan@);
    let mut n: usize = 0;
    let mut i: usize = 0;
    while i < plan.len()
        invariant
            i <= plan@.len(),
            pv == repairs_view(plan@),
            n as nat == destructive_in(pv.take(i as int)),
            n <= i,
        decreases plan.len() - i,
    {
        assert(pv.take(i + 1).drop_last() =~= pv.take(i as int));
        if plan[i].destructive() {
            n += 1;
        }
        i += 1;
    }
    assert(pv.take(i as int) =~= pv);
    n
}

// ---------------------------------------------------------------------------
// Closing fences
// ---------------------------------------------------------------------------

/// The index of the first note of `ms[i..]` that leaves a fence open.
pub open spec fn open_note_from(ms: Seq<MetaV>, i: int) -> Option<int>
    decreases ms.len() - i,
{
    if i < 0 || i >= ms.len() {
        None
    } else {
        match ms[i] {
            MetaV::Note(n) => if unclosed_fence_v(n) is Some { Some(i) } else { open_note_from(ms, i + 1) },
            _ => open_note_from(ms, i + 1),
        }
    }
}

/// A task with `closer` appended, on a line of its own, to its first note
/// that leaves a fence open, and marked changed; unchanged when there is no
/// such note.
pub open spec fn fence_closed(t: TaskV, closer: Seq<char>) -> TaskV {
    match open_note_from(t.metadata, 0) {
        Some(k) => match t.metadata[k] {
            MetaV::Note(n) => TaskV { metadata: t.metadata.update(k, MetaV::Note(n.push('\n') + closer)), dirty: true, ..t },
            _ => t,
        },
        None => t,
    }
}

proof fn lemma_open_note(ms: Seq<MetaV>, i: int)
    requires
        0 <= i <= ms.len(),
    ensures
        match open_note_from(ms, i) {
            Some(k) => i <= k < ms.len() && ms[k] is Note,
            None => true,
        },
    decreases ms.len() - i,
{
    if i < ms.len() {
        lemma_open_note(ms, i + 1);
    }
}

/// Append `closer` to the first note on `task` that leaves a fence open.
/// Returns whether anything changed.
pub fn close_open_fence(task: &mut Task, closer: &str) -> (r: bool)
    ensures
        r == (open_note_from(old(task)@.metadata, 0) is Some),
        final(task)@ == fence_closed(old(task)@, closer@),
{
    let ghost mv = metas_v(task.metadata@);
    proof { lemma_open_note(mv, 0); }
    let mut k: usize = 0;
    while k < task.metadata.len()
        invariant
            k <= task.metadata@.len(),
            *task == *old(task),
            mv == metas_v(task.metadata@),
            mv == old(task)@.metadata,
            open_note_from(mv, 0) == open_note_from(mv, k as int),
        decreases task.metadata.len() - k,
    {
        let mut fresh: Option<String> = None;
        if let Metadata::Note(body) = &task.metadata[k] {
            if unclosed_fence(body.as_str()).is_some() {
                let mut nb = body.clone();
                nb.push('\n');
                push_str(&mut nb, closer);
                fresh = Some(nb);
            }
        }
        match fresh {
            Some(nb) => {
                let ghost m = Metadata::Note(nb);
                task.metadata.set(k, Metadata::Note(nb));
                task.dirty = true;
                assert(metas_v(task.metadata@) =~= mv.update(k as int, meta_v(m)));
                assert(task@.subtasks =~= old(task)@.subtasks);
                return true;
            },
            None => {},
        }
        k += 1;
    }
    false
}

/// The state a plan works on: each track's ID and nodes, and the inbox's
/// items.
pub type FixV = (Seq<(Seq<char>, Seq<NodeV>)>, Option<Seq<ItemV>>);

pub open spec fn fix_view(p: Project) -> FixV {
    (crate::project::tracks_view(p.tracks@), match p.inbox {
        Some(ib) => Some(items_v(ib.items@)),
        None => None,
    })
}

pub open spec fn no_inbox() -> Seq<char> {
    "no inbox"@
}

pub open spec fn item_missing(index: nat) -> Seq<char> {
    "inbox item "@ + dec_v(index) + " not found"@
}

pub open spec fn item_renamed(index: nat, title: Seq<char>) -> Seq<char> {
    "inbox item "@ + dec_v(index) + " is no longer \""@ + title + "\""@
}

pub open spec fn item_bodiless(index: nat) -> Seq<char> {
    "inbox item "@ + dec_v(index) + " has no body"@
}

pub open spec fn body_closed() -> Seq<char> {
    "body no longer has an unclosed fence"@
}

/// What closing an inbox item's fence does to the items: the item is the
/// `index`th, counting from one (zero reads as one).
pub open spec fn inbox_fence_step(items: Option<Seq<ItemV>>, index: nat, title: Seq<char>, closer: Seq<char>)
    -> (Option<Seq<ItemV>>, Result<(), Seq<char>>)
{
    let k: int = if index == 0 { 0 } else { index - 1 };
    match items {
        None => (items, Err(no_inbox())),
        Some(v) => if k >= v.len() {
            (items, Err(item_missing(index)))
        } else if v[k].title != title {
            (items, Err(item_renamed(index, title)))
        } else {
            match v[k].body {
                None => (items, Err(item_bodiless(index))),
                Some(b) => if unclosed_fence_v(b) is None {
                    (items, Err(body_closed()))
                } else {
                    (Some(v.update(k, ItemV { body: Some(b.push('\n') + closer), ..v[k] })), Ok(()))
                },
            }
        },
    }
}

fn index_message(head: &str, index: usize, tail: &str) -> (r: String)
    ensures
        r@ == head@ + dec_v(index as nat) + tail@,
{
    let mut s = String::new();
    push_str(&mut s, head);
    push_str(&mut s, string_of(&decimal(index)).as_str());
    push_str(&mut s, tail);
    assert(s@ =~= head@ + dec_v(index as nat) + tail@);
    s
}

fn apply_inbox_fence(project: &mut Project, index: usize, title: &str, closer: &str) -> (r: Result<(), String>)
    ensures
        same_setup(*final(project), *old(project)),
        final(project).tracks == old(project).tracks,
        fix_view(*final(project)).1 == inbox_fence_step(fix_view(*old(project)).1, index as nat, title@, closer@).0,
        match (r, inbox_fence_step(fix_view(*old(project)).1, index as nat, title@, closer@).1) {
            (Ok(()), Ok(())) => true,
            (Err(e), Err(f)) => e@ == f,
            _ => false,
        },
{
    let k: usize = if index == 0 { 0 } else { index - 1 };
    let mut taken: Option<Inbox> = None;
    std::mem::swap(&mut taken, &mut project.inbox);
    let mut ib = match taken {
        None => {
            return Err(String::from_str("no inbox"));
        },
        Some(ib) => ib,
    };
    let ghost iv = items_v(ib.items@);
    if k >= ib.items.len() {
        project.inbox = Some(ib);
        return Err(index_message("inbox item ", index, " not found"));
    }
    assert(iv[k as int] == item_v(ib.items@[k as int]));
    if !crate::text::str_eq(ib.items[k].title.as_str(), title) {
        project.inbox = Some(ib);
        let mut m = index_message("inbox item ", index, " is no longer \"");
        push_str(&mut m, title);
        push_str(&mut m, "\"");
        assert(m@ =~= item_renamed(index as nat, title@));
        return Err(m);
    }
    let mut item = ib.items.remove(k);
    let fresh: Result<String, String> = match &item.body {
        None => Err(index_message("inbox item ", index, " has no body")),
        Some(b) => if unclosed_fence(b.as_str()).is_none() {
            Err(String::from_str("body no longer has an unclosed fence"))
        } else {
            let mut nb = b.clone();
            nb.push('\n');
            push_str(&mut nb, closer);
            Ok(nb)
        },
    };
    match fresh {
        Err(e) => {
            ib.items.insert(k, item);
            assert(ib.items@ =~= old(project).inbox.unwrap().items@);
            project.inbox = Some(ib);
            Err(e)
        },
        Ok(nb) => {
            item.body = Some(nb);
            item.dirty = true;
            ib.items.insert(k, item);
            assert(items_v(ib.items@) =~= iv.update(k as int, ItemV { body: Some(item.body.unwrap()@), ..iv[k as int] }));
            project.inbox = Some(ib);
            Ok(())
        },
    }
}

/// The first task of a subtree, in file order, with this title and a note
/// that leaves a fence open, closed; and whether there was one.
pub open spec fn title_close_t(t: TaskV, title: Seq<char>, closer: Seq<char>) -> (TaskV, bool)
    decreases t, 0int,
{
    if t.title == title && open_note_from(t.metadata, 0) is Some {
        (fence_closed(t, closer), true)
    } else {
        let r = title_close_l(t.subtasks, 0, title, closer);
        if r.1 { (TaskV { subtasks: r.0, ..t }, true) } else { (t, false) }
    }
}

pub open spec fn title_close_l(ts: Seq<TaskV>, i: int, title: Seq<char>, closer: Seq<char>) -> (Seq<TaskV>, bool)
    decreases ts, ts.len() - i,
{
    if i < 0 || i >= ts.len() {
        (ts, false)
    } else {
        let a = title_close_t(ts[i], title, closer);
        if a.1 { (ts.update(i, a.0), true) } else { title_close_l(ts, i + 1, title, closer) }
    }
}

pub open spec fn title_close_nodes(nodes: Seq<NodeV>, i: int, title: Seq<char>, closer: Seq<char>) -> (Seq<NodeV>, bool)
    decreases nodes.len() - i,
{
    if i < 0 || i >= nodes.len() {
        (nodes, false)
    } else if nodes[i] is Section {
        let a = title_close_l(node_tasks(nodes[i]), 0, title, closer);
        if a.1 { (nodes.update(i, with_tasks(nodes[i], a.0)), true) } else { title_close_nodes(nodes, i + 1, title, closer) }
    } else {
        title_close_nodes(nodes, i + 1, title, closer)
    }
}

fn close_by_title_task(t: &mut Task, title: &str, closer: &str) -> (r: bool)
    ensures
        (final(t)@, r) == title_close_t(old(t)@, title@, closer@),
        !r ==> final(t)@ == old(t)@,
    decreases old(t)@, 1int,
{
    if crate::text::str_eq(t.title.as_str(), title) {
        if close_open_fence(t, closer) {
            return true;
        }
    }
    assert(tasks_v(t.subtasks@) =~= old(t)@.subtasks);
    let ghost t1 = t@;
    let r = close_by_title_list(&mut t.subtasks, title, closer);
    assert(t@.subtasks =~= tasks_v(t.subtasks@));
    if r {
        assert(t@ =~= (TaskV { subtasks: title_close_l(old(t)@.subtasks, 0, title@, closer@).0, ..old(t)@ }));
    } else {
        assert(t@ =~= old(t)@);
    }
    r
}

fn close_by_title_list(tasks: &mut Vec<Task>, title: &str, closer: &str) -> (r: bool)
    ensures
        (tasks_v(final(tasks)@), r) == title_close_l(tasks_v(old(tasks)@), 0, title@, closer@),
        !r ==> tasks_v(final(tasks)@) == tasks_v(old(tasks)@),
    decreases tasks_v(old(tasks)@),
{
    let ghost ts = tasks_v(tasks@);
    let mut i: usize = 0;
    while i < tasks.len()
        invariant
            i <= tasks@.len(),
            tasks_v(tasks@) == ts,
            ts == tasks_v(old(tasks)@),
            title_close_l(ts, 0, title@, closer@) == title_close_l(ts, i as int, title@, closer@),
        decreases tasks@.len() - i,
    {
        let mut t = tasks.remove(i);
        assert(t@ == ts[i as int]);
        proof {
            assert(decreases_to!(ts => ts[i as int]));
        }
        let found = close_by_title_task(&mut t, title, closer);
        tasks.insert(i, t);
        if found {
            assert(tasks_v(tasks@) =~= ts.update(i as int, t@));
            return true;
        }
        assert(tasks_v(tasks@) =~= ts);
        i += 1;
    }
    false
}

fn close_by_title_track(track: &mut Track, title: &str, closer: &str) -> (r: bool)
    ensures
        (final(track)@, r) == title_close_nodes(old(track)@, 0, title@, closer@),
{
    let ghost nv = track@;
    let mut i: usize = 0;
    while i < track.nodes.len()
        invariant
            i <= track.nodes@.len(),
            track@ == nv,
            nv == old(track)@,
            title_close_nodes(nv, 0, title@, closer@) == title_close_nodes(nv, i as int, title@, closer@),
        decreases track.nodes.len() - i,
    {
        let is_section = match &track.nodes[i] {
            TrackNode::Section { .. } => true,
            TrackNode::Literal(_) => false,
        };
        assert(track@[i as int] == node_v(track.nodes@[i as int]));
        if is_section {
            let mut tasks = track.swap_section_tasks(i, Vec::new());
            let found = close_by_title_list(&mut tasks, title, closer);
            assert(track@.len() == track.nodes@.len());
            let _ = track.swap_section_tasks(i, tasks);
            let ghost n = nv[i as int];
            assert(with_tasks(with_tasks(n, Seq::empty()), tasks_v(tasks@)) == with_tasks(n, tasks_v(tasks@)));
            if found {
                assert(track@ =~= nv.update(i as int, with_tasks(n, tasks_v(tasks@))));
                return true;
            }
            assert(with_tasks(n, node_tasks(n)) == n);
            assert(track@ =~= nv);
        }
        i += 1;
    }
    false
}

pub open spec fn track_missing(tid: Seq<char>) -> Seq<char> {
    "track '"@ + tid + "' not found"@
}

pub open spec fn task_missing(id: Seq<char>) -> Seq<char> {
    "task '"@ + id + "' not found"@
}

pub open spec fn note_closed() -> Seq<char> {
    "note no longer has an unclosed fence"@
}

pub open spec fn no_open_titled(title: Seq<char>) -> Seq<char> {
    "no task \""@ + title + "\" with an unclosed fence"@
}

/// What closing a task note's fence does to the tracks: the task is found by
/// its ID, or, without one, as the first with the title and an open fence.
pub open spec fn note_fence_step(
    tracks: Seq<(Seq<char>, Seq<NodeV>)>,
    tid: Seq<char>,
    id: Option<Seq<char>>,
    title: Seq<char>,
    closer: Seq<char>,
) -> (Seq<(Seq<char>, Seq<NodeV>)>, Result<(), Seq<char>>) {
    match track_index_from(tracks, tid, 0) {
        None => (tracks, Err(track_missing(tid))),
        Some(k) => match id {
            Some(x) => match find_in_track(tracks[k].1, x) {
                None => (tracks, Err(task_missing(x))),
                Some(t) => (
                    tracks.update(k, (tracks[k].0, edit_in_track(tracks[k].1, x, to_task(fence_closed(t, closer))))),
                    if open_note_from(t.metadata, 0) is Some { Ok(()) } else { Err(note_closed()) },
                ),
            },
            None => {
                let a = title_close_nodes(tracks[k].1, 0, title, closer);
                (tracks.update(k, (tracks[k].0, a.0)), if a.1 { Ok(()) } else { Err(no_open_titled(title)) })
            },
        },
    }
}

fn quoted_message(head: &str, x: &str, tail: &str) -> (r: String)
    ensures
        r@ == head@ + x@ + tail@,
{
    let mut s = String::new();
    push_str(&mut s, head);
    push_str(&mut s, x);
    push_str(&mut s, tail);
    assert(s@ =~= head@ + x@ + tail@);
    s
}

fn apply_note_fence(project: &mut Project, track_id: &str, task_id: &Option<String>, title: &str, closer: &str)
    -> (r: Result<(), String>)
    ensures
        same_setup(*final(project), *old(project)),
        final(project).inbox == old(project).inbox,
        fix_view(*final(project)).0
            == note_fence_step(fix_view(*old(project)).0, track_id@, opt_str_v(*task_id), title@, closer@).0,
        match (r, note_fence_step(fix_view(*old(project)).0, track_id@, opt_str_v(*task_id), title@, closer@).1) {
            (Ok(()), Ok(())) => true,
            (Err(e), Err(f)) => e@ == f,
            _ => false,
        },
{
    let ghost tv = crate::project::tracks_view(project.tracks@);
    let k = match crate::clean::track_index(&project.tracks, track_id) {
        None => {
            return Err(quoted_message("track '", track_id, "' not found"));
        },
        Some(k) => k,
    };
    let (name, mut track) = project.tracks.remove(k);
    assert(tv[k as int] == (name@, track@));
    let r = match task_id {
        Some(x) => {
            match crate::task_ops::find_task_mut_in_track(&mut track, x.as_str()) {
                None => Err(quoted_message("task '", x.as_str(), "' not found")),
                Some(t) => {
                    if close_open_fence(t, closer) {
                        Ok(())
                    } else {
                        Err(String::from_str("note no longer has an unclosed fence"))
                    }
                },
            }
        },
        None => {
            if close_by_title_track(&mut track, title, closer) {
                Ok(())
            } else {
                let mut m = String::from_str("no task \"");
                push_str(&mut m, title);
                push_str(&mut m, "\" with an unclosed fence");
                assert(m@ =~= no_open_titled(title@));
                Err(m)
            }
        },
    };
    let ghost newt = track@;
    project.tracks.insert(k, (name, track));
    assert(crate::project::tracks_view(project.tracks@) =~= tv.update(k as int, (tv[k as int].0, newt)));
    proof {
        match opt_str_v(*task_id) {
            Some(x) => {
                if find_in_track(tv[k as int].1, x) is None {
                    assert(tv.update(k as int, (tv[k as int].0, newt)) =~= tv);
                }
            },
            None => {},
        }
    }
    r
}

// ---------------------------------------------------------------------------
// Moving a task to its section
// ---------------------------------------------------------------------------

/// The kind of the first section, from node `i` on, with a top-level task
/// holding `id`.
pub open spec fn top_section_from(nodes: Seq<NodeV>, i: int, id: Seq<char>) -> Option<SectionKind>
    decreases nodes.len() - i,
{
    if i < 0 || i >= nodes.len() {
        None
    } else {
        match nodes[i] {
            NodeV::Section { kind, tasks, .. } => if child_pos_from(tasks, id, 0) is Some {
                Some(kind)
            } else {
                top_section_from(nodes, i + 1, id)
            },
            NodeV::Literal(_) => top_section_from(nodes, i + 1, id),
        }
    }
}

/// The section a top-level task holding `task_id` sits in, if any.
pub fn top_level_section(track: &Track, task_id: &str) -> (r: Option<SectionKind>)
    ensures
        r == top_section_from(track@, 0, task_id@),
{
    let mut i: usize = 0;
    while i < track.nodes.len()
        invariant
            i <= track.nodes@.len(),
            top_section_from(track@, 0, task_id@) == top_section_from(track@, i as int, task_id@),
        decreases track.nodes.len() - i,
    {
        assert(track@[i as int] == node_v(track.nodes@[i as int]));
        match &track.nodes[i] {
            TrackNode::Section { kind, tasks, .. } => {
                if crate::task_ops::child_position(tasks.as_slice(), task_id).is_some() {
                    return Some(*kind);
                }
            },
            TrackNode::Literal(_) => {},
        }
        i += 1;
    }
    None
}

/// A track after [`crate::task_tree::move_task_between_sections`].
pub open spec fn moved_nodes(old: Seq<NodeV>, id: Seq<char>, from: SectionKind, to: SectionKind) -> Seq<NodeV> {
    let src = section_tasks_v(old, from);
    if section_pos(old, from) is None {
        old
    } else {
        match child_pos_from(src, id, 0) {
            None => old,
            Some(k) => {
                let mid = ensured_v(set_section(old, from, src.remove(k)), to);
                set_section(mid, to, section_tasks_v(mid, to).insert(0, src[k]))
            },
        }
    }
}

/// Whether that move finds the task.
pub open spec fn moves(old: Seq<NodeV>, id: Seq<char>, from: SectionKind) -> bool {
    section_pos(old, from) is Some && child_pos_from(section_tasks_v(old, from), id, 0) is Some
}

pub open spec fn not_top_in(id: Seq<char>, from: SectionKind) -> Seq<char> {
    id + " is no longer a top-level task in "@ + section_name_v(from)
}

/// What moving a top-level task to the section its state calls for does:
/// the section it sits in now is looked up again, and a task already there
/// counts as moved.
pub open spec fn move_step(
    tracks: Seq<(Seq<char>, Seq<NodeV>)>,
    tid: Seq<char>,
    id: Seq<char>,
    from: SectionKind,
    to: SectionKind,
) -> (Seq<(Seq<char>, Seq<NodeV>)>, Result<(), Seq<char>>) {
    match track_index_from(tracks, tid, 0) {
        None => (tracks, Err(not_top_in(id, from))),
        Some(k) => match top_section_from(tracks[k].1, 0, id) {
            None => (tracks, Err(not_top_in(id, from))),
            Some(now) => if now == to {
                (tracks, Ok(()))
            } else {
                (
                    tracks.update(k, (tracks[k].0, moved_nodes(tracks[k].1, id, now, to))),
                    if moves(tracks[k].1, id, now) { Ok(()) } else { Err(not_top_in(id, from)) },
                )
            },
        },
    }
}

fn apply_move(project: &mut Project, track_id: &str, task_id: &str, from: SectionKind, to: SectionKind)
    -> (r: Result<(), String>)
    ensures
        same_setup(*final(project), *old(project)),
        final(project).inbox == old(project).inbox,
        fix_view(*final(project)).0 == move_step(fix_view(*old(project)).0, track_id@, task_id@, from, to).0,
        match (r, move_step(fix_view(*old(project)).0, track_id@, task_id@, from, to).1) {
            (Ok(()), Ok(())) => true,
            (Err(e), Err(f)) => e@ == f,
            _ => false,
        },
{
    let ghost tv = crate::project::tracks_view(project.tracks@);
    let mut reason = String::from_str(task_id);
    push_str(&mut reason, " is no longer a top-level task in ");
    push_str(&mut reason, section_name(from));
    assert(reason@ =~= not_top_in(task_id@, from));
    let k = match crate::clean::track_index(&project.tracks, track_id) {
        None => {
            return Err(reason);
        },
        Some(k) => k,
    };
    let now = match top_level_section(&project.tracks[k].1, task_id) {
        None => {
            return Err(reason);
        },
        Some(now) => now,
    };
    if now == to {
        return Ok(());
    }
    let (name, mut track) = project.tracks.remove(k);
    assert(tv[k as int] == (name@, track@));
    let moved = crate::task_tree::move_task_between_sections(&mut track, task_id, now, to);
    let ghost newt = track@;
    project.tracks.insert(k, (name, track));
    assert(crate::project::tracks_view(project.tracks@) =~= tv.update(k as int, (tv[k as int].0, newt)));
    if moved.is_some() {
        Ok(())
    } else {
        Err(reason)
    }
}

// ---------------------------------------------------------------------------
// Renumbering a subtask under its parent
// ---------------------------------------------------------------------------

/// The last segment of an ID: what follows the last dot after its prefix.
pub open spec fn leaf_seg(id: Seq<char>) -> Seq<char> {
    match find_char_from(id, '-', 0) {
        Some(d) => split_v(id.subrange(d + 1, id.len() as int), '.').last(),
        None => id,
    }
}

/// The token of the namespace an ID's last segment was minted in: its
/// leading letters; empty for the null namespace and for an unstructured ID.
pub open spec fn leaf_tok(id: Seq<char>) -> Seq<char> {
    if structured(id) {
        leaf_seg(id).take(letters_v(leaf_seg(id)) as int)
    } else {
        Seq::empty()
    }
}

/// The token of the namespace an ID's last segment was minted in.
pub fn leaf_token_of(id: &str) -> (r: String)
    ensures
        r@ == leaf_tok(id@),
{
    if !is_structured(id) {
        return String::new();
    }
    let cs = chars_of(id);
    proof { lemma_find_char_from(cs@, '-', 0); }
    let d = match find_char(&cs, '-', 0) {
        Some(d) => d,
        None => {
            return String::new();
        },
    };
    let rest = chars_of(substring(&cs, d + 1, cs.len()).as_str());
    assert(rest@ =~= id@.subrange(d + 1, id@.len() as int));
    let parts = split_chars(&rest, '.');
    proof {
        lemma_find_char_from(rest@, '.', 0);
        assert(split_v(rest@, '.').len() > 0);
    }
    let last = &parts[parts.len() - 1];
    assert(last@ == split_v(rest@, '.').last());
    proof { crate::task_id::lemma_letters(last@); }
    let mut i: usize = 0;
    while i < last.len() && 'a' <= last[i] && last[i] <= 'z'
        invariant
            i <= last@.len(),
            i <= letters_v(last@),
            letters_v(last@) <= last@.len(),
            forall|k: int| 0 <= k < letters_v(last@) ==> 'a' <= #[trigger] last@[k] <= 'z',
            letters_v(last@) < last@.len() ==> !('a' <= last@[letters_v(last@) as int] && last@[letters_v(last@) as int] <= 'z'),
        decreases last.len() - i,
    {
        i += 1;
    }
    let t = take_chars(last.as_slice(), i);
    assert(t@ =~= last@.take(i as int));
    string_of(&t)
}

/// Every `dep:` naming `old_id` in every track, made to name `new_id`.
pub open spec fn swap_tracks(tracks: Seq<(Seq<char>, Seq<NodeV>)>, old_id: Seq<char>, new_id: Seq<char>)
    -> Seq<(Seq<char>, Seq<NodeV>)>
{
    tracks.map_values(|p: (Seq<char>, Seq<NodeV>)| (p.0, deps_swapped_nodes(p.1, old_id, new_id)))
}

/// The tracks after the swaps `pairs[..n]`, in order.
pub open spec fn swap_all(tracks: Seq<(Seq<char>, Seq<NodeV>)>, pairs: Seq<(Seq<char>, Seq<char>)>, n: int)
    -> Seq<(Seq<char>, Seq<NodeV>)>
    decreases n,
{
    if n <= 0 {
        tracks
    } else {
        swap_tracks(swap_all(tracks, pairs, n - 1), pairs[n - 1].0, pairs[n - 1].1)
    }
}

/// Whether a task or one of its descendants changed since it was read.
pub open spec fn dirty_t(t: TaskV) -> bool
    decreases t, 0int,
{
    t.dirty || dirty_l(t.subtasks, 0)
}

pub open spec fn dirty_l(ts: Seq<TaskV>, i: int) -> bool
    decreases ts, ts.len() - i,
{
    if i < 0 || i >= ts.len() {
        false
    } else {
        dirty_t(ts[i]) || dirty_l(ts, i + 1)
    }
}

pub open spec fn dirty_nodes(nodes: Seq<NodeV>, i: int) -> bool
    decreases nodes.len() - i,
{
    if i < 0 || i >= nodes.len() {
        false
    } else {
        dirty_l(node_tasks(nodes[i]), 0) || dirty_nodes(nodes, i + 1)
    }
}

/// The IDs of the tracks of `tracks[..n]` holding a changed task, in order.
pub open spec fn dirty_ids(tracks: Seq<(Seq<char>, Seq<NodeV>)>, n: int) -> Seq<Seq<char>>
    decreases n,
{
    if n <= 0 {
        Seq::empty()
    } else {
        dirty_ids(tracks, n - 1) + if dirty_nodes(tracks[n - 1].1, 0) { seq![tracks[n - 1].0] } else { Seq::<Seq<char>>::empty() }
    }
}

fn task_dirty(t: &Task) -> (r: bool)
    ensures
        r == dirty_t(t@),
    decreases t@, 1int,
{
    assert(tasks_v(t.subtasks@) =~= t@.subtasks);
    t.dirty || list_dirty(t.subtasks.as_slice())
}

fn list_dirty(tasks: &[Task]) -> (r: bool)
    ensures
        r == dirty_l(tasks_v(tasks@), 0),
    decreases tasks_v(tasks@),
{
    let ghost ts = tasks_v(tasks@);
    let mut i: usize = 0;
    while i < tasks.len()
        invariant
            i <= tasks@.len(),
            ts == tasks_v(tasks@),
            dirty_l(ts, 0) == dirty_l(ts, i as int),
        decreases tasks@.len() - i,
    {
        assert(tasks[i as int]@ == ts[i as int]);
        proof {
            assert(decreases_to!(ts => ts[i as int]));
        }
        if task_dirty(&tasks[i]) {
            return true;
        }
        i += 1;
    }
    false
}

fn track_dirty(track: &Track) -> (r: bool)
    ensures
        r == dirty_nodes(track@, 0),
{
    let mut i: usize = 0;
    while i < track.nodes.len()
        invariant
            i <= track.nodes@.len(),
            dirty_nodes(track@, 0) == dirty_nodes(track@, i as int),
        decreases track.nodes.len() - i,
    {
        assert(track@[i as int] == node_v(track.nodes@[i as int]));
        let d = match &track.nodes[i] {
            TrackNode::Section { tasks, .. } => list_dirty(tasks.as_slice()),
            TrackNode::Literal(_) => false,
        };
        if d {
            return true;
        }
        i += 1;
    }
    false
}

/// The IDs of the tracks holding a changed task, in order.
pub fn dirty_track_ids(tracks: &Vec<(String, Track)>) -> (r: Vec<String>)
    ensures
        strs_v(r@) == dirty_ids(crate::project::tracks_view(tracks@), tracks@.len() as int),
{
    let ghost tv = crate::project::tracks_view(tracks@);
    let mut out: Vec<String> = Vec::new();
    let mut i: usize = 0;
    while i < tracks.len()
        invariant
            i <= tracks@.len(),
            tv == crate::project::tracks_view(tracks@),
            strs_v(out@) == dirty_ids(tv, i as int),
        decreases tracks.len() - i,
    {
        assert(tv[i as int] == (tracks@[i as int].0@, tracks@[i as int].1@));
        if track_dirty(&tracks[i].1) {
            let ghost b = out@;
            let x = tracks[i].0.clone();
            out.push(x);
            assert(out@ == b.push(x));
        }
        i += 1;
        assert(strs_v(out@) =~= dirty_ids(tv, i as int));
    }
    out
}

pub open spec fn parent_missing(p: Seq<char>) -> Seq<char> {
    "parent '"@ + p + "' not found"@
}

pub open spec fn parent_unstructured(p: Seq<char>) -> Seq<char> {
    "parent '"@ + p + "' has no structured id"@
}

pub open spec fn not_a_subtask(id: Seq<char>, p: Seq<char>) -> Seq<char> {
    "'"@ + id + "' is no longer a subtask of '"@ + p + "'"@
}

pub open spec fn extends_already(id: Seq<char>, p: Seq<char>) -> Seq<char> {
    "'"@ + id + "' already extends '"@ + p + "'"@
}

pub open spec fn no_free_number(id: Seq<char>, p: Seq<char>) -> Seq<char> {
    "'"@ + id + "' has no free number under '"@ + p + "'"@
}

/// What renumbering a subtask under its parent does: the new ID is the next
/// free child number of the parent in the namespace the subtask's own ID
/// carries; the subtask's subtree is rekeyed under it and every `dep:` on an
/// old ID follows. On success, the IDs of the tracks left holding a changed
/// task.
pub open spec fn renumber_step(
    tracks: Seq<(Seq<char>, Seq<NodeV>)>,
    tid: Seq<char>,
    id: Seq<char>,
    parent: Seq<char>,
) -> (Seq<(Seq<char>, Seq<NodeV>)>, Result<Seq<Seq<char>>, Seq<char>>) {
    match track_index_from(tracks, tid, 0) {
        None => (tracks, Err(track_missing(tid))),
        Some(k) => match find_in_track(tracks[k].1, parent) {
            None => (tracks, Err(parent_missing(parent))),
            Some(p) => if !structured(parent) {
                (tracks, Err(parent_unstructured(parent)))
            } else if child_pos_from(p.subtasks, id, 0) is None {
                (tracks, Err(not_a_subtask(id, parent)))
            } else if child_of_id(id, parent) {
                (tracks, Err(extends_already(id, parent)))
            } else {
                let tok = leaf_tok(id);
                let m = max_ns(p.subtasks, child_stem(parent, tok));
                if m >= usize::MAX {
                    (tracks, Err(no_free_number(id, parent)))
                } else {
                    let nid = child_of_v(parent, m + 1, tok);
                    match find_in_track(tracks[k].1, id) {
                        None => (tracks, Err(not_a_subtask(id, parent))),
                        Some(t) => {
                            let moved = tracks.update(k, (tracks[k].0, edit_in_track(tracks[k].1, id, to_task(rekeyed(t, nid)))));
                            let pairs = rekey_map(t, nid);
                            let after = swap_all(moved, pairs, pairs.len() as int);
                            (after, Ok(dirty_ids(after, after.len() as int)))
                        },
                    }
                }
            },
        },
    }
}

fn apply_renumber(project: &mut Project, track_id: &str, task_id: &str, parent_id: &str)
    -> (r: Result<Vec<String>, String>)
    ensures
        same_setup(*final(project), *old(project)),
        final(project).inbox == old(project).inbox,
        fix_view(*final(project)).0 == renumber_step(fix_view(*old(project)).0, track_id@, task_id@, parent_id@).0,
        match (r, renumber_step(fix_view(*old(project)).0, track_id@, task_id@, parent_id@).1) {
            (Ok(v), Ok(w)) => strs_v(v@) == w,
            (Err(e), Err(f)) => e@ == f,
            _ => false,
        },
{
    let ghost tv = crate::project::tracks_view(project.tracks@);
    let k = match crate::clean::track_index(&project.tracks, track_id) {
        None => {
            return Err(quoted_message("track '", track_id, "' not found"));
        },
        Some(k) => k,
    };
    assert(tv[k as int] == (project.tracks@[k as int].0@, project.tracks@[k as int].1@));
    let mut not_sub = quoted_message("'", task_id, "' is no longer a subtask of '");
    push_str(&mut not_sub, parent_id);
    push_str(&mut not_sub, "'");
    assert(not_sub@ =~= not_a_subtask(task_id@, parent_id@));
    let nid = {
        let parent = match crate::task_ops::find_task_in_track(&project.tracks[k].1, parent_id) {
            None => {
                return Err(quoted_message("parent '", parent_id, "' not found"));
            },
            Some(p) => p,
        };
        if !is_structured(parent_id) {
            return Err(quoted_message("parent '", parent_id, "' has no structured id"));
        }
        assert(tasks_v(parent.subtasks@) =~= parent@.subtasks);
        if crate::task_ops::child_position(parent.subtasks.as_slice(), task_id).is_none() {
            return Err(not_sub);
        }
        if is_child_of(task_id, parent_id) {
            let mut m = quoted_message("'", task_id, "' already extends '");
            push_str(&mut m, parent_id);
            push_str(&mut m, "'");
            assert(m@ =~= extends_already(task_id@, parent_id@));
            return Err(m);
        }
        let tok = leaf_token_of(task_id);
        let mut stem = String::from_str(parent_id);
        stem.push('.');
        push_str(&mut stem, tok.as_str());
        assert(stem@ =~= child_stem(parent_id@, tok@));
        let m = crate::clean::max_number(&parent.subtasks, stem.as_str());
        if m == usize::MAX {
            let mut e = quoted_message("'", task_id, "' has no free number under '");
            push_str(&mut e, parent_id);
            push_str(&mut e, "'");
            assert(e@ =~= no_free_number(task_id@, parent_id@));
            return Err(e);
        }
        push_str(&mut stem, string_of(&decimal(m + 1)).as_str());
        assert(stem@ =~= child_of_v(parent_id@, (m + 1) as nat, tok@));
        stem
    };
    let (name, mut track) = project.tracks.remove(k);
    let maps = match crate::task_ops::find_task_mut_in_track(&mut track, task_id) {
        None => {
            project.tracks.insert(k, (name, track));
            assert(crate::project::tracks_view(project.tracks@) =~= tv);
            return Err(not_sub);
        },
        Some(t) => crate::task_tree::rekey_subtree(t, nid.as_str()),
    };
    let ghost newt = track@;
    project.tracks.insert(k, (name, track));
    let ghost moved = tv.update(k as int, (tv[k as int].0, newt));
    assert(crate::project::tracks_view(project.tracks@) =~= moved);
    let ghost pv = pairs_v(maps@);
    let mut j: usize = 0;
    while j < maps.len()
        invariant
            j <= maps@.len(),
            pv == pairs_v(maps@),
            crate::project::tracks_view(project.tracks@) == swap_all(moved, pv, j as int),
            project.inbox == old(project).inbox,
            same_setup(*project, *old(project)),
        decreases maps.len() - j,
    {
        let ghost before = project.tracks@;
        update_dep_references(project.tracks.as_mut_slice(), maps[j].0.as_str(), maps[j].1.as_str());
        assert(crate::project::tracks_view(project.tracks@)
            =~= swap_tracks(crate::project::tracks_view(before), pv[j as int].0, pv[j as int].1));
        j += 1;
    }
    Ok(dirty_track_ids(&project.tracks))
}

// ---------------------------------------------------------------------------
// Applying a plan
// ---------------------------------------------------------------------------

/// Outcome of applying a plan.
#[derive(Debug)]
pub struct FixResult {
    pub applied: Vec<Repair>,
    /// Repairs that could not be applied, with why.
    pub skipped: Vec<SkippedRepair>,
    /// Tracks changed beyond the one a repair names: renumbering a subtask
    /// rewrites `dep:` lines wherever they name an old ID.
    pub also_touched: Vec<String>,
}

#[derive(Debug)]
pub struct SkippedRepair {
    pub repair: Repair,
    pub reason: String,
}

impl Default for FixResult {
    fn default() -> (r: FixResult)
        ensures
            r.applied@.len() == 0,
            r.skipped@.len() == 0,
            r.also_touched@.len() == 0,
    {
        FixResult { applied: Vec::new(), skipped: Vec::new(), also_touched: Vec::new() }
    }
}

pub open spec fn skipped_view(v: Seq<SkippedRepair>) -> Seq<(RepairV, Seq<char>)> {
    v.map_values(|s: SkippedRepair| (s.repair@, s.reason@))
}

pub open spec fn disk_view(v: Seq<Result<(), String>>) -> Seq<Result<(), Seq<char>>> {
    v.map_values(|r: Result<(), String>| match r {
        Ok(()) => Ok(()),
        Err(e) => Err(e@),
    })
}

pub open spec fn with_none(r: Result<(), Seq<char>>) -> Result<Seq<Seq<char>>, Seq<char>> {
    match r {
        Ok(()) => Ok(Seq::empty()),
        Err(e) => Err(e),
    }
}

/// One repair applied to the state: the new state, and on success the
/// tracks it changed beyond the one it names. The repairs that work on files
/// (archive copies, the frontier backup, the in-flight marker) take the
/// outcome `disk` that doing so had.
pub open spec fn fix_step(s: FixV, r: RepairV, disk: Result<(), Seq<char>>) -> (FixV, Result<Seq<Seq<char>>, Seq<char>>) {
    match r {
        RepairV::CloseNote(tid, id, title, _, closer) => {
            let a = note_fence_step(s.0, tid, id, title, closer);
            ((a.0, s.1), with_none(a.1))
        },
        RepairV::CloseInbox(index, title, _, closer) => {
            let a = inbox_fence_step(s.1, index, title, closer);
            ((s.0, a.0), with_none(a.1))
        },
        RepairV::Move(tid, id, from, to) => {
            let a = move_step(s.0, tid, id, from, to);
            ((a.0, s.1), with_none(a.1))
        },
        RepairV::Renumber(tid, id, parent) => {
            let a = renumber_step(s.0, tid, id, parent);
            ((a.0, s.1), a.1)
        },
        _ => (s, with_none(disk)),
    }
}

/// The repairs `plan[..n]` applied in order: the state, the repairs that
/// landed, those skipped with why, and the tracks changed besides.
pub open spec fn fix_run(s0: FixV, plan: Seq<RepairV>, disk: Seq<Result<(), Seq<char>>>, n: int)
    -> (FixV, Seq<RepairV>, Seq<(RepairV, Seq<char>)>, Seq<Seq<char>>)
    decreases n,
{
    if n <= 0 {
        (s0, Seq::empty(), Seq::empty(), Seq::empty())
    } else {
        let prev = fix_run(s0, plan, disk, n - 1);
        let st = fix_step(prev.0, plan[n - 1], disk[n - 1]);
        match st.1 {
            Ok(t) => (st.0, prev.1.push(plan[n - 1]), prev.2, prev.3 + t),
            Err(e) => (st.0, prev.1, prev.2.push((plan[n - 1], e)), prev.3),
        }
    }
}

/// Whether two projects agree on everything but their tracks and inbox.
pub open spec fn same_setup(a: Project, b: Project) -> bool {
    &&& a.track_order == b.track_order
    &&& a.track_states == b.track_states
    &&& a.prefixes == b.prefixes
    &&& a.clean == b.clean
    &&& a.id_floors == b.id_floors
    &&& a.archives == b.archives
    &&& a.missing_paths == b.missing_paths
}

fn apply_one(project: &mut Project, repair: &Repair, disk: &Result<(), String>) -> (r: Result<Vec<String>, String>)
    ensures
        same_setup(*final(project), *old(project)),
        fix_view(*final(project)) == fix_step(fix_view(*old(project)), repair@, disk_view(seq![*disk])[0]).0,
        match (r, fix_step(fix_view(*old(project)), repair@, disk_view(seq![*disk])[0]).1) {
            (Ok(v), Ok(w)) => strs_v(v@) == w,
            (Err(e), Err(f)) => e@ == f,
            _ => false,
        },
{
    let none: Vec<String> = Vec::new();
    assert(strs_v(none@) =~= Seq::<Seq<char>>::empty());
    match repair {
        Repair::CloseNoteFence { track_id, task_id, title, closer, .. } => {
            match apply_note_fence(project, track_id.as_str(), task_id, title.as_str(), closer.as_str()) {
                Ok(()) => Ok(none),
                Err(e) => Err(e),
            }
        },
        Repair::CloseInboxFence { index, title, closer, .. } => {
            match apply_inbox_fence(project, *index, title.as_str(), closer.as_str()) {
                Ok(()) => Ok(none),
                Err(e) => Err(e),
            }
        },
        Repair::MoveTaskToSection { track_id, task_id, from, to } => {
            match apply_move(project, track_id.as_str(), task_id.as_str(), *from, *to) {
                Ok(()) => Ok(none),
                Err(e) => Err(e),
            }
        },
        Repair::RenumberSubtask { track_id, task_id, parent_id } => {
            apply_renumber(project, track_id.as_str(), task_id.as_str(), parent_id.as_str())
        },
        _ => match disk {
            Ok(()) => Ok(none),
            Err(e) => Err(e.clone()),
        },
    }
}

fn append_strings(out: &mut Vec<String>, more: &Vec<String>)
    ensures
        strs_v(final(out)@) == strs_v(old(out)@) + strs_v(more@),
{
    let ghost o0 = strs_v(out@);
    let mut j: usize = 0;
    while j < more.len()
        invariant
            j <= more@.len(),
            strs_v(out@) == o0 + strs_v(more@).take(j as int),
        decreases more.len() - j,
    {
        let ghost b = out@;
        let y = more[j].clone();
        out.push(y);
        assert(out@ == b.push(y));
        assert(strs_v(out@) =~= strs_v(b).push(y@));
        assert(strs_v(more@).take(j + 1) =~= strs_v(more@).take(j as int).push(more@[j as int]@));
        j += 1;
    }
    assert(strs_v(more@).take(j as int) =~= strs_v(more@));
}

/// Apply `plan` to `project` in memory, in order, returning what landed and
/// what was skipped with why. A repair whose finding no longer holds is
/// skipped, not forced. The repairs that work on files take the outcome
/// doing so had from `disk`, one per repair of the plan.
pub fn apply(project: &mut Project, plan: &Vec<Repair>, disk: &Vec<Result<(), String>>) -> (r: FixResult)
    requires
        disk@.len() == plan@.len(),
    ensures
        same_setup(*final(project), *old(project)),
        ({
            let run = fix_run(fix_view(*old(project)), repairs_view(plan@), disk_view(disk@), plan@.len() as int);
            &&& fix_view(*final(project)) == run.0
            &&& repairs_view(r.applied@) == run.1
            &&& skipped_view(r.skipped@) == run.2
            &&& strs_v(r.also_touched@) == run.3
        }),
{
    let ghost s0 = fix_view(*project);
    let ghost pv = repairs_view(plan@);
    let ghost dv = disk_view(disk@);
    let mut result = FixResult::default();
    assert(repairs_view(result.applied@) =~= Seq::<RepairV>::empty());
    assert(skipped_view(result.skipped@) =~= Seq::<(RepairV, Seq<char>)>::empty());
    assert(strs_v(result.also_touched@) =~= Seq::<Seq<char>>::empty());
    let mut i: usize = 0;
    while i < plan.len()
        invariant
            i <= plan@.len(),
            disk@.len() == plan@.len(),
            pv == repairs_view(plan@),
            dv == disk_view(disk@),
            s0 == fix_view(*old(project)),
            same_setup(*project, *old(project)),
            ({
                let run = fix_run(s0, pv, dv, i as int);
                &&& fix_view(*project) == run.0
                &&& repairs_view(result.applied@) == run.1
                &&& skipped_view(result.skipped@) == run.2
                &&& strs_v(result.also_touched@) == run.3
            }),
        decreases plan.len() - i,
    {
        assert(disk_view(seq![disk@[i as int]])[0] == dv[i as int]);
        assert(plan@[i as int]@ == pv[i as int]);
        match apply_one(project, &plan[i], &disk[i]) {
            Ok(touched) => {
                let ghost ab = result.applied@;
                let ghost tb = result.also_touched@;
                let x = plan[i].duplicate();
                result.applied.push(x);
                assert(result.applied@ == ab.push(x));
                assert(repairs_view(result.applied@) =~= repairs_view(ab).push(pv[i as int]));
                append_strings(&mut result.also_touched, &touched);
            },
            Err(reason) => {
                let ghost sb = result.skipped@;
                let x = SkippedRepair { repair: plan[i].duplicate(), reason };
                result.skipped.push(x);
                assert(result.skipped@ == sb.push(x));
                assert(skipped_view(result.skipped@) =~= skipped_view(sb).push((pv[i as int], x.reason@)));
            },
        }
        i += 1;
    }
    result
}

// ---------------------------------------------------------------------------
// What a run touched
// ---------------------------------------------------------------------------

/// Whether `a` comes before `b` in character order.
pub open spec fn str_lt(a: Seq<char>, b: Seq<char>) -> bool
    decreases a.len(),
{
    if b.len() == 0 {
        false
    } else if a.len() == 0 {
        true
    } else if a[0] != b[0] {
        (a[0] as int) < (b[0] as int)
    } else {
        str_lt(a.drop_first(), b.drop_first())
    }
}

/// Whether each string comes before every later one.
pub open spec fn strictly_sorted(v: Seq<Seq<char>>) -> bool {
    forall|i: int, j: int| 0 <= i < j < v.len() ==> str_lt(#[trigger] v[i], #[trigger] v[j])
}

/// Character order is total and strict.
pub proof fn lemma_lt_total(a: Seq<char>, b: Seq<char>)
    ensures
        a == b || str_lt(a, b) || str_lt(b, a),
        !(str_lt(a, b) && str_lt(b, a)),
        !str_lt(a, a),
    decreases a.len(),
{
    if a.len() == 0 {
        if b.len() == 0 {
            assert(a =~= b);
        }
    } else if b.len() == 0 {
        lemma_lt_total(a.drop_first(), a.drop_first());
    } else if a[0] != b[0] {
        lemma_lt_total(a.drop_first(), a.drop_first());
    } else {
        lemma_lt_total(a.drop_first(), b.drop_first());
        lemma_lt_total(a.drop_first(), a.drop_first());
        if a.drop_first() == b.drop_first() {
            assert(a =~= seq![a[0]] + a.drop_first());
            assert(b =~= seq![b[0]] + b.drop_first());
        }
    }
}

/// Character order is transitive.
pub proof fn lemma_lt_trans(a: Seq<char>, b: Seq<char>, c: Seq<char>)
    requires
        str_lt(a, b),
        str_lt(b, c),
    ensures
        str_lt(a, c),
    decreases a.len(),
{
    if a.len() > 0 && a[0] == b[0] && b[0] == c[0] {
        lemma_lt_trans(a.drop_first(), b.drop_first(), c.drop_first());
    }
}

pub(crate) fn lt_exec(a: &Vec<char>, b: &Vec<char>) -> (r: bool)
    ensures
        r == str_lt(a@, b@),
{
    assert(a@.subrange(0, a@.len() as int) =~= a@);
    assert(b@.subrange(0, b@.len() as int) =~= b@);
    let mut i: usize = 0;
    while i < a.len() && i < b.len() && a[i] == b[i]
        invariant
            i <= a@.len(),
            i <= b@.len(),
            str_lt(a@, b@) == str_lt(a@.subrange(i as int, a@.len() as int), b@.subrange(i as int, b@.len() as int)),
        decreases a.len() - i,
    {
        assert(a@.subrange(i as int, a@.len() as int).drop_first() =~= a@.subrange(i + 1, a@.len() as int));
        assert(b@.subrange(i as int, b@.len() as int).drop_first() =~= b@.subrange(i + 1, b@.len() as int));
        i += 1;
    }
    if i >= b.len() {
        false
    } else if i >= a.len() {
        true
    } else {
        a[i] < b[i]
    }
}

/// The tracks a repair names, for those that change one.
pub open spec fn named_track(r: RepairV) -> Seq<Seq<char>> {
    match r {
        RepairV::CloseNote(tid, ..) => seq![tid],
        RepairV::Renumber(tid, ..) => seq![tid],
        RepairV::Move(tid, ..) => seq![tid],
        _ => Seq::empty(),
    }
}

pub open spec fn named_tracks(rs: Seq<RepairV>) -> Seq<Seq<char>>
    decreases rs.len(),
{
    if rs.len() == 0 {
        Seq::empty()
    } else {
        named_tracks(rs.drop_last()) + named_track(rs.last())
    }
}

/// Put `x` into a strictly sorted list unless it holds it already.
pub(crate) fn insert_sorted(out: &mut Vec<String>, x: String)
    requires
        strictly_sorted(strs_v(old(out)@)),
    ensures
        strictly_sorted(strs_v(final(out)@)),
        final(out)@.len() <= old(out)@.len() + 1,
        forall|y: Seq<char>| strs_v(final(out)@).contains(y) <==> (strs_v(old(out)@).contains(y) || y == x@),
{
    let ghost ov = strs_v(out@);
    let xc = chars_of(x.as_str());
    let mut j: usize = 0;
    while j < out.len()
        invariant
            j <= out@.len(),
            out@ == old(out)@,
            ov == strs_v(out@),
            strictly_sorted(ov),
            xc@ == x@,
            forall|k: int| 0 <= k < j ==> str_lt(#[trigger] ov[k], x@),
        decreases out.len() - j,
    {
        let oc = chars_of(out[j].as_str());
        if !lt_exec(&oc, &xc) {
            proof { lemma_lt_total(x@, ov[j as int]); }
            if crate::text::str_eq(out[j].as_str(), x.as_str()) {
                assert(ov[j as int] == x@);
                return;
            }
            assert(ov[j as int] != x@);
            assert(str_lt(x@, ov[j as int]));
            let ghost before = out@;
            out.insert(j, x);
            proof {
                let nv = strs_v(out@);
                assert(nv =~= ov.insert(j as int, x@));
                assert forall|a: int, b: int| 0 <= a < b < nv.len() implies str_lt(#[trigger] nv[a], #[trigger] nv[b]) by {
                    if b == j as int {
                        assert(nv[a] == ov[a]);
                    } else if a == j as int {
                        assert(nv[b] == ov[b - 1]);
                        if b - 1 > j as int {
                            assert(str_lt(ov[j as int], ov[b - 1]));
                            lemma_lt_trans(x@, ov[j as int], ov[b - 1]);
                        }
                    } else if a < j as int && b > j as int {
                        assert(nv[a] == ov[a]);
                        assert(nv[b] == ov[b - 1]);
                        assert(str_lt(ov[a], ov[b - 1]));
                    } else if a > j as int {
                        assert(nv[a] == ov[a - 1] && nv[b] == ov[b - 1]);
                    } else {
                        assert(nv[a] == ov[a] && nv[b] == ov[b]);
                    }
                }
                assert forall|y: Seq<char>| nv.contains(y) <==> (ov.contains(y) || y == x@) by {
                    if nv.contains(y) {
                        let q = choose|q: int| 0 <= q < nv.len() && nv[q] == y;
                        if q < j as int {
                            assert(ov[q] == y);
                        } else if q > j as int {
                            assert(ov[q - 1] == y);
                        }
                    }
                    if ov.contains(y) {
                        let q = choose|q: int| 0 <= q < ov.len() && ov[q] == y;
                        if q < j as int {
                            assert(nv[q] == y);
                        } else {
                            assert(nv[q + 1] == y);
                        }
                    }
                    if y == x@ {
                        assert(nv[j as int] == y);
                    }
                }
            }
            return;
        }
        j += 1;
    }
    let ghost before = out@;
    out.push(x);
    proof {
        let nv = strs_v(out@);
        assert(nv =~= ov.push(x@));
        assert forall|y: Seq<char>| nv.contains(y) <==> (ov.contains(y) || y == x@) by {
            if nv.contains(y) {
                let q = choose|q: int| 0 <= q < nv.len() && nv[q] == y;
                if q < ov.len() {
                    assert(ov[q] == y);
                }
            }
            if ov.contains(y) {
                let q = choose|q: int| 0 <= q < ov.len() && ov[q] == y;
                assert(nv[q] == y);
            }
            if y == x@ {
                assert(nv[ov.len() as int] == y);
            }
        }
    }
}

/// Which tracks a run touched, so the caller knows what to save: those its
/// applied repairs name and those changed besides, each once, in character
/// order.
pub fn tracks_touched(result: &FixResult) -> (r: Vec<String>)
    ensures
        strictly_sorted(strs_v(r@)),
        forall|y: Seq<char>| strs_v(r@).contains(y) <==> (named_tracks(repairs_view(result.applied@)).contains(y)
            || strs_v(result.also_touched@).contains(y)),
{
    let ghost av = repairs_view(result.applied@);
    let mut out: Vec<String> = Vec::new();
    let mut i: usize = 0;
    while i < result.applied.len()
        invariant
            i <= result.applied@.len(),
            av == repairs_view(result.applied@),
            strictly_sorted(strs_v(out@)),
            forall|y: Seq<char>| strs_v(out@).contains(y) <==> named_tracks(av.take(i as int)).contains(y),
        decreases result.applied.len() - i,
    {
        assert(av.take(i + 1).drop_last() =~= av.take(i as int));
        assert(av.take(i + 1).last() == result.applied@[i as int]@);
        let name: Option<String> = match &result.applied[i] {
            Repair::CloseNoteFence { track_id, .. } => Some(track_id.clone()),
            Repair::RenumberSubtask { track_id, .. } => Some(track_id.clone()),
            Repair::MoveTaskToSection { track_id, .. } => Some(track_id.clone()),
            _ => None,
        };
        let ghost nt = named_tracks(av.take(i as int));
        match name {
            Some(x) => {
                proof {
                    assert(named_tracks(av.take(i + 1)) =~= nt.push(x@));
                }
                insert_sorted(&mut out, x);
                proof {
                    assert forall|y: Seq<char>| strs_v(out@).contains(y) <==> named_tracks(av.take(i + 1)).contains(y) by {
                        if y == x@ {
                            assert(nt.push(x@)[nt.len() as int] == y);
                        }
                        if nt.push(x@).contains(y) && y != x@ {
                            let q = choose|q: int| 0 <= q < nt.push(x@).len() && nt.push(x@)[q] == y;
                            assert(nt[q] == y);
                        }
                        if nt.contains(y) {
                            let q = choose|q: int| 0 <= q < nt.len() && nt[q] == y;
                            assert(nt.push(x@)[q] == y);
                        }
                    }
                }
            },
            None => {
                assert(named_tracks(av.take(i + 1)) =~= nt);
            },
        }
        i += 1;
    }
    assert(av.take(i as int) =~= av);
    let ghost nt = named_tracks(av);
    let ghost tv = strs_v(result.also_touched@);
    let mut j: usize = 0;
    while j < result.also_touched.len()
        invariant
            j <= result.also_touched@.len(),
            tv == strs_v(result.also_touched@),
            strictly_sorted(strs_v(out@)),
            forall|y: Seq<char>| strs_v(out@).contains(y) <==> (nt.contains(y) || tv.take(j as int).contains(y)),
        decreases result.also_touched.len() - j,
    {
        let x = result.also_touched[j].clone();
        let ghost xv = x@;
        assert(xv == tv[j as int]);
        let ghost a0 = tv.take(j as int);
        let ghost before = strs_v(out@);
        insert_sorted(&mut out, x);
        proof {
            assert(forall|y: Seq<char>| before.contains(y) <==> (nt.contains(y) || a0.contains(y)));
            assert(tv.take(j + 1) =~= tv.take(j as int).push(xv));
            assert forall|y: Seq<char>| strs_v(out@).contains(y) <==> (nt.contains(y) || tv.take(j + 1).contains(y)) by {
                let a = tv.take(j as int);
                if y == xv {
                    assert(a.push(xv)[a.len() as int] == y);
                }
                if a.push(xv).contains(y) && y != xv {
                    let q = choose|q: int| 0 <= q < a.push(xv).len() && a.push(xv)[q] == y;
                    assert(a[q] == y);
                }
                if a.contains(y) {
                    let q = choose|q: int| 0 <= q < a.len() && a[q] == y;
                    assert(a.push(xv)[q] == y);
                }
            }
        }
        j += 1;
    }
    assert(tv.take(j as int) =~= tv);
    assert(nt == named_tracks(repairs_view(result.applied@)));
    assert(forall|y: Seq<char>| strs_v(out@).contains(y) <==> (nt.contains(y) || tv.contains(y)));
    out
}

/// Whether a run changed the inbox, so the caller knows to save it.
pub fn inbox_touched(result: &FixResult) -> (r: bool)
    ensures
        r == exists|i: int| 0 <= i < result.applied@.len() && (#[trigger] result.applied@[i])@ is CloseInbox,
{
    let mut i: usize = 0;
    while i < result.applied.len()
        invariant
            i <= result.applied@.len(),
            forall|k: int| 0 <= k < i ==> !((#[trigger] result.applied@[k])@ is CloseInbox),
        decreases result.applied.len() - i,
    {
        if let Repair::CloseInboxFence { .. } = &result.applied[i] {
            return true;
        }
        i += 1;
    }
    false
}

// ---------------------------------------------------------------------------
// Removing repeated archive copies
// ---------------------------------------------------------------------------

/// Whether a line begins `- [`, where an archive's task list starts.
pub open spec fn opens_list(l: Seq<char>) -> bool {
    l.len() >= 3 && l[0] == '-' && l[1] == ' ' && l[2] == '['
}

/// The first line at or after `k` that begins `- [` (the length when none).
pub open spec fn first_list_line(l: Seq<Seq<char>>, k: int) -> int
    decreases l.len() - k,
{
    if k < 0 || k >= l.len() || opens_list(l[k]) {
        k
    } else {
        first_list_line(l, k + 1)
    }
}

/// The tasks kept and removed when every task holding `id` after the first
/// goes: `seen` says whether the first was met before these; the flag
/// returned says whether it has been met after them.
pub open spec fn drop_repeats(ts: Seq<TaskV>, id: Seq<char>, seen: bool) -> (Seq<TaskV>, Seq<TaskV>, bool)
    decreases ts.len(),
{
    if ts.len() == 0 {
        (Seq::empty(), Seq::empty(), seen)
    } else {
        let p = drop_repeats(ts.drop_last(), id, seen);
        let t = ts.last();
        if t.id == Some(id) {
            if !p.2 {
                (p.0.push(t), p.1, true)
            } else {
                (p.0, p.1.push(t), true)
            }
        } else {
            (p.0.push(t), p.1, p.2)
        }
    }
}

/// One archive's share of a dedupe: its new text and the copies removed
/// when some copy goes (`None` when none does), and whether the first copy
/// has been met. The text is the lines above the first task line, then the
/// kept tasks, each line ended by `\n`.
pub open spec fn dedupe_one(text: Seq<char>, id: Seq<char>, seen: bool) -> (Option<(Seq<char>, Seq<TaskV>)>, bool) {
    let l = lines_v(text);
    let s = first_list_line(l, 0);
    let d = drop_repeats(tasks_at(l, s, 0, 0).0, id, seen);
    if d.1.len() == 0 {
        (None, d.2)
    } else {
        let h = join_v(l.take(s), '\n');
        let head = if h.len() > 0 { h + seq!['\n'] } else { h };
        (Some((head + join_v(tasks_lines_v(d.0, 0, 0), '\n') + seq!['\n'], d.1)), d.2)
    }
}

/// The dedupe over the first `n` archives, in the order given: the first
/// task holding `id` stays, every later copy goes.
pub open spec fn dedupe_upto(texts: Seq<Seq<char>>, id: Seq<char>, n: int) -> (Seq<Option<(Seq<char>, Seq<TaskV>)>>, bool)
    decreases n,
{
    if n <= 0 {
        (Seq::empty(), false)
    } else {
        let p = dedupe_upto(texts, id, n - 1);
        let o = dedupe_one(texts[n - 1], id, p.1);
        (p.0.push(o.0), o.1)
    }
}

pub open spec fn dedupe_out_v(o: Option<(String, Vec<Task>)>) -> Option<(Seq<char>, Seq<TaskV>)> {
    match o {
        Some(x) => Some((x.0@, tasks_v(x.1@))),
        None => None,
    }
}

fn drop_repeats_exec(ts: &Vec<Task>, id: &str, seen: bool) -> (r: (Vec<Task>, Vec<Task>, bool))
    ensures
        (tasks_v(r.0@), tasks_v(r.1@), r.2) == drop_repeats(tasks_v(ts@), id@, seen),
{
    let ghost tv = tasks_v(ts@);
    let mut kept: Vec<Task> = Vec::new();
    let mut removed: Vec<Task> = Vec::new();
    let mut met = seen;
    let mut i: usize = 0;
    while i < ts.len()
        invariant
            i <= ts@.len(),
            tv == tasks_v(ts@),
            (tasks_v(kept@), tasks_v(removed@), met) == drop_repeats(tv.take(i as int), id@, seen),
        decreases ts.len() - i,
    {
        let ghost (k0, r0) = (tasks_v(kept@), tasks_v(removed@));
        assert(tv.take(i + 1).drop_last() =~= tv.take(i as int));
        assert(tv.take(i + 1).last() == ts@[i as int]@);
        let t = ts[i].duplicate();
        let hit = match &ts[i].id {
            Some(x) => str_eq(x.as_str(), id),
            None => false,
        };
        assert(hit == (ts@[i as int]@.id == Some(id@))) by {
            if ts@[i as int]@.id is Some {
                assert(ts@[i as int]@.id == opt_str_v(ts@[i as int].id));
            }
        }
        if hit && met {
            removed.push(t);
            assert(tasks_v(removed@) =~= r0.push(t@));
        } else {
            kept.push(t);
            assert(tasks_v(kept@) =~= k0.push(t@));
        }
        if hit {
            met = true;
        }
        i += 1;
    }
    assert(tv.take(ts@.len() as int) =~= tv);
    (kept, removed, met)
}

/// What removing every archived copy of `task_id` after the first does to
/// archive texts given in order (the order check reports them in): for
/// each, its new text and the copies removed, or `None` when it keeps
/// every task. An archive is read from its first line that begins `- [`;
/// the lines above are kept as they are.
pub fn dedupe_archive_texts(texts: &Vec<String>, task_id: &str) -> (r: Vec<Option<(String, Vec<Task>)>>)
    ensures
        r@.len() == texts@.len(),
        forall|k: int| 0 <= k < r@.len() ==> dedupe_out_v(#[trigger] r@[k]) == dedupe_upto(strs_v(texts@), task_id@, texts@.len() as int).0[k],
{
    let ghost tv = strs_v(texts@);
    let mut out: Vec<Option<(String, Vec<Task>)>> = Vec::new();
    let mut seen = false;
    let mut a: usize = 0;
    while a < texts.len()
        invariant
            a <= texts@.len(),
            tv == strs_v(texts@),
            out@.len() == a,
            forall|k: int| 0 <= k < a ==> dedupe_out_v(#[trigger] out@[k]) == dedupe_upto(tv, task_id@, a as int).0[k],
            seen == dedupe_upto(tv, task_id@, a as int).1,
            dedupe_upto(tv, task_id@, a as int).0.len() == a,
        decreases texts.len() - a,
    {
        let ghost prev = dedupe_upto(tv, task_id@, a as int);
        let (lines, _crlf) = split_lines(texts[a].as_str());
        let ghost l = lines_v(texts@[a as int]@);
        assert(chars_lines(lines@) == l);
        let mut s: usize = 0;
        while s < lines.len() && !(lines[s].len() >= 3 && lines[s][0] == '-' && lines[s][1] == ' ' && lines[s][2] == '[')
            invariant
                s <= lines@.len(),
                chars_lines(lines@) == l,
                first_list_line(l, 0) == first_list_line(l, s as int),
            decreases lines.len() - s,
        {
            assert(l[s as int] == lines@[s as int]@);
            s += 1;
        }
        proof {
            if s < lines.len() {
                assert(l[s as int] == lines@[s as int]@);
            }
        }
        assert(first_list_line(l, 0) == s);
        let (tasks, _next) = parse_tasks(&lines, s, 0, 0);
        let (kept, removed, met) = drop_repeats_exec(&tasks, task_id, seen);
        let ghost one = dedupe_one(tv[a as int], task_id@, seen);
        assert(tv[a as int] == texts@[a as int]@);
        let ghost d = drop_repeats(tasks_at(l, s as int, 0, 0).0, task_id@, seen);
        assert(tasks_v(tasks@) == tasks_at(l, s as int, 0, 0).0);
        assert(d == (tasks_v(kept@), tasks_v(removed@), met));
        if removed.len() == 0 {
            out.push(None);
            assert(one.0 is None);
        } else {
            let header = lines_to_strings(&lines, 0, s);
            assert(strs_v(header@) =~= l.take(s as int));
            let hj = join_lines(&header);
            let mut text = if chars_of(hj.as_str()).len() == 1 { String::new() } else { hj };
            let body = serialize_tasks(kept.as_slice(), 0);
            let bj = join_lines(&body);
            push_str(&mut text, bj.as_str());
            proof {
                let h = join_v(l.take(s as int), '\n');
                let head = if h.len() > 0 { h + seq!['\n'] } else { h };
                assert(text@ =~= head + join_v(tasks_lines_v(tasks_v(kept@), 0, 0), '\n') + seq!['\n']);
                assert(one.0 == Some((text@, tasks_v(removed@))));
            }
            out.push(Some((text, removed)));
        }
        proof {
            let nxt = dedupe_upto(tv, task_id@, a + 1);
            assert(nxt.0 == prev.0.push(one.0));
            assert forall|k: int| 0 <= k < a + 1 implies dedupe_out_v(#[trigger] out@[k]) == nxt.0[k] by {
                if k < a {
                    assert(nxt.0[k] == prev.0[k]);
                }
            }
        }
        seen = met;
        a += 1;
    }
    out
}

} // verus!
