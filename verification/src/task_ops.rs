//! Operations on the tasks of a track: state changes, creation, metadata,
//! moves, reparenting and deletion.
//!
//! Every lookup is by ID and finds the **first** task holding it in file
//! order: the sections in the order they appear, and within a section each
//! task before its subtasks, its subtasks before its next sibling.

use vstd::prelude::*;
use crate::model::{
    fresh_section, is_section_of, lemma_section_from, meta_key, meta_v, metas_v, node_tasks,
    node_v, nodes_v, opt_str_v, section_pos, section_tasks_v, strs_v, task_v, tasks_v,
    with_tasks, Metadata, MetaV, NodeV, SectionKind, Task, TaskState, TaskV, Track, TrackNode,
};
use crate::parse::{parse_title_and_tags, tags_v, title_v};
use crate::text::{
    chars_of, dec_pad_v, dec_v, decimal, decimal_padded, find_char, find_char_from, is_digits,
    lemma_find_char_from, parse_decimal, push_str, seq_starts_with, starts_with, str_eq,
    string_of, value_v,
};

verus! {

// ---------------------------------------------------------------------------
// Finding tasks
// ---------------------------------------------------------------------------

/// Whether a task holds this ID.
pub open spec fn has_id(t: TaskV, id: Seq<char>) -> bool {
    t.id == Some(id)
}

/// The first task holding `id` among `ts[i..]` and their subtrees, in file
/// order.
pub open spec fn find_from(ts: Seq<TaskV>, i: int, id: Seq<char>) -> Option<TaskV>
    decreases ts, ts.len() - i,
{
    if i < 0 || i >= ts.len() {
        None
    } else if has_id(ts[i], id) {
        Some(ts[i])
    } else {
        proof {
            assert(decreases_to!(ts => ts[i]));
        }
        match find_from(ts[i].subtasks, 0, id) {
            Some(t) => Some(t),
            None => find_from(ts, i + 1, id),
        }
    }
}

/// The first task holding `id` in a task list and its subtrees.
pub open spec fn find_in(ts: Seq<TaskV>, id: Seq<char>) -> Option<TaskV> {
    find_from(ts, 0, id)
}

/// The first task holding `id` in the sections of a track from node `i` on.
pub open spec fn find_nodes_from(nodes: Seq<NodeV>, i: int, id: Seq<char>) -> Option<TaskV>
    decreases nodes.len() - i,
{
    if i < 0 || i >= nodes.len() {
        None
    } else {
        match nodes[i] {
            NodeV::Section { tasks, .. } => match find_in(tasks, id) {
                Some(t) => Some(t),
                None => find_nodes_from(nodes, i + 1, id),
            },
            NodeV::Literal(_) => find_nodes_from(nodes, i + 1, id),
        }
    }
}

/// The first task holding `id` anywhere in a track.
pub open spec fn find_in_track(nodes: Seq<NodeV>, id: Seq<char>) -> Option<TaskV> {
    find_nodes_from(nodes, 0, id)
}

pub(crate) fn id_is(t: &Task, id: &str) -> (r: bool)
    ensures
        r == has_id(t@, id@),
{
    match &t.id {
        Some(s) => str_eq(s.as_str(), id),
        None => false,
    }
}

/// The first task holding `task_id` in a list and its subtrees.
pub fn find_task_in_list<'a>(tasks: &'a [Task], task_id: &str) -> (r: Option<&'a Task>)
    ensures
        match r {
            Some(t) => find_in(tasks_v(tasks@), task_id@) == Some(t@),
            None => find_in(tasks_v(tasks@), task_id@) is None,
        },
    decreases tasks_v(tasks@),
{
    let ghost ts = tasks_v(tasks@);
    let mut i: usize = 0;
    while i < tasks.len()
        invariant
            i <= tasks@.len(),
            ts == tasks_v(tasks@),
            find_in(ts, task_id@) == find_from(ts, i as int, task_id@),
        decreases tasks.len() - i,
    {
        let t = &tasks[i];
        assert(ts[i as int] == t@);
        if id_is(t, task_id) {
            return Some(t);
        }
        proof {
            assert(decreases_to!(ts => ts[i as int]));
            assert(tasks_v(t.subtasks@) =~= t@.subtasks);
        }
        let r = find_task_in_list(t.subtasks.as_slice(), task_id);
        if r.is_some() {
            return r;
        }
        i += 1;
    }
    None
}

/// The first task holding `task_id` anywhere in a track.
pub fn find_task_in_track<'a>(track: &'a Track, task_id: &str) -> (r: Option<&'a Task>)
    ensures
        match r {
            Some(t) => find_in_track(track@, task_id@) == Some(t@),
            None => find_in_track(track@, task_id@) is None,
        },
{
    let mut i: usize = 0;
    while i < track.nodes.len()
        invariant
            i <= track.nodes@.len(),
            find_in_track(track@, task_id@) == find_nodes_from(track@, i as int, task_id@),
        decreases track.nodes.len() - i,
    {
        match &track.nodes[i] {
            TrackNode::Section { tasks, .. } => {
                let r = find_task_in_list(tasks.as_slice(), task_id);
                if r.is_some() {
                    return r;
                }
            },
            TrackNode::Literal(_) => {},
        }
        i += 1;
    }
    None
}



/// The function that sends every task to `v`.
pub open spec fn to_task(v: TaskV) -> spec_fn(TaskV) -> TaskV {
    |x: TaskV| v
}

pub broadcast proof fn lemma_tasks_v_update(v: Seq<Task>, i: int, x: Task)
    requires
        0 <= i < v.len(),
    ensures
        #[trigger] tasks_v(v.update(i, x)) == tasks_v(v).update(i, x@),
{
    assert(tasks_v(v.update(i, x)) =~= tasks_v(v).update(i, x@));
}

pub broadcast proof fn lemma_task_v_subtasks(t: Task)
    ensures
        (#[trigger] t@).subtasks == tasks_v(t.subtasks@),
{
    assert(t@.subtasks =~= tasks_v(t.subtasks@));
}

proof fn lemma_edit_skip(ts: Seq<TaskV>, j: int, i: int, id: Seq<char>, f: spec_fn(TaskV) -> TaskV)
    requires
        0 <= j <= i <= ts.len(),
        forall|k: int| j <= k < i ==> !has_id(#[trigger] ts[k], id) && find_in(ts[k].subtasks, id) is None,
    ensures
        edit_from(ts, j, id, f) == edit_from(ts, i, id, f),
    decreases i - j,
{
    if j < i {
        lemma_edit_skip(ts, j + 1, i, id, f);
    }
}

/// The first task holding `task_id` in a list and its subtrees, to change in
/// place: the list afterwards holds whatever the task was changed to.
pub fn find_task_mut_in_list<'a>(tasks: &'a mut Vec<Task>, task_id: &str) -> (r: Option<&'a mut Task>)
    ensures
        match r {
            Some(t) => find_in(tasks_v(old(tasks)@), task_id@) == Some((*t)@)
                && tasks_v(final(tasks)@) == edit_in(tasks_v(old(tasks)@), task_id@, to_task((*final(t))@)),
            None => find_in(tasks_v(old(tasks)@), task_id@) is None && final(tasks)@ == old(tasks)@,
        },
    decreases tasks_v(old(tasks)@),
{
    broadcast use {lemma_tasks_v_update, lemma_task_v_subtasks};
    let ghost ts = tasks_v(tasks@);
    let mut i: usize = 0;
    let mut own = false;
    while i < tasks.len()
        invariant_except_break
            i <= tasks@.len(),
            !own,
            ts == tasks_v(tasks@),
            find_in(ts, task_id@) == find_from(ts, i as int, task_id@),
            forall|k: int| 0 <= k < i ==> !has_id(#[trigger] ts[k], task_id@) && find_in(ts[k].subtasks, task_id@) is None,
        ensures
            ts == tasks_v(tasks@),
            forall|k: int| 0 <= k < i ==> !has_id(#[trigger] ts[k], task_id@) && find_in(ts[k].subtasks, task_id@) is None,
            i < tasks@.len() ==> (own ==> has_id(ts[i as int], task_id@))
                && (!own ==> !has_id(ts[i as int], task_id@) && find_in(ts[i as int].subtasks, task_id@) is Some)
                && find_in(ts, task_id@) == find_from(ts, i as int, task_id@),
            i >= tasks@.len() ==> find_in(ts, task_id@) is None,
        decreases tasks@.len() - i,
    {
        assert(ts[i as int] == tasks@[i as int]@);
        if id_is(&tasks[i], task_id) {
            own = true;
            break;
        }
        assert(tasks_v(tasks@[i as int].subtasks@) =~= ts[i as int].subtasks);
        if find_task_in_list(tasks[i].subtasks.as_slice(), task_id).is_some() {
            break;
        }
        i += 1;
    }
    if i >= tasks.len() {
        return None;
    }
    proof {
        assert forall|f: spec_fn(TaskV) -> TaskV| #[trigger] edit_from(ts, 0, task_id@, f) == edit_from(ts, i as int, task_id@, f) by {
            lemma_edit_skip(ts, 0, i as int, task_id@, f);
        }
    }
    let t = &mut tasks[i];
    if own {
        Some(t)
    } else {
        proof {
            assert(decreases_to!(ts => ts[i as int]));
            assert(decreases_to!(ts[i as int] => ts[i as int].subtasks));
            assert(tasks_v(t.subtasks@) =~= ts[i as int].subtasks);
        }
        find_task_mut_in_list(&mut t.subtasks, task_id)
    }
}


pub broadcast proof fn lemma_nodes_v_update(v: Seq<TrackNode>, i: int, x: TrackNode)
    requires
        0 <= i < v.len(),
    ensures
        #[trigger] nodes_v(v.update(i, x)) == nodes_v(v).update(i, node_v(x)),
{
    assert(nodes_v(v.update(i, x)) =~= nodes_v(v).update(i, node_v(x)));
}

proof fn lemma_edit_nodes_skip(nodes: Seq<NodeV>, j: int, i: int, id: Seq<char>, f: spec_fn(TaskV) -> TaskV)
    requires
        0 <= j <= i <= nodes.len(),
        forall|k: int| j <= k < i ==> find_in(node_tasks(#[trigger] nodes[k]), id) is None,
    ensures
        edit_nodes_from(nodes, j, id, f) == edit_nodes_from(nodes, i, id, f),
    decreases i - j,
{
    if j < i {
        lemma_edit_nodes_skip(nodes, j + 1, i, id, f);
    }
}

/// The first task holding `task_id` anywhere in a track, to change in place:
/// the track afterwards holds whatever the task was changed to.
pub fn find_task_mut_in_track<'a>(track: &'a mut Track, task_id: &str) -> (r: Option<&'a mut Task>)
    ensures
        match r {
            Some(t) => find_in_track(old(track)@, task_id@) == Some((*t)@)
                && final(track)@ == edit_in_track(old(track)@, task_id@, to_task((*final(t))@)),
            None => find_in_track(old(track)@, task_id@) is None && final(track)@ == old(track)@,
        },
{
    broadcast use lemma_nodes_v_update;
    let ghost nv = track@;
    let mut i: usize = 0;
    while i < track.nodes.len()
        invariant_except_break
            i <= track.nodes@.len(),
            nv == track@,
            find_in_track(nv, task_id@) == find_nodes_from(nv, i as int, task_id@),
            forall|k: int| 0 <= k < i ==> find_in(node_tasks(#[trigger] nv[k]), task_id@) is None,
        ensures
            nv == track@,
            forall|k: int| 0 <= k < i ==> find_in(node_tasks(#[trigger] nv[k]), task_id@) is None,
            i < track.nodes@.len() ==> track.nodes@[i as int] is Section
                && find_in(node_tasks(nv[i as int]), task_id@) is Some
                && find_in_track(nv, task_id@) == find_nodes_from(nv, i as int, task_id@),
            i >= track.nodes@.len() ==> find_in_track(nv, task_id@) is None,
        decreases track.nodes@.len() - i,
    {
        let hit = match &track.nodes[i] {
            TrackNode::Section { tasks, .. } => find_task_in_list(tasks.as_slice(), task_id).is_some(),
            TrackNode::Literal(_) => false,
        };
        if hit {
            break;
        }
        i += 1;
    }
    if i >= track.nodes.len() {
        return None;
    }
    proof {
        assert forall|f: spec_fn(TaskV) -> TaskV| #[trigger] edit_nodes_from(nv, 0, task_id@, f)
            == edit_nodes_from(nv, i as int, task_id@, f) by {
            lemma_edit_nodes_skip(nv, 0, i as int, task_id@, f);
        }
    }
    match &mut track.nodes[i] {
        TrackNode::Section { tasks, .. } => find_task_mut_in_list(tasks, task_id),
        TrackNode::Literal(_) => None,
    }
}

// ---------------------------------------------------------------------------
// Editing the first task with an ID
// ---------------------------------------------------------------------------

/// `ts` with `f` applied to the first task holding `id` among `ts[i..]` and
/// their subtrees; unchanged when there is none.
pub open spec fn edit_from(ts: Seq<TaskV>, i: int, id: Seq<char>, f: spec_fn(TaskV) -> TaskV) -> Seq<TaskV>
    decreases ts, ts.len() - i,
{
    if i < 0 || i >= ts.len() {
        ts
    } else if has_id(ts[i], id) {
        ts.update(i, f(ts[i]))
    } else {
        proof {
            assert(decreases_to!(ts => ts[i]));
        }
        if find_from(ts[i].subtasks, 0, id) is Some {
            ts.update(i, TaskV { subtasks: edit_from(ts[i].subtasks, 0, id, f), ..ts[i] })
        } else {
            edit_from(ts, i + 1, id, f)
        }
    }
}

pub open spec fn edit_in(ts: Seq<TaskV>, id: Seq<char>, f: spec_fn(TaskV) -> TaskV) -> Seq<TaskV> {
    edit_from(ts, 0, id, f)
}

/// A track with `f` applied to the first task holding `id`, from node `i` on.
pub open spec fn edit_nodes_from(nodes: Seq<NodeV>, i: int, id: Seq<char>, f: spec_fn(TaskV) -> TaskV) -> Seq<NodeV>
    decreases nodes.len() - i,
{
    if i < 0 || i >= nodes.len() {
        nodes
    } else {
        match nodes[i] {
            NodeV::Section { tasks, .. } => if find_in(tasks, id) is Some {
                nodes.update(i, with_tasks(nodes[i], edit_in(tasks, id, f)))
            } else {
                edit_nodes_from(nodes, i + 1, id, f)
            },
            NodeV::Literal(_) => edit_nodes_from(nodes, i + 1, id, f),
        }
    }
}

/// A track with `f` applied to the first task holding `id`.
pub open spec fn edit_in_track(nodes: Seq<NodeV>, id: Seq<char>, f: spec_fn(TaskV) -> TaskV) -> Seq<NodeV> {
    edit_nodes_from(nodes, 0, id, f)
}

proof fn lemma_edit_from_prefix(ts: Seq<TaskV>, j: int, id: Seq<char>, f: spec_fn(TaskV) -> TaskV)
    ensures
        edit_from(ts, j, id, f).len() == ts.len(),
        forall|k: int| 0 <= k < j && k < ts.len() ==> #[trigger] edit_from(ts, j, id, f)[k] == ts[k],
    decreases ts.len() - j,
{
    if 0 <= j < ts.len() && !has_id(ts[j], id) && find_from(ts[j].subtasks, 0, id) is None {
        lemma_edit_from_prefix(ts, j + 1, id, f);
    }
}

/// An edit that keeps the ID and gives the same task when done twice, done
/// twice to the first task holding `id`, is done once; and the task is still
/// found after it.
pub proof fn lemma_edit_twice(ts: Seq<TaskV>, i: int, id: Seq<char>, f: spec_fn(TaskV) -> TaskV)
    requires
        forall|x: TaskV| (#[trigger] f(x)).id == x.id && f(f(x)) == f(x),
    ensures
        find_from(ts, i, id) is Some ==> find_from(edit_from(ts, i, id, f), i, id) is Some,
        edit_from(edit_from(ts, i, id, f), i, id, f) == edit_from(ts, i, id, f),
    decreases ts, ts.len() - i,
{
    if 0 <= i < ts.len() {
        let e = edit_from(ts, i, id, f);
        if has_id(ts[i], id) {
            assert(e[i] == f(ts[i]));
            assert(has_id(e[i], id));
            assert(e.update(i, f(e[i])) =~= e);
        } else {
            assert(decreases_to!(ts => ts[i]));
            if find_from(ts[i].subtasks, 0, id) is Some {
                assert(decreases_to!(ts[i] => ts[i].subtasks));
                lemma_edit_twice(ts[i].subtasks, 0, id, f);
                let t2 = TaskV { subtasks: edit_from(ts[i].subtasks, 0, id, f), ..ts[i] };
                assert(e[i] == t2);
                assert(!has_id(e[i], id));
                assert(e.update(i, TaskV { subtasks: edit_from(e[i].subtasks, 0, id, f), ..e[i] }) =~= e);
            } else {
                lemma_edit_twice(ts, i + 1, id, f);
                lemma_edit_from_prefix(ts, i + 1, id, f);
                assert(e[i] == ts[i]);
            }
        }
    }
}

proof fn lemma_edit_nodes_prefix(nodes: Seq<NodeV>, j: int, id: Seq<char>, f: spec_fn(TaskV) -> TaskV)
    ensures
        edit_nodes_from(nodes, j, id, f).len() == nodes.len(),
        forall|k: int| 0 <= k < j && k < nodes.len() ==> #[trigger] edit_nodes_from(nodes, j, id, f)[k] == nodes[k],
    decreases nodes.len() - j,
{
    if 0 <= j < nodes.len() {
        match nodes[j] {
            NodeV::Section { tasks, .. } => if find_in(tasks, id) is None {
                lemma_edit_nodes_prefix(nodes, j + 1, id, f);
            },
            NodeV::Literal(_) => lemma_edit_nodes_prefix(nodes, j + 1, id, f),
        }
    }
}

/// The track form of [`lemma_edit_twice`].
pub proof fn lemma_edit_track_twice(nodes: Seq<NodeV>, i: int, id: Seq<char>, f: spec_fn(TaskV) -> TaskV)
    requires
        forall|x: TaskV| (#[trigger] f(x)).id == x.id && f(f(x)) == f(x),
    ensures
        find_nodes_from(nodes, i, id) is Some ==> find_nodes_from(edit_nodes_from(nodes, i, id, f), i, id) is Some,
        edit_nodes_from(edit_nodes_from(nodes, i, id, f), i, id, f) == edit_nodes_from(nodes, i, id, f),
    decreases nodes.len() - i,
{
    if 0 <= i < nodes.len() {
        let e = edit_nodes_from(nodes, i, id, f);
        match nodes[i] {
            NodeV::Section { tasks, .. } => {
                if find_in(tasks, id) is Some {
                    lemma_edit_twice(tasks, 0, id, f);
                    let n2 = with_tasks(nodes[i], edit_in(tasks, id, f));
                    assert(e[i] == n2);
                    assert(node_tasks(n2) == edit_in(tasks, id, f));
                    assert(e.update(i, with_tasks(e[i], edit_in(edit_in(tasks, id, f), id, f))) =~= e);
                } else {
                    lemma_edit_track_twice(nodes, i + 1, id, f);
                    lemma_edit_nodes_prefix(nodes, i + 1, id, f);
                    assert(e[i] == nodes[i]);
                }
            },
            NodeV::Literal(_) => {
                lemma_edit_track_twice(nodes, i + 1, id, f);
                lemma_edit_nodes_prefix(nodes, i + 1, id, f);
                assert(e[i] == nodes[i]);
            },
        }
    }
}

/// One change to one task.
pub enum TaskEdit {
    SetState { state: TaskState, today: String },
    AddTag(String),
    RemoveTag(String),
    AddDep(String),
    RemoveDep(String),
    SetNote(String),
    AppendNote(String),
    AddRef(String),
    SetSpec(String),
    Retitle { title: String, tags: Vec<String> },
    Delete { today: String },
    AddChild { child: Task, after: Option<String> },
    InsertChildAt { child: Task, index: usize },
}

/// What an edit makes of a task.
pub open spec fn edit_spec(t: TaskV, e: TaskEdit) -> TaskV {
    match e {
        TaskEdit::SetState { state, today } => set_state_v(t, state, today@),
        TaskEdit::AddTag(tag) => add_tag_v(t, tag@),
        TaskEdit::RemoveTag(tag) => remove_tag_v(t, tag@),
        TaskEdit::AddDep(d) => add_dep_v(t, d@),
        TaskEdit::RemoveDep(d) => remove_dep_v(t, d@),
        TaskEdit::SetNote(n) => set_note_v(t, n@),
        TaskEdit::AppendNote(n) => append_note_v(t, n@),
        TaskEdit::AddRef(r) => add_ref_v(t, r@),
        TaskEdit::SetSpec(sp) => set_spec_v(t, sp@),
        TaskEdit::Retitle { title, tags } => retitle_v(t, title@, strs_v(tags@)),
        TaskEdit::Delete { today } => delete_v(t, today@),
        TaskEdit::AddChild { child, after } => add_child_v(t, child@, opt_str_v(after)),
        TaskEdit::InsertChildAt { child, index } => insert_child_at_v(t, child@, index as int),
    }
}

// --- metadata helpers ------------------------------------------------------

/// `ms` without the lines written with `key`.
pub open spec fn remove_key(ms: Seq<MetaV>, key: Seq<char>) -> Seq<MetaV>
    decreases ms.len(),
{
    if ms.len() == 0 {
        Seq::empty()
    } else if meta_key(ms.last()) == key {
        remove_key(ms.drop_last(), key)
    } else {
        remove_key(ms.drop_last(), key).push(ms.last())
    }
}

/// The position of the first line written with `key` at or after `i`.
pub open spec fn first_key_from(ms: Seq<MetaV>, key: Seq<char>, i: int) -> Option<int>
    decreases ms.len() - i,
{
    if i < 0 || i >= ms.len() {
        None
    } else if meta_key(ms[i]) == key {
        Some(i)
    } else {
        first_key_from(ms, key, i + 1)
    }
}

pub proof fn lemma_first_key_from(ms: Seq<MetaV>, key: Seq<char>, i: int)
    requires
        0 <= i <= ms.len(),
    ensures
        match first_key_from(ms, key, i) {
            Some(j) => i <= j < ms.len() && meta_key(ms[j]) == key,
            None => forall|k: int| i <= k < ms.len() ==> meta_key(#[trigger] ms[k]) != key,
        },
    decreases ms.len() - i,
{
    if i < ms.len() && meta_key(ms[i]) != key {
        lemma_first_key_from(ms, key, i + 1);
    }
}

pub open spec fn key_resolved() -> Seq<char> {
    seq!['r', 'e', 's', 'o', 'l', 'v', 'e', 'd']
}

pub open spec fn key_note() -> Seq<char> {
    seq!['n', 'o', 't', 'e']
}

pub open spec fn key_spec() -> Seq<char> {
    seq!['s', 'p', 'e', 'c']
}

pub open spec fn key_dep() -> Seq<char> {
    seq!['d', 'e', 'p']
}

pub open spec fn key_ref() -> Seq<char> {
    seq!['r', 'e', 'f']
}

/// `v` without any element equal to `x`.
pub open spec fn remove_all(v: Seq<Seq<char>>, x: Seq<char>) -> Seq<Seq<char>>
    decreases v.len(),
{
    if v.len() == 0 {
        Seq::empty()
    } else if v.last() == x {
        remove_all(v.drop_last(), x)
    } else {
        remove_all(v.drop_last(), x).push(v.last())
    }
}

// --- the edits --------------------------------------------------------------

/// A state change: leaving the state unchanged is no change at all; entering
/// done records `resolved:` with `today` in place of any earlier one; leaving
/// done drops `resolved:`.
pub open spec fn set_state_v(t: TaskV, s: TaskState, today: Seq<char>) -> TaskV {
    if t.state == s {
        t
    } else {
        let ms = if s == TaskState::Done {
            remove_key(t.metadata, key_resolved()).push(MetaV::Resolved(today))
        } else if t.state == TaskState::Done {
            remove_key(t.metadata, key_resolved())
        } else {
            t.metadata
        };
        TaskV { state: s, dirty: true, metadata: ms, ..t }
    }
}

/// A tag added once; a tag already present changes nothing.
pub open spec fn add_tag_v(t: TaskV, tag: Seq<char>) -> TaskV {
    if t.tags.contains(tag) {
        t
    } else {
        TaskV { tags: t.tags.push(tag), dirty: true, ..t }
    }
}

/// Every copy of a tag removed; dirty only when one was there.
pub open spec fn remove_tag_v(t: TaskV, tag: Seq<char>) -> TaskV {
    let tags = remove_all(t.tags, tag);
    TaskV { tags, dirty: t.dirty || tags.len() != t.tags.len(), ..t }
}

/// The values of a list-valued metadata line.
pub open spec fn list_of(m: MetaV) -> Seq<Seq<char>> {
    match m {
        MetaV::Dep(v) => v,
        MetaV::Ref(v) => v,
        _ => Seq::empty(),
    }
}

/// `x` added to the first `dep:` line, or a new `dep:` line holding it; no
/// change when that first line already lists it.
pub open spec fn add_dep_v(t: TaskV, x: Seq<char>) -> TaskV {
    match first_key_from(t.metadata, key_dep(), 0) {
        Some(k) => if list_of(t.metadata[k]).contains(x) {
            t
        } else {
            TaskV {
                metadata: t.metadata.update(k, MetaV::Dep(list_of(t.metadata[k]).push(x))),
                dirty: true,
                ..t
            }
        },
        None => TaskV { metadata: t.metadata.push(MetaV::Dep(seq![x])), dirty: true, ..t },
    }
}

/// `x` added to the first `ref:` line, or a new `ref:` line holding it.
pub open spec fn add_ref_v(t: TaskV, x: Seq<char>) -> TaskV {
    match first_key_from(t.metadata, key_ref(), 0) {
        Some(k) => if list_of(t.metadata[k]).contains(x) {
            t
        } else {
            TaskV {
                metadata: t.metadata.update(k, MetaV::Ref(list_of(t.metadata[k]).push(x))),
                dirty: true,
                ..t
            }
        },
        None => TaskV { metadata: t.metadata.push(MetaV::Ref(seq![x])), dirty: true, ..t },
    }
}

/// One metadata line with `x` taken out of it when it is a `dep:` line.
pub open spec fn drop_dep_in(m: MetaV, x: Seq<char>) -> MetaV {
    match m {
        MetaV::Dep(v) => MetaV::Dep(remove_all(v, x)),
        _ => m,
    }
}

/// Whether a line is a `dep:` line with nothing left on it.
pub open spec fn is_empty_dep(m: MetaV) -> bool {
    m matches MetaV::Dep(v) && v.len() == 0
}

/// The metadata with `x` removed from every `dep:` line, and `dep:` lines
/// left empty dropped.
pub open spec fn remove_dep_metas(ms: Seq<MetaV>, x: Seq<char>) -> Seq<MetaV>
    decreases ms.len(),
{
    if ms.len() == 0 {
        Seq::empty()
    } else {
        let m = drop_dep_in(ms.last(), x);
        if is_empty_dep(m) {
            remove_dep_metas(ms.drop_last(), x)
        } else {
            remove_dep_metas(ms.drop_last(), x).push(m)
        }
    }
}

/// Whether any `dep:` line lists `x`.
pub open spec fn deps_mention(ms: Seq<MetaV>, x: Seq<char>) -> bool {
    exists|k: int| 0 <= k < ms.len() && (#[trigger] ms[k]) is Dep && list_of(ms[k]).contains(x)
}

/// `x` removed from every `dep:` line; dirty only when one listed it.
pub open spec fn remove_dep_v(t: TaskV, x: Seq<char>) -> TaskV {
    TaskV {
        metadata: remove_dep_metas(t.metadata, x),
        dirty: t.dirty || deps_mention(t.metadata, x),
        ..t
    }
}

/// Any note replaced by this one; an empty note means no note.
pub open spec fn set_note_v(t: TaskV, n: Seq<char>) -> TaskV {
    let ms = remove_key(t.metadata, key_note());
    TaskV { metadata: if n.len() > 0 { ms.push(MetaV::Note(n)) } else { ms }, dirty: true, ..t }
}

/// The text of the first note, if there is one.
pub open spec fn first_note(ms: Seq<MetaV>) -> Option<Seq<char>> {
    match first_key_from(ms, key_note(), 0) {
        Some(k) => match ms[k] {
            MetaV::Note(s) => Some(s),
            _ => None,
        },
        None => None,
    }
}

/// `n` appended to the existing note after a blank line, or the note itself
/// when there was none.
pub open spec fn append_note_v(t: TaskV, n: Seq<char>) -> TaskV {
    let joined = match first_note(t.metadata) {
        Some(old) => if old.len() > 0 { old + seq!['\n', '\n'] + n } else { n },
        None => n,
    };
    set_note_v(t, joined)
}

/// Any spec replaced by this one.
pub open spec fn set_spec_v(t: TaskV, sp: Seq<char>) -> TaskV {
    TaskV { metadata: remove_key(t.metadata, key_spec()).push(MetaV::Spec(sp)), dirty: true, ..t }
}

/// `tags` with each of `more` appended unless already present.
pub open spec fn merge_tags(tags: Seq<Seq<char>>, more: Seq<Seq<char>>) -> Seq<Seq<char>>
    decreases more.len(),
{
    if more.len() == 0 {
        tags
    } else {
        let before = merge_tags(tags, more.drop_last());
        if before.contains(more.last()) {
            before
        } else {
            before.push(more.last())
        }
    }
}

/// A new title; the tags it carried are added to the task's.
pub open spec fn retitle_v(t: TaskV, title: Seq<char>, tags: Seq<Seq<char>>) -> TaskV {
    TaskV { title, tags: merge_tags(t.tags, tags), dirty: true, ..t }
}

pub open spec fn wontdo() -> Seq<char> {
    seq!['w', 'o', 'n', 't', 'd', 'o']
}

/// "Deleting" marks the task done and tags it `#wontdo`.
pub open spec fn delete_v(t: TaskV, today: Seq<char>) -> TaskV {
    let d = set_state_v(t, TaskState::Done, today);
    TaskV { tags: if d.tags.contains(wontdo()) { d.tags } else { d.tags.push(wontdo()) }, dirty: true, ..d }
}

/// The position of the first subtask holding `id` at or after `i`.
pub open spec fn child_pos_from(subs: Seq<TaskV>, id: Seq<char>, i: int) -> Option<int>
    decreases subs.len() - i,
{
    if i < 0 || i >= subs.len() {
        None
    } else if has_id(subs[i], id) {
        Some(i)
    } else {
        child_pos_from(subs, id, i + 1)
    }
}

/// A child inserted after the sibling holding `after`, or last when there is
/// no such sibling.
pub open spec fn add_child_v(t: TaskV, child: TaskV, after: Option<Seq<char>>) -> TaskV {
    let idx = match after {
        Some(a) => match child_pos_from(t.subtasks, a, 0) {
            Some(k) => k + 1,
            None => t.subtasks.len() as int,
        },
        None => t.subtasks.len() as int,
    };
    TaskV { subtasks: t.subtasks.insert(idx, child), dirty: true, ..t }
}

/// A child, marked dirty, inserted at `index` or last when `index` is past
/// the end.
pub open spec fn insert_child_at_v(t: TaskV, child: TaskV, index: int) -> TaskV {
    let idx = if index < t.subtasks.len() { index } else { t.subtasks.len() as int };
    TaskV { subtasks: t.subtasks.insert(idx, TaskV { dirty: true, ..child }), dirty: true, ..t }
}


// --- carrying the edits out -------------------------------------------------

/// The metadata without the lines written with `key`.
fn without_key(ms: &Vec<Metadata>, key: &str) -> (r: Vec<Metadata>)
    ensures
        metas_v(r@) == remove_key(metas_v(ms@), key@),
{
    let ghost mv = metas_v(ms@);
    let mut out: Vec<Metadata> = Vec::new();
    let mut i: usize = 0;
    while i < ms.len()
        invariant
            i <= ms@.len(),
            mv == metas_v(ms@),
            metas_v(out@) == remove_key(mv.take(i as int), key@),
        decreases ms.len() - i,
    {
        let k = ms[i].key();
        assert(mv.take(i + 1).drop_last() =~= mv.take(i as int));
        assert(mv.take(i + 1).last() == mv[i as int]);
        if !str_eq(k, key) {
            let ghost before = metas_v(out@);
            out.push(ms[i].duplicate());
            assert(metas_v(out@) =~= before.push(mv[i as int]));
        }
        i += 1;
    }
    assert(mv.take(ms@.len() as int) =~= mv);
    out
}

/// The strings without any equal to `x`.
fn without_string(v: &Vec<String>, x: &str) -> (r: Vec<String>)
    ensures
        strs_v(r@) == remove_all(strs_v(v@), x@),
{
    let ghost sv = strs_v(v@);
    let mut out: Vec<String> = Vec::new();
    let mut i: usize = 0;
    while i < v.len()
        invariant
            i <= v@.len(),
            sv == strs_v(v@),
            strs_v(out@) == remove_all(sv.take(i as int), x@),
        decreases v.len() - i,
    {
        assert(sv.take(i + 1).drop_last() =~= sv.take(i as int));
        assert(sv.take(i + 1).last() == sv[i as int]);
        if !str_eq(v[i].as_str(), x) {
            let ghost before = strs_v(out@);
            out.push(v[i].clone());
            assert(strs_v(out@) =~= before.push(sv[i as int]));
        }
        i += 1;
    }
    assert(sv.take(v@.len() as int) =~= sv);
    out
}

/// Whether a string list holds `x`.
fn strings_contain(v: &Vec<String>, x: &str) -> (r: bool)
    ensures
        r == strs_v(v@).contains(x@),
{
    let mut i: usize = 0;
    while i < v.len()
        invariant
            i <= v@.len(),
            forall|k: int| 0 <= k < i ==> strs_v(v@)[k] != x@,
        decreases v.len() - i,
    {
        if str_eq(v[i].as_str(), x) {
            assert(strs_v(v@)[i as int] == x@);
            return true;
        }
        i += 1;
    }
    false
}

/// The position of the first metadata line written with `key`.
fn first_key(ms: &Vec<Metadata>, key: &str) -> (r: Option<usize>)
    ensures
        match r {
            Some(k) => first_key_from(metas_v(ms@), key@, 0) == Some(k as int),
            None => first_key_from(metas_v(ms@), key@, 0) is None,
        },
{
    let ghost mv = metas_v(ms@);
    let mut i: usize = 0;
    while i < ms.len()
        invariant
            i <= ms@.len(),
            mv == metas_v(ms@),
            first_key_from(mv, key@, 0) == first_key_from(mv, key@, i as int),
        decreases ms.len() - i,
    {
        if str_eq(ms[i].key(), key) {
            return Some(i);
        }
        i += 1;
    }
    None
}

pub(crate) proof fn lemma_same_subtasks(a: Task, b: Task)
    requires
        a.subtasks == b.subtasks,
    ensures
        a@.subtasks == b@.subtasks,
{
    assert(a@.subtasks =~= b@.subtasks);
}

/// Carry out a state change with the given date.
pub fn set_state_on(task: &mut Task, new_state: TaskState, today: &str)
    ensures
        final(task)@ == set_state_v(old(task)@, new_state, today@),
{
    if task.state == new_state {
        return;
    }
    let was_done = task.state == TaskState::Done;
    task.state = new_state;
    task.dirty = true;
    if new_state == TaskState::Done {
        let mut ms = without_key(&task.metadata, "resolved");
        proof { reveal_strlit("resolved"); }
        let ghost before = metas_v(ms@);
        ms.push(Metadata::Resolved(String::from_str(today)));
        assert(metas_v(ms@) =~= before.push(MetaV::Resolved(today@)));
        task.metadata = ms;
    } else if was_done {
        proof { reveal_strlit("resolved"); }
        task.metadata = without_key(&task.metadata, "resolved");
    }
    proof {
        reveal_strlit("resolved");
        assert("resolved"@ == key_resolved());
        lemma_same_subtasks(*task, *old(task));
        assert(task@.state == set_state_v(old(task)@, new_state, today@).state);
        assert(task@.metadata == set_state_v(old(task)@, new_state, today@).metadata);
        assert(task@.subtasks == set_state_v(old(task)@, new_state, today@).subtasks);
        assert(task@.tags == set_state_v(old(task)@, new_state, today@).tags);
    }
}

fn add_tag_on(task: &mut Task, tag: String)
    ensures
        final(task)@ == add_tag_v(old(task)@, tag@),
{
    if !strings_contain(&task.tags, tag.as_str()) {
        let ghost before = strs_v(task.tags@);
        task.tags.push(tag);
        task.dirty = true;
        assert(strs_v(task.tags@) =~= before.push(tag@));
    }
    proof { lemma_same_subtasks(*task, *old(task)); }
}

fn remove_tag_on(task: &mut Task, tag: &str)
    ensures
        final(task)@ == remove_tag_v(old(task)@, tag@),
{
    let before = task.tags.len();
    task.tags = without_string(&task.tags, tag);
    if task.tags.len() != before {
        task.dirty = true;
    }
    proof { lemma_same_subtasks(*task, *old(task)); }
}

fn single(s: String) -> (r: Vec<String>)
    ensures
        strs_v(r@) == seq![s@],
{
    let mut v: Vec<String> = Vec::new();
    v.push(s);
    assert(strs_v(v@) =~= seq![s@]);
    v
}

/// Add `x` to the first line keyed `dep` (`is_dep`) or `ref`.
fn add_to_list_on(task: &mut Task, x: String, is_dep: bool)
    ensures
        is_dep ==> final(task)@ == add_dep_v(old(task)@, x@),
        !is_dep ==> final(task)@ == add_ref_v(old(task)@, x@),
{
    let key = if is_dep { "dep" } else { "ref" };
    proof {
        reveal_strlit("dep");
        reveal_strlit("ref");
        lemma_first_key_from(metas_v(task.metadata@), key@, 0);
        assert(key@ == (if is_dep { key_dep() } else { key_ref() }));
    }
    match first_key(&task.metadata, key) {
        Some(k) => {
            proof {
                let m = metas_v(task.metadata@)[k as int];
                assert(meta_key(m) == key@);
                if is_dep {
                    assert(m is Dep) by {
                        if !(m is Dep) {
                            assert(meta_key(m)[0] != 'd');
                        }
                    }
                } else {
                    assert(m is Ref) by {
                        if !(m is Ref) {
                            assert(meta_key(m)[0] != 'r' || meta_key(m)[1] != 'e' || meta_key(m)[2] != 'f' || meta_key(m).len() != 3);
                        }
                    }
                }
            }
            let list: Vec<String> = match &task.metadata[k] {
                Metadata::Dep(v) => clone_list(v),
                Metadata::Ref(v) => clone_list(v),
                _ => {
                    assert(false);
                    Vec::new()
                },
            };
            if !strings_contain(&list, x.as_str()) {
                let mut list = list;
                let ghost before = strs_v(list@);
                list.push(x);
                assert(strs_v(list@) =~= before.push(x@));
                let m = if is_dep { Metadata::Dep(list) } else { Metadata::Ref(list) };
                let ghost mv = metas_v(task.metadata@);
                task.metadata.set(k, m);
                assert(metas_v(task.metadata@) =~= mv.update(k as int, meta_v(m)));
                task.dirty = true;
            }
        },
        None => {
            let ghost mv = metas_v(task.metadata@);
            let l = single(x);
            let m = if is_dep { Metadata::Dep(l) } else { Metadata::Ref(l) };
            task.metadata.push(m);
            assert(metas_v(task.metadata@) =~= mv.push(meta_v(m)));
            task.dirty = true;
        },
    }
    proof { lemma_same_subtasks(*task, *old(task)); }
}

fn clone_list(v: &Vec<String>) -> (r: Vec<String>)
    ensures
        strs_v(r@) == strs_v(v@),
{
    crate::model::clone_strings(v)
}

fn remove_dep_on(task: &mut Task, x: &str)
    ensures
        final(task)@ == remove_dep_v(old(task)@, x@),
{
    let ghost mv = metas_v(task.metadata@);
    let mut out: Vec<Metadata> = Vec::new();
    let mut changed = false;
    let mut i: usize = 0;
    while i < task.metadata.len()
        invariant
            i <= task.metadata@.len(),
            mv == metas_v(task.metadata@),
            metas_v(out@) == remove_dep_metas(mv.take(i as int), x@),
            changed == deps_mention(mv.take(i as int), x@),
        decreases task.metadata.len() - i,
    {
        assert(mv.take(i + 1).drop_last() =~= mv.take(i as int));
        assert(mv.take(i + 1).last() == mv[i as int]);
        let ghost before = metas_v(out@);
        let ghost prev_changed = changed;
        match &task.metadata[i] {
            Metadata::Dep(v) => {
                let kept = without_string(v, x);
                if strings_contain(v, x) {
                    changed = true;
                }
                if kept.len() > 0 {
                    out.push(Metadata::Dep(kept));
                    assert(metas_v(out@) =~= before.push(drop_dep_in(mv[i as int], x@)));
                }
                proof { lemma_remove_all_len(strs_v(v@), x@); }
            },
            _ => {
                out.push(task.metadata[i].duplicate());
                assert(metas_v(out@) =~= before.push(mv[i as int]));
            },
        }
        proof {
            let t1 = mv.take(i + 1);
            if changed && !prev_changed {
                assert(t1[i as int] == mv[i as int]);
            }
            if deps_mention(t1, x@) {
                let k = choose|k: int| 0 <= k < t1.len() && (#[trigger] t1[k]) is Dep && list_of(t1[k]).contains(x@);
                if k < i {
                    assert(mv.take(i as int)[k] == t1[k]);
                }
            }
            if prev_changed {
                let k = choose|k: int| 0 <= k < i && (#[trigger] mv.take(i as int)[k]) is Dep && list_of(mv.take(i as int)[k]).contains(x@);
                assert(t1[k] == mv.take(i as int)[k]);
            }
        }
        i += 1;
    }
    assert(mv.take(task.metadata@.len() as int) =~= mv);
    task.metadata = out;
    if changed {
        task.dirty = true;
    }
    proof { lemma_same_subtasks(*task, *old(task)); }
}

proof fn lemma_remove_all_len(v: Seq<Seq<char>>, x: Seq<char>)
    ensures
        remove_all(v, x).len() == 0 <==> forall|k: int| 0 <= k < v.len() ==> v[k] == x,
        !v.contains(x) ==> remove_all(v, x) == v,
    decreases v.len(),
{
    if v.len() > 0 {
        lemma_remove_all_len(v.drop_last(), x);
        assert forall|k: int| 0 <= k < v.len() - 1 implies v.drop_last()[k] == v[k] by {}
        if !v.contains(x) {
            assert(!v.drop_last().contains(x)) by {
                if v.drop_last().contains(x) {
                    let k = choose|k: int| 0 <= k < v.drop_last().len() && v.drop_last()[k] == x;
                    assert(v[k] == x);
                }
            }
            assert(v.last() != x);
            assert(v.drop_last().push(v.last()) =~= v);
        }
    } else {
        assert(!v.contains(x) ==> remove_all(v, x) =~= v);
    }
}


fn set_note_on(task: &mut Task, note: String)
    ensures
        final(task)@ == set_note_v(old(task)@, note@),
{
    let mut ms = without_key(&task.metadata, "note");
    proof { reveal_strlit("note"); assert("note"@ == key_note()); }
    if note.as_str().unicode_len() > 0 {
        let ghost before = metas_v(ms@);
        ms.push(Metadata::Note(note));
        assert(metas_v(ms@) =~= before.push(MetaV::Note(note@)));
    }
    task.metadata = ms;
    task.dirty = true;
    proof { lemma_same_subtasks(*task, *old(task)); }
}

fn first_note_text(ms: &Vec<Metadata>) -> (r: Option<String>)
    ensures
        opt_str_v(r) == first_note(metas_v(ms@)),
{
    proof { reveal_strlit("note"); assert("note"@ == key_note()); }
    match first_key(ms, "note") {
        Some(k) => {
            proof { lemma_first_key_from(metas_v(ms@), key_note(), 0); }
            match &ms[k] {
                Metadata::Note(s) => Some(s.clone()),
                _ => None,
            }
        },
        None => None,
    }
}

fn append_note_on(task: &mut Task, note: String)
    ensures
        final(task)@ == append_note_v(old(task)@, note@),
{
    let joined = match first_note_text(&task.metadata) {
        Some(prev) => {
            if prev.as_str().unicode_len() > 0 {
                let mut j = prev;
                push_str(&mut j, "\n\n");
                push_str(&mut j, note.as_str());
                proof { reveal_strlit("\n\n"); }
                assert(j@ =~= first_note(metas_v(old(task).metadata@))->0 + seq!['\n', '\n'] + note@);
                j
            } else {
                note
            }
        },
        None => note,
    };
    set_note_on(task, joined);
}

fn set_spec_on(task: &mut Task, spec: String)
    ensures
        final(task)@ == set_spec_v(old(task)@, spec@),
{
    let mut ms = without_key(&task.metadata, "spec");
    proof { reveal_strlit("spec"); assert("spec"@ == key_spec()); }
    let ghost before = metas_v(ms@);
    ms.push(Metadata::Spec(spec));
    assert(metas_v(ms@) =~= before.push(MetaV::Spec(spec@)));
    task.metadata = ms;
    task.dirty = true;
    proof { lemma_same_subtasks(*task, *old(task)); }
}

fn retitle_on(task: &mut Task, title: String, tags: Vec<String>)
    ensures
        final(task)@ == retitle_v(old(task)@, title@, strs_v(tags@)),
{
    let ghost tv = strs_v(tags@);
    let ghost orig = strs_v(task.tags@);
    let mut out = crate::model::clone_strings(&task.tags);
    let mut i: usize = 0;
    while i < tags.len()
        invariant
            i <= tags@.len(),
            tv == strs_v(tags@),
            strs_v(out@) == merge_tags(orig, tv.take(i as int)),
        decreases tags.len() - i,
    {
        assert(tv.take(i + 1).drop_last() =~= tv.take(i as int));
        if !strings_contain(&out, tags[i].as_str()) {
            let ghost before = strs_v(out@);
            out.push(tags[i].clone());
            assert(strs_v(out@) =~= before.push(tv[i as int]));
        }
        i += 1;
    }
    assert(tv.take(tags@.len() as int) =~= tv);
    task.tags = out;
    task.title = title;
    task.dirty = true;
    proof { lemma_same_subtasks(*task, *old(task)); }
}

fn delete_on(task: &mut Task, today: &str)
    ensures
        final(task)@ == delete_v(old(task)@, today@),
{
    set_state_on(task, TaskState::Done, today);
    proof { reveal_strlit("wontdo"); assert("wontdo"@ == wontdo()); }
    if !strings_contain(&task.tags, "wontdo") {
        let ghost before = strs_v(task.tags@);
        task.tags.push(String::from_str("wontdo"));
        assert(strs_v(task.tags@) =~= before.push(wontdo()));
    }
    let ghost mid = *task;
    task.dirty = true;
    proof { lemma_same_subtasks(*task, mid); }
}

/// The position of the first subtask holding `id`.
pub(crate) fn child_position(subs: &[Task], id: &str) -> (r: Option<usize>)
    ensures
        match r {
            Some(k) => child_pos_from(tasks_v(subs@), id@, 0) == Some(k as int),
            None => child_pos_from(tasks_v(subs@), id@, 0) is None,
        },
{
    let mut i: usize = 0;
    while i < subs.len()
        invariant
            i <= subs@.len(),
            child_pos_from(tasks_v(subs@), id@, 0) == child_pos_from(tasks_v(subs@), id@, i as int),
        decreases subs.len() - i,
    {
        if id_is(&subs[i], id) {
            return Some(i);
        }
        i += 1;
    }
    None
}

pub(crate) proof fn lemma_child_pos(subs: Seq<TaskV>, id: Seq<char>, i: int)
    requires
        0 <= i <= subs.len(),
    ensures
        match child_pos_from(subs, id, i) {
            Some(k) => i <= k < subs.len() && has_id(subs[k], id),
            None => true,
        },
    decreases subs.len() - i,
{
    if i < subs.len() && !has_id(subs[i], id) {
        lemma_child_pos(subs, id, i + 1);
    }
}

/// Inserting into a task's subtasks inserts into their views.
pub(crate) proof fn lemma_insert_subtask(old_t: Task, new_t: Task, idx: int, child: Task)
    requires
        0 <= idx <= old_t.subtasks@.len(),
        new_t.subtasks@ == old_t.subtasks@.insert(idx, child),
    ensures
        new_t@.subtasks == old_t@.subtasks.insert(idx, child@),
{
    assert(new_t@.subtasks =~= old_t@.subtasks.insert(idx, child@));
}

fn add_child_on(task: &mut Task, child: Task, after: Option<String>)
    ensures
        final(task)@ == add_child_v(old(task)@, child@, opt_str_v(after)),
{
    assert(tasks_v(task.subtasks@) =~= task@.subtasks);
    let idx = match &after {
        Some(a) => {
            proof { lemma_child_pos(tasks_v(task.subtasks@), a@, 0); }
            match child_position(task.subtasks.as_slice(), a.as_str()) {
                Some(k) => {
                    assert(k < task.subtasks.len());
                    k + 1
                },
                None => task.subtasks.len(),
            }
        },
        None => task.subtasks.len(),
    };
    let ghost c = child;
    task.subtasks.insert(idx, child);
    task.dirty = true;
    proof { lemma_insert_subtask(*old(task), *task, idx as int, c); }
}

fn insert_child_at_on(task: &mut Task, child: Task, index: usize)
    ensures
        final(task)@ == insert_child_at_v(old(task)@, child@, index as int),
{
    let mut child = child;
    child.mark_dirty();
    let idx = if index < task.subtasks.len() { index } else { task.subtasks.len() };
    let ghost c = child;
    task.subtasks.insert(idx, child);
    task.dirty = true;
    proof { lemma_insert_subtask(*old(task), *task, idx as int, c); }
}

/// Carry out one edit on one task.
pub fn apply_edit(task: &mut Task, e: TaskEdit)
    ensures
        final(task)@ == edit_spec(old(task)@, e),
{
    match e {
        TaskEdit::SetState { state, today } => set_state_on(task, state, today.as_str()),
        TaskEdit::AddTag(tag) => add_tag_on(task, tag),
        TaskEdit::RemoveTag(tag) => remove_tag_on(task, tag.as_str()),
        TaskEdit::AddDep(d) => add_to_list_on(task, d, true),
        TaskEdit::RemoveDep(d) => remove_dep_on(task, d.as_str()),
        TaskEdit::SetNote(n) => set_note_on(task, n),
        TaskEdit::AppendNote(n) => append_note_on(task, n),
        TaskEdit::AddRef(r) => add_to_list_on(task, r, false),
        TaskEdit::SetSpec(sp) => set_spec_on(task, sp),
        TaskEdit::Retitle { title, tags } => retitle_on(task, title, tags),
        TaskEdit::Delete { today } => delete_on(task, today.as_str()),
        TaskEdit::AddChild { child, after } => add_child_on(task, child, after),
        TaskEdit::InsertChildAt { child, index } => insert_child_at_on(task, child, index),
    }
}


/// The spec function an edit stands for.
pub open spec fn edit_fn(e: TaskEdit) -> spec_fn(TaskV) -> TaskV {
    |t: TaskV| edit_spec(t, e)
}

/// Carry out `e` on the first task holding `id` in a list and its subtrees.
/// Returns whether there was one.
pub fn edit_in_list(tasks: &mut Vec<Task>, id: &str, e: TaskEdit) -> (found: bool)
    ensures
        found == (find_in(tasks_v(old(tasks)@), id@) is Some),
        tasks_v(final(tasks)@) == edit_in(tasks_v(old(tasks)@), id@, edit_fn(e)),
    decreases tasks_v(old(tasks)@),
{
    let ghost ts = tasks_v(tasks@);
    let ghost f = edit_fn(e);
    let mut i: usize = 0;
    while i < tasks.len()
        invariant
            i <= tasks@.len(),
            tasks@ == old(tasks)@,
            ts == tasks_v(old(tasks)@),
            f == edit_fn(e),
            find_in(ts, id@) == find_from(ts, i as int, id@),
            edit_in(ts, id@, f) == edit_from(ts, i as int, id@, f),
        decreases tasks@.len() - i,
    {
        assert(ts[i as int] == tasks@[i as int]@);
        if id_is(&tasks[i], id) {
            let mut t = tasks.remove(i);
            apply_edit(&mut t, e);
            tasks.insert(i, t);
            assert(tasks_v(tasks@) =~= ts.update(i as int, f(ts[i as int])));
            return true;
        }
        assert(tasks_v(tasks@[i as int].subtasks@) =~= ts[i as int].subtasks);
        if find_task_in_list(tasks[i].subtasks.as_slice(), id).is_some() {
            let mut t = tasks.remove(i);
            let ghost t0 = t;
            proof {
                assert(decreases_to!(ts => ts[i as int]));
            }
            let _ = edit_in_list(&mut t.subtasks, id, e);
            tasks.insert(i, t);
            proof {
                assert(t@ =~= (TaskV { subtasks: edit_in(ts[i as int].subtasks, id@, f), ..ts[i as int] })) by {
                    assert(t@.subtasks =~= tasks_v(t.subtasks@));
                };
                assert(tasks_v(tasks@) =~= ts.update(i as int, t@));
            }
            return true;
        }
        i += 1;
    }
    false
}

/// Carry out `e` on the first task holding `id` anywhere in a track.
/// Returns whether there was one.
pub fn edit_in_track_exec(track: &mut Track, id: &str, e: TaskEdit) -> (found: bool)
    ensures
        found == (find_in_track(old(track)@, id@) is Some),
        final(track)@ == edit_in_track(old(track)@, id@, edit_fn(e)),
{
    let ghost nv = track@;
    let mut i: usize = 0;
    while i < track.nodes.len()
        invariant
            i <= track.nodes@.len(),
            track@ == nv,
            nv == old(track)@,
            find_in_track(nv, id@) == find_nodes_from(nv, i as int, id@),
            edit_in_track(nv, id@, edit_fn(e)) == edit_nodes_from(nv, i as int, id@, edit_fn(e)),
        decreases track.nodes@.len() - i,
    {
        let hit = match &track.nodes[i] {
            TrackNode::Section { tasks, .. } => find_task_in_list(tasks.as_slice(), id).is_some(),
            TrackNode::Literal(_) => false,
        };
        if hit {
            let mut tasks = track.swap_section_tasks(i, Vec::new());
            let _ = edit_in_list(&mut tasks, id, e);
            assert(track@.len() == track.nodes@.len());
            assert(track@[i as int] is Section);
            let _ = track.swap_section_tasks(i, tasks);
            proof {
                let n = nv[i as int];
                assert(with_tasks(with_tasks(n, Seq::empty()), tasks_v(tasks@)) == with_tasks(n, tasks_v(tasks@)));
                assert(track@ =~= nv.update(i as int, with_tasks(n, tasks_v(tasks@))));
            }
            return true;
        }
        i += 1;
    }
    false
}


// ---------------------------------------------------------------------------
// ID numbers
// ---------------------------------------------------------------------------

/// The number a task ID carries in a namespace: with `prefix_dash` `T-`, the
/// ID `T-012.3` carries 12. `None` for an ID of another namespace or one whose
/// number is not a run of digits that fits a `usize`.
pub open spec fn id_number(id: Seq<char>, prefix_dash: Seq<char>) -> Option<nat> {
    if starts_with(id, prefix_dash) {
        let rest = id.subrange(prefix_dash.len() as int, id.len() as int);
        let num = match find_char_from(rest, '.', 0) {
            Some(j) => rest.subrange(0, j),
            None => rest,
        };
        if is_digits(num) && value_v(num) <= usize::MAX {
            Some(value_v(num))
        } else {
            None
        }
    } else {
        None
    }
}

/// The number a task carries in a namespace, 0 when it carries none.
pub open spec fn task_number(t: TaskV, prefix_dash: Seq<char>) -> nat {
    match t.id {
        Some(id) => match id_number(id, prefix_dash) {
            Some(n) => n,
            None => 0,
        },
        None => 0,
    }
}

pub open spec fn max_nat(a: nat, b: nat) -> nat {
    if a >= b { a } else { b }
}

/// The highest number carried among `ts[i..]` and their subtrees.
pub open spec fn max_num_from(ts: Seq<TaskV>, i: int, prefix_dash: Seq<char>) -> nat
    decreases ts, ts.len() - i,
{
    if i < 0 || i >= ts.len() {
        0
    } else {
        proof {
            assert(decreases_to!(ts => ts[i]));
        }
        max_nat(
            task_number(ts[i], prefix_dash),
            max_nat(max_num_from(ts[i].subtasks, 0, prefix_dash), max_num_from(ts, i + 1, prefix_dash)),
        )
    }
}

/// The highest number carried anywhere in the sections from node `i` on.
pub open spec fn max_num_nodes_from(nodes: Seq<NodeV>, i: int, prefix_dash: Seq<char>) -> nat
    decreases nodes.len() - i,
{
    if i < 0 || i >= nodes.len() {
        0
    } else {
        max_nat(max_num_from(node_tasks(nodes[i]), 0, prefix_dash), max_num_nodes_from(nodes, i + 1, prefix_dash))
    }
}

/// The highest number carried anywhere in a track.
pub open spec fn max_num_track(nodes: Seq<NodeV>, prefix_dash: Seq<char>) -> nat {
    max_num_nodes_from(nodes, 0, prefix_dash)
}

/// The number an ID carries in the namespace `prefix_dash`, if any.
pub fn id_number_of(id: &str, prefix_dash: &str) -> (r: Option<usize>)
    ensures
        match r {
            Some(n) => id_number(id@, prefix_dash@) == Some(n as nat),
            None => id_number(id@, prefix_dash@) is None,
        },
{
    let cs = chars_of(id);
    let pd = chars_of(prefix_dash);
    if !seq_starts_with(&cs, &pd) {
        return None;
    }
    let start = pd.len();
    let ghost rest = cs@.subrange(start as int, cs@.len() as int);
    proof { lemma_find_char_from(cs@, '.', start as int); }
    let end = match find_char(&cs, '.', start) {
        Some(j) => j,
        None => cs.len(),
    };
    proof {
        lemma_find_char_from(rest, '.', 0);
        assert(forall|k: int| 0 <= k < rest.len() ==> rest[k] == cs@[start + k]);
        match find_char_from(rest, '.', 0) {
            Some(j) => {
                assert(find_char_from(cs@, '.', start as int) == Some(start + j)) by {
                    lemma_find_from_shift(cs@, '.', start as int, j);
                }
                assert(rest.subrange(0, j) =~= cs@.subrange(start as int, end as int));
            },
            None => {
                assert(find_char_from(cs@, '.', start as int) is None) by {
                    if find_char_from(cs@, '.', start as int) is Some {
                        let j = find_char_from(cs@, '.', start as int)->0;
                        assert(rest[j - start] == '.');
                    }
                }
                assert(rest =~= cs@.subrange(start as int, end as int));
            },
        }
    }
    parse_decimal(&cs, start, end)
}

proof fn lemma_find_from_shift(s: Seq<char>, c: char, start: int, j: int)
    requires
        0 <= start <= s.len(),
        find_char_from(s.subrange(start, s.len() as int), c, 0) == Some(j),
    ensures
        find_char_from(s, c, start) == Some(start + j),
{
    let rest = s.subrange(start, s.len() as int);
    lemma_find_char_from(rest, c, 0);
    lemma_find_char_from(s, c, start);
    match find_char_from(s, c, start) {
        Some(k) => {
            assert(rest[k - start] == c);
            assert(s[start + j] == rest[j]);
        },
        None => {
            assert(s[start + j] == rest[j]);
        },
    }
}

fn task_number_of(t: &Task, prefix_dash: &str) -> (r: usize)
    ensures
        r as nat == task_number(t@, prefix_dash@),
{
    match &t.id {
        Some(id) => match id_number_of(id.as_str(), prefix_dash) {
            Some(n) => n,
            None => 0,
        },
        None => 0,
    }
}

/// Raise `max` to the highest number carried in a task list and its subtrees.
pub fn find_max_id_in_tasks(tasks: &[Task], prefix_dash: &str, max: &mut usize)
    ensures
        *final(max) as nat == max_nat(*old(max) as nat, max_num_from(tasks_v(tasks@), 0, prefix_dash@)),
    decreases tasks_v(tasks@),
{
    let ghost ts = tasks_v(tasks@);
    let mut i = tasks.len();
    let mut acc: usize = 0;
    while i > 0
        invariant
            i <= tasks@.len(),
            ts == tasks_v(tasks@),
            acc as nat == max_num_from(ts, i as int, prefix_dash@),
        decreases i,
    {
        let k = i - 1;
        let t = &tasks[k];
        assert(ts[k as int] == t@);
        let n = task_number_of(t, prefix_dash);
        let mut sub: usize = 0;
        proof {
            assert(decreases_to!(ts => ts[k as int]));
            assert(tasks_v(t.subtasks@) =~= t@.subtasks);
        }
        find_max_id_in_tasks(t.subtasks.as_slice(), prefix_dash, &mut sub);
        let m = if sub > acc { sub } else { acc };
        acc = if n > m { n } else { m };
        i = k;
    }
    if acc > *max {
        *max = acc;
    }
}

/// Raise `max` to the highest number carried in `prefix_dash`'s namespace
/// anywhere in the track.
pub fn find_max_id_in_track(track: &Track, prefix_dash: &str, max: &mut usize)
    ensures
        *final(max) as nat == max_nat(*old(max) as nat, max_num_track(track@, prefix_dash@)),
{
    let mut i = track.nodes.len();
    let mut acc: usize = 0;
    while i > 0
        invariant
            i <= track.nodes@.len(),
            acc as nat == max_num_nodes_from(track@, i as int, prefix_dash@),
        decreases i,
    {
        let k = i - 1;
        let mut here: usize = 0;
        match &track.nodes[k] {
            TrackNode::Section { tasks, .. } => find_max_id_in_tasks(tasks.as_slice(), prefix_dash, &mut here),
            TrackNode::Literal(_) => {},
        }
        acc = if here > acc { here } else { acc };
        i = k;
    }
    if acc > *max {
        *max = acc;
    }
}

/// `prefix` followed by `-`.
pub open spec fn dash(prefix: Seq<char>) -> Seq<char> {
    prefix.push('-')
}

/// The ID minted for number `n` in `prefix`'s namespace: `T-007`.
pub open spec fn top_id(prefix: Seq<char>, n: nat) -> Seq<char> {
    dash(prefix) + dec_pad_v(n, 3)
}

pub(crate) fn prefix_dash_of(prefix: &str) -> (r: String)
    ensures
        r@ == dash(prefix@),
{
    let mut s = String::from_str(prefix);
    s.push('-');
    s
}

/// The next free top-level number for `prefix` in a track: one past the
/// highest it holds.
pub fn next_id_number(track: &Track, prefix: &str) -> (r: usize)
    requires
        max_num_track(track@, dash(prefix@)) < usize::MAX,
    ensures
        r as nat == max_num_track(track@, dash(prefix@)) + 1,
{
    let pd = prefix_dash_of(prefix);
    let mut max: usize = 0;
    find_max_id_in_track(track, pd.as_str(), &mut max);
    max + 1
}

/// The ID for number `n` in `prefix`'s namespace, zero-padded to three digits.
pub fn format_top_id(prefix: &str, n: usize) -> (r: String)
    ensures
        r@ == top_id(prefix@, n as nat),
{
    let mut s = prefix_dash_of(prefix);
    let d = decimal_padded(n, 3);
    let ds = string_of(&d);
    push_str(&mut s, ds.as_str());
    s
}

/// A child's ID: the parent's, a dot, and the child number.
pub open spec fn child_id(parent: Seq<char>, n: nat) -> Seq<char> {
    parent.push('.') + dec_v(n)
}

pub fn format_child_id(parent: &str, n: usize) -> (r: String)
    ensures
        r@ == child_id(parent@, n as nat),
{
    let mut s = String::from_str(parent);
    s.push('.');
    let d = decimal(n);
    let ds = string_of(&d);
    push_str(&mut s, ds.as_str());
    s
}


// ---------------------------------------------------------------------------
// Errors and positions
// ---------------------------------------------------------------------------

/// Why a task operation could not be carried out.
#[derive(Debug)]
pub enum TaskError {
    NotFound(String),
    NoPrefixForTrack(String),
    MaxDepthReached,
    InvalidPosition(String),
    CycleDetected,
    AlreadyTopLevel,
    DepthExceeded,
}

/// The message a user sees for an error.
pub open spec fn task_error_message(e: TaskError) -> Seq<char> {
    match e {
        TaskError::NotFound(what) => "task not found: "@ + what@,
        TaskError::NoPrefixForTrack(t) => "no ID prefix configured for track "@ + t@,
        TaskError::MaxDepthReached => "cannot add subtask: maximum nesting depth (3) reached"@,
        TaskError::InvalidPosition(why) => "invalid position: "@ + why@,
        TaskError::CycleDetected => "reparenting would create a cycle"@,
        TaskError::AlreadyTopLevel => "task is already top-level"@,
        TaskError::DepthExceeded => "reparenting would exceed maximum nesting depth (3)"@,
    }
}

impl TaskError {
    /// The message a user sees for this error.
    pub fn message(&self) -> (r: String)
        ensures
            r@ == task_error_message(*self),
    {
        let mut s = String::new();
        match self {
            TaskError::NotFound(what) => {
                push_str(&mut s, "task not found: ");
                push_str(&mut s, what.as_str());
            },
            TaskError::NoPrefixForTrack(t) => {
                push_str(&mut s, "no ID prefix configured for track ");
                push_str(&mut s, t.as_str());
            },
            TaskError::MaxDepthReached => push_str(&mut s, "cannot add subtask: maximum nesting depth (3) reached"),
            TaskError::InvalidPosition(why) => {
                push_str(&mut s, "invalid position: ");
                push_str(&mut s, why.as_str());
            },
            TaskError::CycleDetected => push_str(&mut s, "reparenting would create a cycle"),
            TaskError::AlreadyTopLevel => push_str(&mut s, "task is already top-level"),
            TaskError::DepthExceeded => push_str(&mut s, "reparenting would exceed maximum nesting depth (3)"),
        }
        s
    }
}

/// Where to insert a new task in a section.
#[derive(Debug)]
pub enum InsertPosition {
    /// Append to end of section (lowest priority).
    Bottom,
    /// Prepend to start of section (highest priority).
    Top,
    /// Insert after the task with this ID.
    After(String),
}

/// Where a position puts a task in a list, or `None` for an `After` whose
/// target is not in the list.
pub open spec fn insert_index(ts: Seq<TaskV>, pos: InsertPosition) -> Option<int> {
    match pos {
        InsertPosition::Bottom => Some(ts.len() as int),
        InsertPosition::Top => Some(0),
        InsertPosition::After(a) => match child_pos_from(ts, a@, 0) {
            Some(k) => Some(k + 1),
            None => None,
        },
    }
}

/// A track with the tasks of its first section of this kind replaced.
pub open spec fn set_section(nodes: Seq<NodeV>, kind: SectionKind, tasks: Seq<TaskV>) -> Seq<NodeV> {
    match section_pos(nodes, kind) {
        Some(i) => nodes.update(i, with_tasks(nodes[i], tasks)),
        None => nodes,
    }
}

pub(crate) fn str_msg(prefix: &str, what: &str) -> (r: String)
    ensures
        r@ == prefix@ + what@,
{
    let mut s = String::from_str(prefix);
    push_str(&mut s, what);
    s
}

/// Insert `task` into `tasks` where `position` says.
pub(crate) fn insert_at(tasks: &mut Vec<Task>, task: Task, position: &InsertPosition) -> (r: Result<(), TaskError>)
    ensures
        match insert_index(tasks_v(old(tasks)@), *position) {
            Some(k) => r is Ok && tasks_v(final(tasks)@) == tasks_v(old(tasks)@).insert(k, task@),
            None => r matches Err(TaskError::NotFound(_)) && final(tasks)@ == old(tasks)@,
        },
{
    let ghost tv = tasks_v(tasks@);
    let ghost tk = task;
    let idx = match position {
        InsertPosition::Bottom => tasks.len(),
        InsertPosition::Top => 0,
        InsertPosition::After(a) => {
            proof { lemma_child_pos(tv, a@, 0); }
            match child_position(tasks.as_slice(), a.as_str()) {
                Some(k) => {
                    assert(k < tasks.len());
                    k + 1
                },
                None => {
                    return Err(TaskError::NotFound(str_msg("after target ", a.as_str())));
                },
            }
        },
    };
    tasks.insert(idx, task);
    assert(tasks_v(tasks@) =~= tv.insert(idx as int, tk@));
    Ok(())
}

// ---------------------------------------------------------------------------
// Task CRUD
// ---------------------------------------------------------------------------

/// A freshly added task: todo, with the given ID, the title line's title and
/// tags, and an `added:` date.
pub open spec fn new_task_v(id: Seq<char>, title: Seq<char>, today: Seq<char>, depth: usize) -> TaskV {
    TaskV {
        state: TaskState::Todo,
        id: Some(id),
        title: title_v(title),
        tags: tags_v(title),
        metadata: seq![MetaV::Added(today)],
        subtasks: Seq::empty(),
        extra_lines: Seq::empty(),
        depth,
        dirty: true,
    }
}

pub(crate) fn new_task(id: String, title: &str, today: &str, depth: usize) -> (r: Task)
    ensures
        r@ == new_task_v(id@, title@, today@, depth),
{
    let (t, tags) = parse_title_and_tags(title);
    let mut task = Task::new(TaskState::Todo, Some(id), t);
    task.tags = tags;
    task.depth = depth;
    task.metadata.push(Metadata::Added(String::from_str(today)));
    assert(metas_v(task.metadata@) =~= seq![MetaV::Added(today@)]);
    assert(task@.subtasks =~= Seq::empty());
    task
}

/// What [`add_task`] does, for a given date.
pub open spec fn add_task_post(
    old: Seq<NodeV>,
    new: Seq<NodeV>,
    title: Seq<char>,
    position: InsertPosition,
    prefix: Seq<char>,
    today: Seq<char>,
    r: Result<String, TaskError>,
) -> bool {
    let id = top_id(prefix, max_num_track(old, dash(prefix)) + 1);
    let bl = section_tasks_v(old, SectionKind::Backlog);
    if section_pos(old, SectionKind::Backlog) is None {
        r matches Err(TaskError::InvalidPosition(_)) && new == old
    } else {
        match insert_index(bl, position) {
            None => r matches Err(TaskError::NotFound(_)) && new == old,
            Some(k) => r matches Ok(s) && s@ == id && new == set_section(
                old,
                SectionKind::Backlog,
                bl.insert(k, new_task_v(id, title, today, 0)),
            ),
        }
    }
}

/// Replace the tasks of the first section of `kind` with what `f` makes of
/// them, where `f` is carried out by the caller through the vector handed in.
pub(crate) fn backlog_index(track: &Track) -> (r: Option<usize>)
    ensures
        match r {
            Some(i) => section_pos(track@, SectionKind::Backlog) == Some(i as int) && i < track@.len()
                && track@[i as int] is Section
                && node_tasks(track@[i as int]) == section_tasks_v(track@, SectionKind::Backlog),
            None => section_pos(track@, SectionKind::Backlog) is None,
        },
{
    proof { lemma_section_from(track@, SectionKind::Backlog, 0); }
    track.section_index(SectionKind::Backlog)
}

/// Add a task to a track's backlog with the given `added:` date. Returns the
/// assigned ID, one past the highest number the prefix holds in the track.
pub fn add_task_dated(
    track: &mut Track,
    title: String,
    position: InsertPosition,
    prefix: &str,
    today: &str,
) -> (r: Result<String, TaskError>)
    requires
        max_num_track(old(track)@, dash(prefix@)) < usize::MAX,
    ensures
        add_task_post(old(track)@, final(track)@, title@, position, prefix@, today@, r),
{
    let next_num = next_id_number(track, prefix);
    let id = format_top_id(prefix, next_num);
    let task = new_task(id.clone(), title.as_str(), today, 0);
    let bi = match backlog_index(track) {
        Some(i) => i,
        None => {
            return Err(TaskError::InvalidPosition(String::from_str("no backlog section")));
        },
    };
    let mut tasks = track.swap_section_tasks(bi, Vec::new());
    let res = insert_at(&mut tasks, task, &position);
    assert(track@.len() == track.nodes@.len());
    let _ = track.swap_section_tasks(bi, tasks);
    proof {
        let n = old(track)@[bi as int];
        assert(with_tasks(with_tasks(n, Seq::empty()), tasks_v(tasks@)) == with_tasks(n, tasks_v(tasks@)));
        assert(track@ =~= old(track)@.update(bi as int, with_tasks(n, tasks_v(tasks@))));
        if res is Err {
            assert(with_tasks(n, node_tasks(n)) == n);
            assert(track@ =~= old(track)@);
        }
    }
    match res {
        Ok(()) => Ok(id),
        Err(e) => Err(e),
    }
}

/// Add a task to a track's backlog, dated today. Returns the assigned ID.
pub fn add_task(track: &mut Track, title: String, position: InsertPosition, prefix: &str) -> (r: Result<String, TaskError>)
    requires
        max_num_track(old(track)@, dash(prefix@)) < usize::MAX,
    ensures
        exists|d: Seq<char>| #[trigger] add_task_post(old(track)@, final(track)@, title@, position, prefix@, d, r),
{
    let today = crate::clock::today_str();
    add_task_dated(track, title, position, prefix, today.as_str())
}


pub(crate) proof fn lemma_edit_nodes_none(nodes: Seq<NodeV>, i: int, id: Seq<char>, f: spec_fn(TaskV) -> TaskV)
    requires
        0 <= i <= nodes.len(),
        find_nodes_from(nodes, i, id) is None,
    ensures
        edit_nodes_from(nodes, i, id, f) == nodes,
    decreases nodes.len() - i,
{
    if i < nodes.len() {
        lemma_edit_nodes_none(nodes, i + 1, id, f);
    }
}

/// What an edit of the task holding `id` does to a track: `NotFound` naming
/// the ID and nothing changed when no task holds it, the edit carried out on
/// the first one that does otherwise.
pub open spec fn edited(old: Seq<NodeV>, new: Seq<NodeV>, id: Seq<char>, f: spec_fn(TaskV) -> TaskV, r: Result<(), TaskError>) -> bool {
    if find_in_track(old, id) is None {
        &&& r matches Err(TaskError::NotFound(s)) && s@ == id
        &&& new == old
    } else {
        &&& r is Ok
        &&& new == edit_in_track(old, id, f)
    }
}

fn edit_by_id(track: &mut Track, task_id: &str, e: TaskEdit) -> (r: Result<(), TaskError>)
    ensures
        edited(old(track)@, final(track)@, task_id@, edit_fn(e), r),
{
    let found = edit_in_track_exec(track, task_id, e);
    if found {
        Ok(())
    } else {
        proof { lemma_edit_nodes_none(old(track)@, 0, task_id@, edit_fn(e)); }
        Err(TaskError::NotFound(String::from_str(task_id)))
    }
}

/// Edit a task's title. Tags written in the new title are added to the
/// task's own.
pub fn edit_title(track: &mut Track, task_id: &str, new_title: String) -> (r: Result<(), TaskError>)
    ensures
        edited(old(track)@, final(track)@, task_id@, |t: TaskV| retitle_v(t, title_v(new_title@), tags_v(new_title@)), r),
{
    let (title, tags) = parse_title_and_tags(new_title.as_str());
    let e = TaskEdit::Retitle { title, tags };
    let r = edit_by_id(track, task_id, e);
    assert(edit_fn(e) =~= (|t: TaskV| retitle_v(t, title_v(new_title@), tags_v(new_title@))));
    r
}

/// "Delete" a task, with the given date: mark it done and tag it `#wontdo`.
pub fn delete_task_dated(track: &mut Track, task_id: &str, today: &str) -> (r: Result<(), TaskError>)
    ensures
        edited(old(track)@, final(track)@, task_id@, |t: TaskV| delete_v(t, today@), r),
{
    let e = TaskEdit::Delete { today: String::from_str(today) };
    let r = edit_by_id(track, task_id, e);
    assert(edit_fn(e) =~= (|t: TaskV| delete_v(t, today@)));
    r
}

/// What deleting does, for a given date.
pub open spec fn delete_post(old: Seq<NodeV>, new: Seq<NodeV>, id: Seq<char>, today: Seq<char>, r: Result<(), TaskError>) -> bool {
    edited(old, new, id, |t: TaskV| delete_v(t, today), r)
}

/// "Delete" a task by marking it done, dated today, and adding `#wontdo`.
pub fn delete_task(track: &mut Track, task_id: &str) -> (r: Result<(), TaskError>)
    ensures
        exists|d: Seq<char>| #[trigger] delete_post(old(track)@, final(track)@, task_id@, d, r),
{
    let today = crate::clock::today_str();
    let r = delete_task_dated(track, task_id, today.as_str());
    assert(delete_post(old(track)@, track@, task_id@, today@, r));
    r
}

/// A tag with its leading `#`s removed.
pub open spec fn strip_hashes(s: Seq<char>) -> Seq<char>
    decreases s.len(),
{
    if s.len() > 0 && s[0] == '#' {
        strip_hashes(s.drop_first())
    } else {
        s
    }
}

fn strip_hashes_exec(tag: &str) -> (r: String)
    ensures
        r@ == strip_hashes(tag@),
{
    let cs = chars_of(tag);
    let mut i: usize = 0;
    assert(cs@.subrange(0, cs@.len() as int) =~= cs@);
    while i < cs.len() && cs[i] == '#'
        invariant
            i <= cs@.len(),
            strip_hashes(cs@) == strip_hashes(cs@.subrange(i as int, cs@.len() as int)),
        decreases cs.len() - i,
    {
        assert(cs@.subrange(i as int, cs@.len() as int).drop_first() =~= cs@.subrange(i + 1, cs@.len() as int));
        i += 1;
    }
    assert(cs@.subrange(0, cs@.len() as int) =~= cs@);
    crate::text::substring(&cs, i, cs.len())
}

/// Add a tag (a leading `#` is dropped); a tag already present changes
/// nothing.
pub fn add_tag(track: &mut Track, task_id: &str, tag: &str) -> (r: Result<(), TaskError>)
    ensures
        edited(old(track)@, final(track)@, task_id@, |t: TaskV| add_tag_v(t, strip_hashes(tag@)), r),
{
    let e = TaskEdit::AddTag(strip_hashes_exec(tag));
    let r = edit_by_id(track, task_id, e);
    assert(edit_fn(e) =~= (|t: TaskV| add_tag_v(t, strip_hashes(tag@))));
    r
}

/// Remove every copy of a tag (a leading `#` is dropped).
pub fn remove_tag(track: &mut Track, task_id: &str, tag: &str) -> (r: Result<(), TaskError>)
    ensures
        edited(old(track)@, final(track)@, task_id@, |t: TaskV| remove_tag_v(t, strip_hashes(tag@)), r),
{
    let e = TaskEdit::RemoveTag(strip_hashes_exec(tag));
    let r = edit_by_id(track, task_id, e);
    assert(edit_fn(e) =~= (|t: TaskV| remove_tag_v(t, strip_hashes(tag@))));
    r
}

/// Whether any of the tracks holds a task with this ID.
pub open spec fn id_in_tracks(tracks: Seq<(String, Track)>, id: Seq<char>) -> bool {
    exists|k: int| 0 <= k < tracks.len() && find_in_track((#[trigger] tracks[k]).1@, id) is Some
}

fn task_id_exists_in_tracks(task_id: &str, all_tracks: &[(String, Track)]) -> (r: bool)
    ensures
        r == id_in_tracks(all_tracks@, task_id@),
{
    let mut i: usize = 0;
    while i < all_tracks.len()
        invariant
            i <= all_tracks@.len(),
            forall|k: int| 0 <= k < i ==> find_in_track((#[trigger] all_tracks@[k]).1@, task_id@) is None,
        decreases all_tracks.len() - i,
    {
        if find_task_in_track(&all_tracks[i].1, task_id).is_some() {
            return true;
        }
        i += 1;
    }
    false
}

/// Add a dependency on `dep_id`, which must exist in one of `all_tracks`.
pub fn add_dep(track: &mut Track, task_id: &str, dep_id: &str, all_tracks: &[(String, Track)]) -> (r: Result<(), TaskError>)
    ensures
        !id_in_tracks(all_tracks@, dep_id@) ==> (r matches Err(TaskError::NotFound(s)) && s@ == "dep target "@ + dep_id@)
            && final(track)@ == old(track)@,
        id_in_tracks(all_tracks@, dep_id@) ==> edited(old(track)@, final(track)@, task_id@, |t: TaskV| add_dep_v(t, dep_id@), r),
{
    if !task_id_exists_in_tracks(dep_id, all_tracks) {
        return Err(TaskError::NotFound(str_msg("dep target ", dep_id)));
    }
    let e = TaskEdit::AddDep(String::from_str(dep_id));
    let r = edit_by_id(track, task_id, e);
    assert(edit_fn(e) =~= (|t: TaskV| add_dep_v(t, dep_id@)));
    r
}

/// Remove a dependency from every `dep:` line; lines left empty go.
pub fn remove_dep(track: &mut Track, task_id: &str, dep_id: &str) -> (r: Result<(), TaskError>)
    ensures
        edited(old(track)@, final(track)@, task_id@, |t: TaskV| remove_dep_v(t, dep_id@), r),
{
    let e = TaskEdit::RemoveDep(String::from_str(dep_id));
    let r = edit_by_id(track, task_id, e);
    assert(edit_fn(e) =~= (|t: TaskV| remove_dep_v(t, dep_id@)));
    r
}

/// Replace the note; an empty text removes it.
pub fn set_note(track: &mut Track, task_id: &str, note_text: String) -> (r: Result<(), TaskError>)
    ensures
        edited(old(track)@, final(track)@, task_id@, |t: TaskV| set_note_v(t, note_text@), r),
{
    let ghost nt = note_text@;
    let e = TaskEdit::SetNote(note_text);
    let r = edit_by_id(track, task_id, e);
    assert(edit_fn(e) =~= (|t: TaskV| set_note_v(t, nt)));
    r
}

/// Append to the note after a blank line, or start one.
pub fn append_note(track: &mut Track, task_id: &str, note_text: String) -> (r: Result<(), TaskError>)
    ensures
        edited(old(track)@, final(track)@, task_id@, |t: TaskV| append_note_v(t, note_text@), r),
{
    let ghost nt = note_text@;
    let e = TaskEdit::AppendNote(note_text);
    let r = edit_by_id(track, task_id, e);
    assert(edit_fn(e) =~= (|t: TaskV| append_note_v(t, nt)));
    r
}

/// Add a file reference to the first `ref:` line, or start one.
pub fn add_ref(track: &mut Track, task_id: &str, path: &str) -> (r: Result<(), TaskError>)
    ensures
        edited(old(track)@, final(track)@, task_id@, |t: TaskV| add_ref_v(t, path@), r),
{
    let e = TaskEdit::AddRef(String::from_str(path));
    let r = edit_by_id(track, task_id, e);
    assert(edit_fn(e) =~= (|t: TaskV| add_ref_v(t, path@)));
    r
}

/// Replace the spec.
pub fn set_spec(track: &mut Track, task_id: &str, spec: String) -> (r: Result<(), TaskError>)
    ensures
        edited(old(track)@, final(track)@, task_id@, |t: TaskV| set_spec_v(t, spec@), r),
{
    let ghost sv = spec@;
    let e = TaskEdit::SetSpec(spec);
    let r = edit_by_id(track, task_id, e);
    assert(edit_fn(e) =~= (|t: TaskV| set_spec_v(t, sv)));
    r
}

// ---------------------------------------------------------------------------
// State transitions
// ---------------------------------------------------------------------------

/// `set_state_v` holds for some date.
pub open spec fn state_set(old: TaskV, new: TaskV, s: TaskState, today: Seq<char>) -> bool {
    new == set_state_v(old, s, today)
}

/// Direct state set, dated today: see [`set_state_v`].
pub fn set_state(task: &mut Task, new_state: TaskState)
    ensures
        exists|d: Seq<char>| #[trigger] state_set(old(task)@, final(task)@, new_state, d),
{
    let today = crate::clock::today_str();
    set_state_on(task, new_state, today.as_str());
    assert(state_set(old(task)@, task@, new_state, today@));
}

/// The state `cycle_state` moves to: todo → active → done → todo, and
/// blocked or parked back to todo.
pub open spec fn cycle_next(s: TaskState) -> TaskState {
    match s {
        TaskState::Todo => TaskState::Active,
        TaskState::Active => TaskState::Done,
        TaskState::Done => TaskState::Todo,
        TaskState::Blocked => TaskState::Todo,
        TaskState::Parked => TaskState::Todo,
    }
}

/// Cycle state: todo → active → done → todo.
pub fn cycle_state(task: &mut Task)
    ensures
        exists|d: Seq<char>| #[trigger] state_set(old(task)@, final(task)@, cycle_next(old(task)@.state), d),
{
    let new_state = match task.state {
        TaskState::Todo => TaskState::Active,
        TaskState::Active => TaskState::Done,
        TaskState::Done => TaskState::Todo,
        TaskState::Blocked => TaskState::Todo,
        TaskState::Parked => TaskState::Todo,
    };
    set_state(task, new_state);
}

/// Blocked goes back to todo; any other state becomes blocked.
pub open spec fn blocked_toggle(s: TaskState) -> TaskState {
    if s == TaskState::Blocked { TaskState::Todo } else { TaskState::Blocked }
}

/// Parked goes back to todo; any other state becomes parked.
pub open spec fn parked_toggle(s: TaskState) -> TaskState {
    if s == TaskState::Parked { TaskState::Todo } else { TaskState::Parked }
}

/// Toggle blocked: any → blocked, blocked → todo.
pub fn set_blocked(task: &mut Task)
    ensures
        exists|d: Seq<char>| #[trigger] state_set(old(task)@, final(task)@,
            blocked_toggle(old(task)@.state), d),
{
    if task.state == TaskState::Blocked {
        set_state(task, TaskState::Todo);
    } else {
        set_state(task, TaskState::Blocked);
    }
}

/// Toggle parked: any → parked, parked → todo.
pub fn set_parked(task: &mut Task)
    ensures
        exists|d: Seq<char>| #[trigger] state_set(old(task)@, final(task)@,
            parked_toggle(old(task)@.state), d),
{
    if task.state == TaskState::Parked {
        set_state(task, TaskState::Todo);
    } else {
        set_state(task, TaskState::Parked);
    }
}

/// Set done: any → done, recording `resolved:` today.
pub fn set_done(task: &mut Task)
    ensures
        exists|d: Seq<char>| #[trigger] state_set(old(task)@, final(task)@, TaskState::Done, d),
{
    set_state(task, TaskState::Done);
}

/// After an edit that keeps the ID, the first task holding `id` is the
/// edit of the one found before it.
pub proof fn lemma_find_after_edit(ts: Seq<TaskV>, i: int, id: Seq<char>, f: spec_fn(TaskV) -> TaskV)
    requires
        forall|x: TaskV| (#[trigger] f(x)).id == x.id,
    ensures
        find_from(ts, i, id) matches Some(t) ==> find_from(edit_from(ts, i, id, f), i, id) == Some(f(t)),
    decreases ts, ts.len() - i,
{
    if 0 <= i < ts.len() {
        let e = edit_from(ts, i, id, f);
        if has_id(ts[i], id) {
            assert(e[i] == f(ts[i]));
            assert(has_id(e[i], id));
        } else {
            assert(decreases_to!(ts => ts[i]));
            if find_from(ts[i].subtasks, 0, id) is Some {
                assert(decreases_to!(ts[i] => ts[i].subtasks));
                lemma_find_after_edit(ts[i].subtasks, 0, id, f);
                assert(e[i] == TaskV { subtasks: edit_from(ts[i].subtasks, 0, id, f), ..ts[i] });
                assert(!has_id(e[i], id));
            } else {
                lemma_find_after_edit(ts, i + 1, id, f);
                lemma_edit_from_prefix(ts, i + 1, id, f);
                assert(e[i] == ts[i]);
            }
        }
    }
}

/// The track form of [`lemma_find_after_edit`].
pub proof fn lemma_find_after_track_edit(nodes: Seq<NodeV>, i: int, id: Seq<char>, f: spec_fn(TaskV) -> TaskV)
    requires
        forall|x: TaskV| (#[trigger] f(x)).id == x.id,
    ensures
        find_nodes_from(nodes, i, id) matches Some(t) ==> find_nodes_from(edit_nodes_from(nodes, i, id, f), i, id) == Some(f(t)),
    decreases nodes.len() - i,
{
    if 0 <= i < nodes.len() {
        let e = edit_nodes_from(nodes, i, id, f);
        match nodes[i] {
            NodeV::Section { tasks, .. } => {
                if find_in(tasks, id) is Some {
                    lemma_find_after_edit(tasks, 0, id, f);
                    let n2 = with_tasks(nodes[i], edit_in(tasks, id, f));
                    assert(e[i] == n2);
                    assert(node_tasks(n2) == edit_in(tasks, id, f));
                } else {
                    lemma_find_after_track_edit(nodes, i + 1, id, f);
                    lemma_edit_nodes_prefix(nodes, i + 1, id, f);
                    assert(e[i] == nodes[i]);
                }
            },
            NodeV::Literal(_) => {
                lemma_find_after_track_edit(nodes, i + 1, id, f);
                lemma_edit_nodes_prefix(nodes, i + 1, id, f);
                assert(e[i] == nodes[i]);
            },
        }
    }
}

} // verus!
