//! Operations on whole subtrees: adding subtasks, moving tasks between
//! positions, sections and tracks, renumbering, reparenting and hard
//! deletion.

use vstd::prelude::*;
use crate::model::{
    ensured_v,
    clone_opt_string, opt_str_v, meta_v, metas_v, node_v, strs_v, Metadata, MetaV, fresh_section, lemma_section_from, node_tasks, section_pos, section_tasks_v, tasks_v,
    with_tasks, SectionKind, Task, TaskV, Track, TrackNode, NodeV,
};
use crate::task_ops::{
    deps_mention, list_of, add_child_v, child_id, child_pos_from, child_position, dash, edit_fn, edit_in_track,
    has_id, id_is, insert_child_at_v, lemma_edit_nodes_none, edit_in_track_exec, find_in, find_in_track, find_task_in_list, find_task_in_track, format_child_id, format_top_id,
    insert_at, insert_index, lemma_child_pos, max_nat, max_num_track, new_task, new_task_v,
    next_id_number, set_section, top_id, TaskEdit, TaskError, InsertPosition,
};
use crate::text::{str_eq, chars_of, is_digits, parse_decimal, seq_starts_with, starts_with, value_v};

verus! {

// ---------------------------------------------------------------------------
// Child numbers
// ---------------------------------------------------------------------------

/// The number a direct child's ID carries under `parent`: `P.7` carries 7
/// under `P`. `None` for a grandchild's ID, another parent's, or a suffix
/// that is not a run of digits fitting a `usize`.
pub open spec fn child_suffix(id: Seq<char>, parent: Seq<char>) -> Option<nat> {
    let p = parent.push('.');
    if starts_with(id, p) {
        let rest = id.subrange(p.len() as int, id.len() as int);
        if is_digits(rest) && value_v(rest) <= usize::MAX {
            Some(value_v(rest))
        } else {
            None
        }
    } else {
        None
    }
}

/// The child number a task carries under `parent`, 0 when it carries none.
pub open spec fn child_number(t: TaskV, parent: Seq<char>) -> nat {
    match t.id {
        Some(id) => match child_suffix(id, parent) {
            Some(n) => n,
            None => 0,
        },
        None => 0,
    }
}

/// The highest child number among `subs`.
pub open spec fn max_child(subs: Seq<TaskV>, parent: Seq<char>) -> nat
    decreases subs.len(),
{
    if subs.len() == 0 {
        0
    } else {
        max_nat(max_child(subs.drop_last(), parent), child_number(subs.last(), parent))
    }
}

/// The number the next child of `t` gets: one past the highest its children
/// carry, so that numbers freed by deletions are not handed out again; for a
/// task without an ID, one past the number of children.
pub open spec fn next_child_v(t: TaskV) -> nat {
    match t.id {
        Some(p) => max_child(t.subtasks, p) + 1,
        None => t.subtasks.len() + 1,
    }
}

fn child_number_of(t: &Task, parent: &str) -> (r: usize)
    ensures
        r as nat == child_number(t@, parent@),
{
    match &t.id {
        Some(id) => {
            let cs = chars_of(id.as_str());
            let mut p = String::from_str(parent);
            p.push('.');
            let pc = chars_of(p.as_str());
            if seq_starts_with(&cs, &pc) {
                match parse_decimal(&cs, pc.len(), cs.len()) {
                    Some(n) => n,
                    None => 0,
                }
            } else {
                0
            }
        },
        None => 0,
    }
}

/// The number the next child of `parent` gets (see [`next_child_v`]).
pub fn next_child_number(parent: &Task) -> (r: usize)
    requires
        next_child_v(parent@) <= usize::MAX,
    ensures
        r as nat == next_child_v(parent@),
{
    assert(tasks_v(parent.subtasks@) =~= parent@.subtasks);
    match &parent.id {
        None => parent.subtasks.len() + 1,
        Some(pid) => {
            let ghost subs = parent@.subtasks;
            let mut m: usize = 0;
            let mut i: usize = 0;
            while i < parent.subtasks.len()
                invariant
                    i <= parent.subtasks@.len(),
                    subs == tasks_v(parent.subtasks@),
                    m as nat == max_child(subs.take(i as int), pid@),
                decreases parent.subtasks.len() - i,
            {
                assert(subs.take(i + 1).drop_last() =~= subs.take(i as int));
                let n = child_number_of(&parent.subtasks[i], pid.as_str());
                if n > m {
                    m = n;
                }
                i += 1;
            }
            assert(subs.take(subs.len() as int) =~= subs);
            m + 1
        },
    }
}

// ---------------------------------------------------------------------------
// Adding subtasks
// ---------------------------------------------------------------------------

pub open spec fn opt_ref_v(o: Option<&str>) -> Option<Seq<char>> {
    match o {
        Some(s) => Some(s@),
        None => None,
    }
}

/// What adding a subtask does, for a given date: `NotFound` when no task
/// holds `parent_id`, `MaxDepthReached` under a sub-subtask, and otherwise a
/// new todo child numbered [`next_child_v`] inserted after the child holding
/// `after` (last when there is none), its ID returned.
pub open spec fn add_subtask_post(
    old: Seq<NodeV>,
    new: Seq<NodeV>,
    parent_id: Seq<char>,
    after: Option<Seq<char>>,
    title: Seq<char>,
    today: Seq<char>,
    r: Result<String, TaskError>,
) -> bool {
    match find_in_track(old, parent_id) {
        None => (r matches Err(TaskError::NotFound(s)) && s@ == parent_id) && new == old,
        Some(p) => if p.depth >= 2 {
            r matches Err(TaskError::MaxDepthReached) && new == old
        } else {
            let sid = child_id(parent_id, next_child_v(p));
            &&& r matches Ok(s) && s@ == sid
            &&& new == edit_in_track(
                old,
                parent_id,
                |t: TaskV| add_child_v(t, new_task_v(sid, title, today, (p.depth + 1) as usize), after),
            )
        },
    }
}

/// Whether the next child number of the task holding `parent_id` fits a
/// `usize`.
pub open spec fn child_number_fits(nodes: Seq<NodeV>, parent_id: Seq<char>) -> bool {
    find_in_track(nodes, parent_id) matches Some(p) ==> next_child_v(p) <= usize::MAX
}

/// Add a subtask under the task holding `parent_id`, after the child holding
/// `after` (or last), with the given `added:` date.
pub fn add_subtask_dated(
    track: &mut Track,
    parent_id: &str,
    after: Option<&str>,
    title: String,
    today: &str,
) -> (r: Result<String, TaskError>)
    requires
        child_number_fits(old(track)@, parent_id@),
    ensures
        add_subtask_post(old(track)@, final(track)@, parent_id@, opt_ref_v(after), title@, today@, r),
{
    let (num, depth) = match find_task_in_track(track, parent_id) {
        None => {
            return Err(TaskError::NotFound(String::from_str(parent_id)));
        },
        Some(p) => {
            if p.depth >= 2 {
                return Err(TaskError::MaxDepthReached);
            }
            (next_child_number(p), p.depth + 1)
        },
    };
    let sid = format_child_id(parent_id, num);
    let child = new_task(sid.clone(), title.as_str(), today, depth);
    let after_s: Option<String> = match after {
        Some(a) => Some(String::from_str(a)),
        None => None,
    };
    let ghost cv = child@;
    let e = TaskEdit::AddChild { child, after: after_s };
    let _ = edit_in_track_exec(track, parent_id, e);
    assert(edit_fn(e) =~= (|t: TaskV| add_child_v(t, cv, opt_ref_v(after))));
    Ok(sid)
}

/// Add a subtask, last under the task holding `parent_id`, dated today.
/// Returns the assigned subtask ID.
pub fn add_subtask(track: &mut Track, parent_id: &str, title: String) -> (r: Result<String, TaskError>)
    requires
        child_number_fits(old(track)@, parent_id@),
    ensures
        exists|d: Seq<char>| #[trigger] add_subtask_post(old(track)@, final(track)@, parent_id@, None, title@, d, r),
{
    let today = crate::clock::today_str();
    add_subtask_dated(track, parent_id, None, title, today.as_str())
}

/// Add a subtask under the task holding `parent_id`, right after the child
/// holding `after_sibling_id` (last when no child holds it), dated today.
pub fn add_subtask_after(
    track: &mut Track,
    parent_id: &str,
    after_sibling_id: &str,
    title: String,
) -> (r: Result<String, TaskError>)
    requires
        child_number_fits(old(track)@, parent_id@),
    ensures
        exists|d: Seq<char>| #[trigger] add_subtask_post(
            old(track)@, final(track)@, parent_id@, Some(after_sibling_id@), title@, d, r),
{
    let today = crate::clock::today_str();
    add_subtask_dated(track, parent_id, Some(after_sibling_id), title, today.as_str())
}

// ---------------------------------------------------------------------------
// Moves within a track
// ---------------------------------------------------------------------------

pub(crate) fn section_index_of(track: &Track, kind: SectionKind) -> (r: Option<usize>)
    ensures
        match r {
            Some(i) => section_pos(track@, kind) == Some(i as int) && i < track@.len()
                && track@[i as int] is Section
                && node_tasks(track@[i as int]) == section_tasks_v(track@, kind),
            None => section_pos(track@, kind) is None,
        },
{
    proof { lemma_section_from(track@, kind, 0); }
    track.section_index(kind)
}

/// Whether a top-level task of the first section of `section` holds the ID.
pub fn is_top_level_in_section(track: &Track, task_id: &str, section: SectionKind) -> (r: bool)
    ensures
        r == (child_pos_from(section_tasks_v(track@, section), task_id@, 0) is Some),
{
    let tasks = track.section_tasks(section);
    child_position(tasks, task_id).is_some()
}

/// What [`move_task`] does: the first top-level backlog task holding the ID
/// is taken out and put back where `pos` says in what is left. When the
/// `After` target is missing the task stays taken out.
pub open spec fn move_task_post(
    old: Seq<NodeV>,
    new: Seq<NodeV>,
    id: Seq<char>,
    pos: InsertPosition,
    r: Result<(), TaskError>,
) -> bool {
    let bl = section_tasks_v(old, SectionKind::Backlog);
    if section_pos(old, SectionKind::Backlog) is None {
        r matches Err(TaskError::InvalidPosition(_)) && new == old
    } else {
        match child_pos_from(bl, id, 0) {
            None => (r matches Err(TaskError::NotFound(s)) && s@ == id) && new == old,
            Some(k) => {
                let rest = bl.remove(k);
                match insert_index(rest, pos) {
                    None => r matches Err(TaskError::NotFound(_)) && new == set_section(old, SectionKind::Backlog, rest),
                    Some(j) => r is Ok && new == set_section(old, SectionKind::Backlog, rest.insert(j, bl[k])),
                }
            },
        }
    }
}

/// Move a task within the same track's backlog (reorder).
pub fn move_task(track: &mut Track, task_id: &str, position: InsertPosition) -> (r: Result<(), TaskError>)
    ensures
        move_task_post(old(track)@, final(track)@, task_id@, position, r),
{
    let bi = match section_index_of(track, SectionKind::Backlog) {
        Some(i) => i,
        None => {
            return Err(TaskError::InvalidPosition(String::from_str("no backlog section")));
        },
    };
    let ghost n = old(track)@[bi as int];
    let ghost bl = node_tasks(n);
    proof { lemma_child_pos(bl, task_id@, 0); }
    let idx = match child_position(track.section_tasks(SectionKind::Backlog), task_id) {
        Some(k) => k,
        None => {
            return Err(TaskError::NotFound(String::from_str(task_id)));
        },
    };
    let mut tasks = track.swap_section_tasks(bi, Vec::new());
    assert(tasks_v(tasks@) == bl);
    let task = tasks.remove(idx);
    assert(tasks_v(tasks@) =~= bl.remove(idx as int));
    assert(task@ == bl[idx as int]);
    let res = insert_at(&mut tasks, task, &position);
    assert(track@.len() == track.nodes@.len());
    let _ = track.swap_section_tasks(bi, tasks);
    proof {
        assert(with_tasks(with_tasks(n, Seq::empty()), tasks_v(tasks@)) == with_tasks(n, tasks_v(tasks@)));
        assert(track@ =~= old(track)@.update(bi as int, with_tasks(n, tasks_v(tasks@))));
    }
    res
}


/// What [`move_task_between_sections`] does: the first top-level task of
/// section `from` holding the ID, with its subtree, goes to the top of
/// section `to` (which is created when missing); its old index is returned.
pub open spec fn section_move_post(
    old: Seq<NodeV>,
    new: Seq<NodeV>,
    id: Seq<char>,
    from: SectionKind,
    to: SectionKind,
    r: Option<usize>,
) -> bool {
    let src = section_tasks_v(old, from);
    if section_pos(old, from) is None {
        r is None && new == old
    } else {
        match child_pos_from(src, id, 0) {
            None => r is None && new == old,
            Some(k) => {
                let mid = ensured_v(set_section(old, from, src.remove(k)), to);
                &&& r == Some(k as usize)
                &&& new == set_section(mid, to, section_tasks_v(mid, to).insert(0, src[k]))
            },
        }
    }
}

/// Move a top-level task (with its entire subtree) from one section to
/// another. Returns the original index in the source section, or `None` when
/// no top-level task of the source section holds the ID.
pub fn move_task_between_sections(
    track: &mut Track,
    task_id: &str,
    from: SectionKind,
    to: SectionKind,
) -> (r: Option<usize>)
    ensures
        section_move_post(old(track)@, final(track)@, task_id@, from, to, r),
{
    let si = match section_index_of(track, from) {
        Some(i) => i,
        None => {
            return None;
        },
    };
    let ghost src = section_tasks_v(old(track)@, from);
    proof { lemma_child_pos(src, task_id@, 0); }
    let idx = match child_position(track.section_tasks(from), task_id) {
        Some(k) => k,
        None => {
            return None;
        },
    };
    let ghost n = old(track)@[si as int];
    let mut tasks = track.swap_section_tasks(si, Vec::new());
    let task = tasks.remove(idx);
    assert(tasks_v(tasks@) =~= src.remove(idx as int));
    assert(task@ == src[idx as int]);
    assert(track@.len() == track.nodes@.len());
    let _ = track.swap_section_tasks(si, tasks);
    proof {
        assert(with_tasks(with_tasks(n, Seq::empty()), tasks_v(tasks@)) == with_tasks(n, tasks_v(tasks@)));
        assert(track@ =~= set_section(old(track)@, from, src.remove(idx as int)));
    }
    let ghost mid0 = track@;
    track.ensure_section(to);
    assert(track@ == ensured_v(mid0, to));
    let ghost mid = track@;
    let di = match section_index_of(track, to) {
        Some(i) => i,
        None => {
            assert(false);
            return Some(idx);
        },
    };
    let ghost dn = mid[di as int];
    let mut dest = track.swap_section_tasks(di, Vec::new());
    let ghost dv = tasks_v(dest@);
    dest.insert(0, task);
    assert(tasks_v(dest@) =~= dv.insert(0, src[idx as int]));
    assert(track@.len() == track.nodes@.len());
    let _ = track.swap_section_tasks(di, dest);
    proof {
        assert(with_tasks(with_tasks(dn, Seq::empty()), tasks_v(dest@)) == with_tasks(dn, tasks_v(dest@)));
        assert(track@ =~= set_section(mid, to, section_tasks_v(mid, to).insert(0, src[idx as int])));
    }
    Some(idx)
}


// ---------------------------------------------------------------------------
// Renumbering and rekeying
// ---------------------------------------------------------------------------

/// `t` under the ID `nid`, marked dirty, with its children renumbered under
/// it (see [`rekey_children`]).
pub open spec fn rekeyed(t: TaskV, nid: Seq<char>) -> TaskV
    decreases t, 0int,
{
    TaskV { id: Some(nid), dirty: true, subtasks: rekey_children(t.subtasks, nid), ..t }
}

/// Children renumbered under `pid`: the child at index `i` becomes
/// `pid.(i+1)`, recursively.
pub open spec fn rekey_children(subs: Seq<TaskV>, pid: Seq<char>) -> Seq<TaskV>
    decreases subs, 1int,
{
    Seq::new(
        subs.len(),
        |i: int|
            if 0 <= i < subs.len() {
                rekeyed(subs[i], child_id(pid, (i + 1) as nat))
            } else {
                arbitrary()
            },
    )
}

/// The `(old ID, new ID)` pairs that rekeying `t` to `nid` makes, in file
/// order; a task without an ID contributes no pair.
pub open spec fn rekey_map(t: TaskV, nid: Seq<char>) -> Seq<(Seq<char>, Seq<char>)>
    decreases t, 0int,
{
    let own = match t.id {
        Some(o) => seq![(o, nid)],
        None => Seq::empty(),
    };
    own + children_map(t.subtasks, nid, 0)
}

/// The pairs that renumbering `subs[i..]` under `pid` makes.
pub open spec fn children_map(subs: Seq<TaskV>, pid: Seq<char>, i: int) -> Seq<(Seq<char>, Seq<char>)>
    decreases subs, subs.len() - i,
{
    if i < 0 || i >= subs.len() {
        Seq::empty()
    } else {
        rekey_map(subs[i], child_id(pid, (i + 1) as nat)) + children_map(subs, pid, i + 1)
    }
}

pub open spec fn pairs_v(v: Seq<(String, String)>) -> Seq<(Seq<char>, Seq<char>)> {
    v.map_values(|p: (String, String)| (p.0@, p.1@))
}

/// Renumber the children in `subs` under `pid`, appending the pairs made.
fn rekey_list(subs: &mut Vec<Task>, pid: &str, out: &mut Vec<(String, String)>)
    ensures
        tasks_v(final(subs)@) == rekey_children(tasks_v(old(subs)@), pid@),
        pairs_v(final(out)@) == pairs_v(old(out)@) + children_map(tasks_v(old(subs)@), pid@, 0),
    decreases tasks_v(old(subs)@),
{
    let ghost ts = tasks_v(subs@);
    let ghost out0 = pairs_v(out@);
    let mut i: usize = 0;
    while i < subs.len()
        invariant
            i <= subs@.len(),
            subs@.len() == ts.len(),
            ts == tasks_v(old(subs)@),
            forall|k: int| i <= k < ts.len() ==> tasks_v(subs@)[k] == ts[k],
            forall|k: int| 0 <= k < i ==> tasks_v(subs@)[k] == rekey_children(ts, pid@)[k],
            out0 + children_map(ts, pid@, 0) == pairs_v(out@) + children_map(ts, pid@, i as int),
        decreases subs@.len() - i,
    {
        let nid = format_child_id(pid, i + 1);
        let ghost before = pairs_v(out@);
        let ghost subs_before = subs@;
        let mut t = subs.remove(i);
        assert(t@ == ts[i as int]);
        let ghost t0 = t@;
        let ghost own = match t0.id {
            Some(o) => seq![(o, nid@)],
            None => Seq::<(Seq<char>, Seq<char>)>::empty(),
        };
        if let Some(o) = &t.id {
            out.push((o.clone(), nid.clone()));
        }
        assert(pairs_v(out@) =~= before + own);
        let ghost after_own = pairs_v(out@);
        t.id = Some(nid.clone());
        t.dirty = true;
        proof {
            assert(decreases_to!(ts => ts[i as int]));
            assert(tasks_v(t.subtasks@) =~= t0.subtasks);
        }
        rekey_list(&mut t.subtasks, nid.as_str(), out);
        proof {
            assert(t@ =~= rekeyed(t0, nid@)) by {
                assert(t@.subtasks =~= tasks_v(t.subtasks@));
            }
            assert(rekey_map(t0, nid@) == own + children_map(t0.subtasks, nid@, 0));
            assert(children_map(ts, pid@, i as int) == rekey_map(ts[i as int], nid@) + children_map(ts, pid@, i + 1));
            assert(pairs_v(out@) + children_map(ts, pid@, i + 1) =~= before + children_map(ts, pid@, i as int));
        }
        subs.insert(i, t);
        proof {
            assert(subs@ =~= subs_before.update(i as int, t));
            assert forall|k: int| 0 <= k < i + 1 implies tasks_v(subs@)[k] == rekey_children(ts, pid@)[k] by {
                if k < i {
                    assert(tasks_v(subs@)[k] == tasks_v(subs_before)[k]);
                }
            }
            assert forall|k: int| i + 1 <= k < ts.len() implies tasks_v(subs@)[k] == ts[k] by {
                assert(tasks_v(subs@)[k] == tasks_v(subs_before)[k]);
            }
        }
        i += 1;
    }
    proof {
        assert(tasks_v(subs@) =~= rekey_children(ts, pid@));
    }
}


/// Renumber the children of `task` under `parent_id`, recursively: the
/// child at index `i` becomes `parent_id.(i+1)`.
pub fn renumber_subtasks(task: &mut Task, parent_id: &str)
    ensures
        final(task)@ == (TaskV { subtasks: rekey_children(old(task)@.subtasks, parent_id@), ..old(task)@ }),
{
    let mut out: Vec<(String, String)> = Vec::new();
    assert(tasks_v(task.subtasks@) =~= task@.subtasks);
    rekey_list(&mut task.subtasks, parent_id, &mut out);
    assert(task@.subtasks =~= tasks_v(task.subtasks@));
}

/// Give `task` the ID `new_id` and renumber its descendants under it.
/// Returns the `(old ID, new ID)` pairs made, in file order.
pub fn rekey_subtree(task: &mut Task, new_id: &str) -> (r: Vec<(String, String)>)
    ensures
        final(task)@ == rekeyed(old(task)@, new_id@),
        pairs_v(r@) == rekey_map(old(task)@, new_id@),
{
    let mut out: Vec<(String, String)> = Vec::new();
    if let Some(o) = &task.id {
        out.push((o.clone(), String::from_str(new_id)));
    }
    let ghost own = pairs_v(out@);
    task.id = Some(String::from_str(new_id));
    task.dirty = true;
    assert(tasks_v(task.subtasks@) =~= old(task)@.subtasks);
    rekey_list(&mut task.subtasks, new_id, &mut out);
    assert(task@.subtasks =~= tasks_v(task.subtasks@));
    assert(own =~= match old(task)@.id {
        Some(o) => seq![(o, new_id@)],
        None => Seq::<(Seq<char>, Seq<char>)>::empty(),
    });
    out
}

// ---------------------------------------------------------------------------
// Dependency references
// ---------------------------------------------------------------------------

pub open spec fn swap_dep(d: Seq<char>, old_id: Seq<char>, new_id: Seq<char>) -> Seq<char> {
    if d == old_id { new_id } else { d }
}

/// A metadata line with `old_id` replaced by `new_id` when it is a `dep:`
/// line.
pub open spec fn meta_deps_swapped(m: MetaV, old_id: Seq<char>, new_id: Seq<char>) -> MetaV {
    match m {
        MetaV::Dep(v) => MetaV::Dep(v.map_values(|d: Seq<char>| swap_dep(d, old_id, new_id))),
        _ => m,
    }
}

/// A task and its descendants with every `dep:` entry `old_id` replaced by
/// `new_id`; each task that had one is marked dirty.
pub open spec fn deps_swapped(t: TaskV, old_id: Seq<char>, new_id: Seq<char>) -> TaskV
    decreases t, 0int,
{
    TaskV {
        metadata: t.metadata.map_values(|m: MetaV| meta_deps_swapped(m, old_id, new_id)),
        dirty: t.dirty || deps_mention(t.metadata, old_id),
        subtasks: deps_swapped_list(t.subtasks, old_id, new_id),
        ..t
    }
}

pub open spec fn deps_swapped_list(ts: Seq<TaskV>, old_id: Seq<char>, new_id: Seq<char>) -> Seq<TaskV>
    decreases ts, 1int,
{
    Seq::new(
        ts.len(),
        |i: int|
            if 0 <= i < ts.len() {
                deps_swapped(ts[i], old_id, new_id)
            } else {
                arbitrary()
            },
    )
}

/// The nodes of a track with the dependency references swapped in every
/// section.
pub open spec fn deps_swapped_nodes(nodes: Seq<NodeV>, old_id: Seq<char>, new_id: Seq<char>) -> Seq<NodeV> {
    nodes.map_values(|n: NodeV| with_tasks(n, deps_swapped_list(node_tasks(n), old_id, new_id)))
}

proof fn lemma_push_contains<A>(s: Seq<A>, a: A, x: A)
    ensures
        s.push(a).contains(x) == (s.contains(x) || a == x),
{
    if s.push(a).contains(x) {
        let k = choose|k: int| 0 <= k < s.push(a).len() && s.push(a)[k] == x;
        if k < s.len() {
            assert(s[k] == x);
        }
    }
    if s.contains(x) {
        let k = choose|k: int| 0 <= k < s.len() && s[k] == x;
        assert(s.push(a)[k] == x);
    }
    if a == x {
        assert(s.push(a)[s.len() as int] == x);
    }
}

fn swap_in_list(v: &Vec<String>, old_id: &str, new_id: &str) -> (r: (Vec<String>, bool))
    ensures
        strs_v(r.0@) == strs_v(v@).map_values(|d: Seq<char>| swap_dep(d, old_id@, new_id@)),
        r.1 == strs_v(v@).contains(old_id@),
{
    let mut out: Vec<String> = Vec::new();
    let mut hit = false;
    let mut i: usize = 0;
    while i < v.len()
        invariant
            i <= v@.len(),
            strs_v(out@) == strs_v(v@).take(i as int).map_values(|d: Seq<char>| swap_dep(d, old_id@, new_id@)),
            hit == strs_v(v@).take(i as int).contains(old_id@),
        decreases v.len() - i,
    {
        let ghost before = strs_v(out@);
        assert(strs_v(v@).take(i + 1) =~= strs_v(v@).take(i as int).push(v@[i as int]@));
        if str_eq(v[i].as_str(), old_id) {
            out.push(String::from_str(new_id));
            hit = true;
        } else {
            out.push(v[i].clone());
        }
        proof { lemma_push_contains(strs_v(v@).take(i as int), v@[i as int]@, old_id@); }
        assert(strs_v(out@) =~= before.push(swap_dep(v@[i as int]@, old_id@, new_id@)));
        assert(strs_v(out@) =~= strs_v(v@).take(i + 1).map_values(|d: Seq<char>| swap_dep(d, old_id@, new_id@)));
        i += 1;
    }
    assert(strs_v(v@).take(v@.len() as int) =~= strs_v(v@));
    (out, hit)
}

fn swap_in_metadata(ms: &Vec<Metadata>, old_id: &str, new_id: &str) -> (r: (Vec<Metadata>, bool))
    ensures
        metas_v(r.0@) == metas_v(ms@).map_values(|m: MetaV| meta_deps_swapped(m, old_id@, new_id@)),
        r.1 == deps_mention(metas_v(ms@), old_id@),
{
    let ghost mv = metas_v(ms@);
    let mut out: Vec<Metadata> = Vec::new();
    let mut hit = false;
    let mut i: usize = 0;
    while i < ms.len()
        invariant
            i <= ms@.len(),
            mv == metas_v(ms@),
            metas_v(out@) == mv.take(i as int).map_values(|m: MetaV| meta_deps_swapped(m, old_id@, new_id@)),
            hit == deps_mention(mv.take(i as int), old_id@),
        decreases ms.len() - i,
    {
        let ghost before = metas_v(out@);
        let m = match &ms[i] {
            Metadata::Dep(v) => {
                let (nv, h) = swap_in_list(v, old_id, new_id);
                if h {
                    hit = true;
                }
                Metadata::Dep(nv)
            },
            other => other.duplicate(),
        };
        assert(meta_v(m) == meta_deps_swapped(mv[i as int], old_id@, new_id@));
        out.push(m);
        assert(metas_v(out@) =~= before.push(meta_v(m)));
        proof {
            let tk = mv.take(i + 1);
            assert(tk =~= mv.take(i as int).push(mv[i as int]));
            assert(metas_v(out@) =~= tk.map_values(|m: MetaV| meta_deps_swapped(m, old_id@, new_id@)));
            assert(deps_mention(tk, old_id@) == (deps_mention(mv.take(i as int), old_id@)
                || (mv[i as int] is Dep && list_of(mv[i as int]).contains(old_id@)))) by {
                if deps_mention(tk, old_id@) {
                    let k = choose|k: int| 0 <= k < tk.len() && (#[trigger] tk[k]) is Dep && list_of(tk[k]).contains(old_id@);
                    if k < i {
                        assert(mv.take(i as int)[k] == tk[k]);
                    }
                }
                if deps_mention(mv.take(i as int), old_id@) {
                    let k = choose|k: int| 0 <= k < i && (#[trigger] mv.take(i as int)[k]) is Dep
                        && list_of(mv.take(i as int)[k]).contains(old_id@);
                    assert(tk[k] == mv.take(i as int)[k]);
                }
                if mv[i as int] is Dep && list_of(mv[i as int]).contains(old_id@) {
                    assert(tk[i as int] == mv[i as int]);
                }
            }
        }
        i += 1;
    }
    assert(mv.take(ms@.len() as int) =~= mv);
    (out, hit)
}

fn update_deps_in_tasks(tasks: &mut Vec<Task>, old_id: &str, new_id: &str)
    ensures
        tasks_v(final(tasks)@) == deps_swapped_list(tasks_v(old(tasks)@), old_id@, new_id@),
    decreases tasks_v(old(tasks)@),
{
    let ghost ts = tasks_v(tasks@);
    let mut i: usize = 0;
    while i < tasks.len()
        invariant
            i <= tasks@.len(),
            tasks@.len() == ts.len(),
            ts == tasks_v(old(tasks)@),
            forall|k: int| i <= k < ts.len() ==> tasks_v(tasks@)[k] == ts[k],
            forall|k: int| 0 <= k < i ==> tasks_v(tasks@)[k] == deps_swapped_list(ts, old_id@, new_id@)[k],
        decreases tasks@.len() - i,
    {
        let ghost before = tasks@;
        let mut t = tasks.remove(i);
        assert(t@ == ts[i as int]);
        let ghost t0 = t@;
        let (ms, hit) = swap_in_metadata(&t.metadata, old_id, new_id);
        t.metadata = ms;
        if hit {
            t.dirty = true;
        }
        proof {
            assert(decreases_to!(ts => ts[i as int]));
            assert(tasks_v(t.subtasks@) =~= t0.subtasks);
        }
        update_deps_in_tasks(&mut t.subtasks, old_id, new_id);
        assert(t@ =~= deps_swapped(t0, old_id@, new_id@)) by {
            assert(t@.subtasks =~= tasks_v(t.subtasks@));
        }
        tasks.insert(i, t);
        proof {
            assert(tasks@ =~= before.update(i as int, t));
            assert forall|k: int| 0 <= k < i + 1 implies tasks_v(tasks@)[k] == deps_swapped_list(ts, old_id@, new_id@)[k] by {
                if k < i {
                    assert(tasks_v(tasks@)[k] == tasks_v(before)[k]);
                }
            }
            assert forall|k: int| i + 1 <= k < ts.len() implies tasks_v(tasks@)[k] == ts[k] by {
                assert(tasks_v(tasks@)[k] == tasks_v(before)[k]);
            }
        }
        i += 1;
    }
    assert(tasks_v(tasks@) =~= deps_swapped_list(ts, old_id@, new_id@));
}

/// Replace every dependency reference `old_id` with `new_id` in one track.
pub fn update_dep_references_in_track(track: &mut Track, old_id: &str, new_id: &str)
    ensures
        final(track)@ == deps_swapped_nodes(old(track)@, old_id@, new_id@),
{
    let ghost nv = track@;
    let mut i: usize = 0;
    while i < track.nodes.len()
        invariant
            i <= track.nodes@.len(),
            track@.len() == nv.len(),
            nv == old(track)@,
            forall|k: int| i <= k < nv.len() ==> track@[k] == nv[k],
            forall|k: int| 0 <= k < i ==> track@[k] == deps_swapped_nodes(nv, old_id@, new_id@)[k],
        decreases track.nodes@.len() - i,
    {
        let is_section = match &track.nodes[i] {
            TrackNode::Section { .. } => true,
            TrackNode::Literal(_) => false,
        };
        assert(track@[i as int] == node_v(track.nodes@[i as int]));
        if is_section {
            let ghost before = track@;
            let mut tasks = track.swap_section_tasks(i, Vec::new());
            update_deps_in_tasks(&mut tasks, old_id, new_id);
            assert(track@.len() == track.nodes@.len());
            let _ = track.swap_section_tasks(i, tasks);
            proof {
                let n = before[i as int];
                assert(with_tasks(with_tasks(n, Seq::empty()), tasks_v(tasks@)) == with_tasks(n, tasks_v(tasks@)));
                assert(track@ =~= before.update(i as int, with_tasks(n, tasks_v(tasks@))));
            }
        } else {
            assert(deps_swapped_nodes(nv, old_id@, new_id@)[i as int] == nv[i as int]);
        }
        i += 1;
    }
    assert(track@ =~= deps_swapped_nodes(nv, old_id@, new_id@));
}

/// Replace every dependency reference `old_id` with `new_id` in every track.
pub fn update_dep_references(tracks: &mut [(String, Track)], old_id: &str, new_id: &str)
    ensures
        final(tracks)@.len() == old(tracks)@.len(),
        forall|k: int| 0 <= k < old(tracks)@.len() ==> (#[trigger] final(tracks)@[k]).0 == old(tracks)@[k].0
            && final(tracks)@[k].1@ == deps_swapped_nodes(old(tracks)@[k].1@, old_id@, new_id@),
{
    let ghost orig = tracks@;
    let mut i: usize = 0;
    while i < tracks.len()
        invariant
            i <= tracks@.len(),
            tracks@.len() == orig.len(),
            orig == old(tracks)@,
            forall|k: int| i <= k < orig.len() ==> tracks@[k] == orig[k],
            forall|k: int| 0 <= k < i ==> (#[trigger] tracks@[k]).0 == orig[k].0
                && tracks@[k].1@ == deps_swapped_nodes(orig[k].1@, old_id@, new_id@),
        decreases tracks@.len() - i,
    {
        let (_, tail) = tracks.split_at_mut(i);
        match tail.first_mut() {
            Some(e) => {
                update_dep_references_in_track(&mut e.1, old_id, new_id);
            },
            None => {},
        }
        i += 1;
    }
}


// ---------------------------------------------------------------------------
// Subtree measures and depths
// ---------------------------------------------------------------------------

/// How many levels lie below a task: 0 without children, else one more than
/// the deepest child.
pub open spec fn height(t: TaskV) -> nat
    decreases t, 0int,
{
    if t.subtasks.len() == 0 {
        0
    } else {
        1 + max_height_from(t.subtasks, 0)
    }
}

/// The greatest height among `ts[i..]`, 0 when there are none.
pub open spec fn max_height_from(ts: Seq<TaskV>, i: int) -> nat
    decreases ts, ts.len() - i,
{
    if i < 0 || i >= ts.len() {
        0
    } else {
        max_nat(height(ts[i]), max_height_from(ts, i + 1))
    }
}

/// How many tasks a subtree holds, its root included.
pub open spec fn size(t: TaskV) -> nat
    decreases t, 0int,
{
    1 + size_from(t.subtasks, 0)
}

/// How many tasks the subtrees of `ts[i..]` hold.
pub open spec fn size_from(ts: Seq<TaskV>, i: int) -> nat
    decreases ts, ts.len() - i,
{
    if i < 0 || i >= ts.len() {
        0
    } else {
        size(ts[i]) + size_from(ts, i + 1)
    }
}

pub open spec fn capped(n: nat) -> nat {
    if n <= usize::MAX { n } else { usize::MAX as nat }
}

/// The height of a task's subtree (see [`height`]). A height past
/// `usize::MAX` is reported as `usize::MAX`.
pub fn max_subtree_depth(task: &Task) -> (r: usize)
    ensures
        r as nat == capped(height(task@)),
    decreases task@,
{
    let ghost ts = task@.subtasks;
    assert(tasks_v(task.subtasks@) =~= ts);
    if task.subtasks.len() == 0 {
        return 0;
    }
    let mut i = task.subtasks.len();
    let mut m: usize = 0;
    while i > 0
        invariant
            i <= ts.len(),
            ts == task@.subtasks,
            ts == tasks_v(task.subtasks@),
            m as nat == capped(max_height_from(ts, i as int)),
        decreases i,
    {
        let k = i - 1;
        assert(ts[k as int] == task.subtasks@[k as int]@);
        proof {
            assert(decreases_to!(task@ => task@.subtasks));
            assert(decreases_to!(task@.subtasks => task@.subtasks[k as int]));
        }
        let h = max_subtree_depth(&task.subtasks[k]);
        if h > m {
            m = h;
        }
        i = k;
    }
    if m == usize::MAX {
        usize::MAX
    } else {
        m + 1
    }
}

/// How many tasks the subtree holds, the task itself included. A count past
/// `usize::MAX` is reported as `usize::MAX`.
pub fn count_subtree_size(task: &Task) -> (r: usize)
    ensures
        r as nat == capped(size(task@)),
    decreases task@,
{
    let ghost ts = task@.subtasks;
    assert(tasks_v(task.subtasks@) =~= ts);
    let mut i = task.subtasks.len();
    let mut acc: usize = 0;
    while i > 0
        invariant
            i <= ts.len(),
            ts == task@.subtasks,
            ts == tasks_v(task.subtasks@),
            acc as nat == capped(size_from(ts, i as int)),
        decreases i,
    {
        let k = i - 1;
        assert(ts[k as int] == task.subtasks@[k as int]@);
        proof {
            assert(decreases_to!(task@ => task@.subtasks));
            assert(decreases_to!(task@.subtasks => task@.subtasks[k as int]));
        }
        let c = count_subtree_size(&task.subtasks[k]);
        acc = if acc > usize::MAX - c { usize::MAX } else { acc + c };
        i = k;
    }
    if acc == usize::MAX {
        usize::MAX
    } else {
        acc + 1
    }
}

/// `t` with depth `d`, its descendants one deeper per level, all marked
/// dirty.
pub open spec fn depth_set(t: TaskV, d: nat) -> TaskV
    decreases t, 0int,
{
    TaskV { depth: d as usize, dirty: true, subtasks: depth_set_list(t.subtasks, d + 1), ..t }
}

pub open spec fn depth_set_list(ts: Seq<TaskV>, d: nat) -> Seq<TaskV>
    decreases ts, 1int,
{
    Seq::new(
        ts.len(),
        |i: int|
            if 0 <= i < ts.len() {
                depth_set(ts[i], d)
            } else {
                arbitrary()
            },
    )
}

proof fn lemma_max_height_bound(ts: Seq<TaskV>, i: int, k: int)
    requires
        0 <= i <= k < ts.len(),
    ensures
        height(ts[k]) <= max_height_from(ts, i),
    decreases k - i,
{
    if i < k {
        lemma_max_height_bound(ts, i + 1, k);
    }
}

fn set_depth_list(tasks: &mut Vec<Task>, depth: usize)
    requires
        forall|k: int| 0 <= k < old(tasks)@.len() ==> depth + height(#[trigger] old(tasks)@[k]@) <= usize::MAX,
    ensures
        tasks_v(final(tasks)@) == depth_set_list(tasks_v(old(tasks)@), depth as nat),
    decreases tasks_v(old(tasks)@),
{
    let ghost ts = tasks_v(tasks@);
    assert forall|k: int| 0 <= k < ts.len() implies depth + height(#[trigger] ts[k]) <= usize::MAX by {
        assert(ts[k] == tasks@[k]@);
    }
    let mut i: usize = 0;
    while i < tasks.len()
        invariant
            i <= tasks@.len(),
            tasks@.len() == ts.len(),
            ts == tasks_v(old(tasks)@),
            forall|k: int| 0 <= k < ts.len() ==> depth + height(#[trigger] ts[k]) <= usize::MAX,
            forall|k: int| i <= k < ts.len() ==> tasks_v(tasks@)[k] == ts[k],
            forall|k: int| 0 <= k < i ==> tasks_v(tasks@)[k] == depth_set_list(ts, depth as nat)[k],
        decreases tasks@.len() - i,
    {
        let ghost before = tasks@;
        let mut t = tasks.remove(i);
        assert(t@ == ts[i as int]);
        proof {
            assert(decreases_to!(ts => ts[i as int]));
        }
        set_subtree_depth(&mut t, depth);
        tasks.insert(i, t);
        proof {
            assert(tasks@ =~= before.update(i as int, t));
            assert forall|k: int| 0 <= k < i + 1 implies tasks_v(tasks@)[k] == depth_set_list(ts, depth as nat)[k] by {
                if k < i {
                    assert(tasks_v(tasks@)[k] == tasks_v(before)[k]);
                }
            }
            assert forall|k: int| i + 1 <= k < ts.len() implies tasks_v(tasks@)[k] == ts[k] by {
                assert(tasks_v(tasks@)[k] == tasks_v(before)[k]);
            }
        }
        i += 1;
    }
    assert(tasks_v(tasks@) =~= depth_set_list(ts, depth as nat));
}

/// Set the depth of a task to `depth` and of its descendants accordingly,
/// marking them all dirty.
pub fn set_subtree_depth(task: &mut Task, depth: usize)
    requires
        depth + height(old(task)@) <= usize::MAX,
    ensures
        final(task)@ == depth_set(old(task)@, depth as nat),
    decreases old(task)@, 1int,
{
    let ghost t0 = task@;
    task.depth = depth;
    task.dirty = true;
    assert(tasks_v(task.subtasks@) =~= t0.subtasks);
    proof {
        assert forall|k: int| 0 <= k < task.subtasks@.len() implies (depth + 1) + height(#[trigger] task.subtasks@[k]@) <= usize::MAX by {
            assert(task.subtasks@[k]@ == t0.subtasks[k]);
            lemma_max_height_bound(t0.subtasks, 0, k);
        }
    }
    if task.subtasks.len() > 0 {
        set_depth_list(&mut task.subtasks, depth + 1);
    } else {
        assert(depth_set_list(t0.subtasks, (depth + 1) as nat) =~= t0.subtasks);
    }
    assert(task@.subtasks =~= tasks_v(task.subtasks@));
}

/// Whether the task holding `candidate_id` lies below the task holding
/// `ancestor_id` (first holders, in file order).
pub fn is_descendant_of(track: &Track, ancestor_id: &str, candidate_id: &str) -> (r: bool)
    ensures
        r == match find_in_track(track@, ancestor_id@) {
            Some(a) => find_in(a.subtasks, candidate_id@) is Some,
            None => false,
        },
{
    match find_task_in_track(track, ancestor_id) {
        Some(a) => {
            assert(tasks_v(a.subtasks@) =~= a@.subtasks);
            find_task_in_list(a.subtasks.as_slice(), candidate_id).is_some()
        },
        None => false,
    }
}


// ---------------------------------------------------------------------------
// Locations and removal
// ---------------------------------------------------------------------------

/// Where a task sits in a track: its section, its parent's ID (`None` at
/// top level) and its index among its siblings.
#[derive(Debug)]
pub struct TaskLocation {
    pub section: SectionKind,
    pub parent_id: Option<String>,
    pub sibling_index: usize,
}

impl TaskLocation {
    pub fn duplicate(&self) -> (r: TaskLocation)
        ensures
            r.section == self.section,
            opt_str_v(r.parent_id) == opt_str_v(self.parent_id),
            r.sibling_index == self.sibling_index,
    {
        TaskLocation { section: self.section, parent_id: clone_opt_string(&self.parent_id), sibling_index: self.sibling_index }
    }
}

/// Taking the first task holding `id` out of `ts[i..]` (whose parent holds
/// `pid`): the list left, the task taken, its parent's ID and its index among
/// its siblings. The search goes in file order but does not enter the
/// subtree of a task without an ID; the tasks on the path to the one taken
/// are marked dirty. `None` when the search finds nothing.
pub open spec fn removal(ts: Seq<TaskV>, i: int, id: Seq<char>, pid: Option<Seq<char>>) -> Option<
    (Seq<TaskV>, TaskV, Option<Seq<char>>, int),
>
    decreases ts, ts.len() - i,
{
    if i < 0 || i >= ts.len() {
        None
    } else if has_id(ts[i], id) {
        Some((ts.remove(i), ts[i], pid, i))
    } else {
        proof {
            assert(decreases_to!(ts => ts[i]));
        }
        let below = match ts[i].id {
            Some(p) => removal(ts[i].subtasks, 0, id, Some(p)),
            None => None,
        };
        match below {
            Some(x) => Some((ts.update(i, TaskV { subtasks: x.0, dirty: true, ..ts[i] }), x.1, x.2, x.3)),
            None => removal(ts, i + 1, id, pid),
        }
    }
}

/// Where [`removal`] finds the task: parent ID and sibling index.
pub open spec fn locate(ts: Seq<TaskV>, id: Seq<char>) -> Option<(Option<Seq<char>>, int)> {
    match removal(ts, 0, id, None) {
        Some(x) => Some((x.2, x.3)),
        None => None,
    }
}

/// Whether a location value is `(section, parent, index)`.
pub open spec fn loc_is(l: TaskLocation, section: SectionKind, parent: Option<Seq<char>>, index: int) -> bool {
    l.section == section && opt_str_v(l.parent_id) == parent && l.sibling_index == index
}

/// Where the first task holding `task_id` sits among `tasks[i..]` and their
/// subtrees (whose parent holds `pid`), as in [`removal`].
fn locate_in(tasks: &[Task], task_id: &str, pid: &Option<String>) -> (r: Option<(Option<String>, usize)>)
    ensures
        match removal(tasks_v(tasks@), 0, task_id@, opt_str_v(*pid)) {
            Some(x) => r matches Some(l) && opt_str_v(l.0) == x.2 && l.1 == x.3,
            None => r is None,
        },
    decreases tasks_v(tasks@),
{
    let ghost ts = tasks_v(tasks@);
    let mut i: usize = 0;
    while i < tasks.len()
        invariant
            i <= tasks@.len(),
            ts == tasks_v(tasks@),
            removal(ts, 0, task_id@, opt_str_v(*pid)) == removal(ts, i as int, task_id@, opt_str_v(*pid)),
        decreases tasks.len() - i,
    {
        let t = &tasks[i];
        assert(ts[i as int] == t@);
        if id_is(t, task_id) {
            return Some((clone_opt_string(pid), i));
        }
        if let Some(p) = &t.id {
            proof {
                assert(decreases_to!(ts => ts[i as int]));
                assert(tasks_v(t.subtasks@) =~= t@.subtasks);
            }
            let below = locate_in(t.subtasks.as_slice(), task_id, &Some(p.clone()));
            if below.is_some() {
                return below;
            }
        }
        i += 1;
    }
    None
}

/// Where the first task holding `task_id` sits in the first section of
/// `section`, as in [`removal`].
pub fn find_task_location(track: &Track, task_id: &str, section: SectionKind) -> (r: Option<TaskLocation>)
    ensures
        match locate(section_tasks_v(track@, section), task_id@) {
            Some(x) => r matches Some(l) && loc_is(l, section, x.0, x.1),
            None => r is None,
        },
{
    let tasks = track.section_tasks(section);
    match locate_in(tasks, task_id, &None) {
        Some((p, i)) => Some(TaskLocation { section, parent_id: p, sibling_index: i }),
        None => None,
    }
}

/// Where the task sits below `parent`, as in [`removal`]; `None` when the
/// parent has no ID.
pub fn find_in_subtasks(parent: &Task, task_id: &str, section: SectionKind) -> (r: Option<TaskLocation>)
    ensures
        match parent@.id {
            Some(p) => match removal(parent@.subtasks, 0, task_id@, Some(p)) {
                Some(x) => r matches Some(l) && loc_is(l, section, x.2, x.3),
                None => r is None,
            },
            None => r is None,
        },
{
    match &parent.id {
        Some(p) => {
            assert(tasks_v(parent.subtasks@) =~= parent@.subtasks);
            match locate_in(parent.subtasks.as_slice(), task_id, &Some(p.clone())) {
                Some((q, i)) => Some(TaskLocation { section, parent_id: q, sibling_index: i }),
                None => None,
            }
        },
        None => None,
    }
}

/// The location of the task in the first section among backlog, parked and
/// done (in that order) where [`locate`] finds it.
pub open spec fn locate_any(nodes: Seq<NodeV>, id: Seq<char>) -> Option<(SectionKind, Option<Seq<char>>, int)> {
    match locate(section_tasks_v(nodes, SectionKind::Backlog), id) {
        Some(x) => Some((SectionKind::Backlog, x.0, x.1)),
        None => match locate(section_tasks_v(nodes, SectionKind::Parked), id) {
            Some(x) => Some((SectionKind::Parked, x.0, x.1)),
            None => match locate(section_tasks_v(nodes, SectionKind::Done), id) {
                Some(x) => Some((SectionKind::Done, x.0, x.1)),
                None => None,
            },
        },
    }
}

/// Find a task's location across the backlog, parked and done sections.
pub fn find_task_location_any_section(track: &Track, task_id: &str) -> (r: Option<TaskLocation>)
    ensures
        match locate_any(track@, task_id@) {
            Some(x) => r matches Some(l) && loc_is(l, x.0, x.1, x.2),
            None => r is None,
        },
{
    match find_task_location(track, task_id, SectionKind::Backlog) {
        Some(l) => {
            return Some(l);
        },
        None => {},
    }
    match find_task_location(track, task_id, SectionKind::Parked) {
        Some(l) => {
            return Some(l);
        },
        None => {},
    }
    find_task_location(track, task_id, SectionKind::Done)
}

/// Take the first task holding `task_id` out of a list, as in [`removal`].
fn remove_from_list(tasks: &mut Vec<Task>, task_id: &str, section: SectionKind, parent_id: Option<&str>) -> (r:
    Option<(Task, TaskLocation)>)
    ensures
        match removal(tasks_v(old(tasks)@), 0, task_id@, opt_ref_v(parent_id)) {
            Some(x) => r matches Some(p) && p.0@ == x.1 && loc_is(p.1, section, x.2, x.3)
                && tasks_v(final(tasks)@) == x.0,
            None => r is None && final(tasks)@ == old(tasks)@,
        },
    decreases tasks_v(old(tasks)@),
{
    let ghost ts = tasks_v(tasks@);
    let ghost pv = opt_ref_v(parent_id);
    let mut i: usize = 0;
    while i < tasks.len()
        invariant
            i <= tasks@.len(),
            tasks@ == old(tasks)@,
            ts == tasks_v(old(tasks)@),
            pv == opt_ref_v(parent_id),
            removal(ts, 0, task_id@, pv) == removal(ts, i as int, task_id@, pv),
        decreases tasks@.len() - i,
    {
        assert(ts[i as int] == tasks@[i as int]@);
        if id_is(&tasks[i], task_id) {
            let t = tasks.remove(i);
            assert(tasks_v(tasks@) =~= ts.remove(i as int));
            let p: Option<String> = match parent_id {
                Some(s) => Some(String::from_str(s)),
                None => None,
            };
            return Some((t, TaskLocation { section, parent_id: p, sibling_index: i }));
        }
        let hit = match &tasks[i].id {
            Some(p) => {
                assert(tasks_v(tasks@[i as int].subtasks@) =~= ts[i as int].subtasks);
                locate_in(tasks[i].subtasks.as_slice(), task_id, &Some(p.clone())).is_some()
            },
            None => false,
        };
        if hit {
            let mut t = tasks.remove(i);
            let ghost t0 = t@;
            let pid = match &t.id {
                Some(p) => p.clone(),
                None => {
                    assert(false);
                    String::new()
                },
            };
            proof {
                assert(decreases_to!(ts => ts[i as int]));
                assert(tasks_v(t.subtasks@) =~= t0.subtasks);
            }
            let res = remove_from_list(&mut t.subtasks, task_id, section, Some(pid.as_str()));
            t.dirty = true;
            tasks.insert(i, t);
            proof {
                assert(t@.subtasks =~= tasks_v(t.subtasks@));
                assert(tasks_v(tasks@) =~= ts.update(i as int, t@));
            }
            return res;
        }
        i += 1;
    }
    None
}

/// Taking the first task holding `id` out of the sections of a track from
/// node `i` on: the nodes left, the task, its section, parent and index.
pub open spec fn removal_nodes(nodes: Seq<NodeV>, i: int, id: Seq<char>) -> Option<
    (Seq<NodeV>, TaskV, SectionKind, Option<Seq<char>>, int),
>
    decreases nodes.len() - i,
{
    if i < 0 || i >= nodes.len() {
        None
    } else {
        match nodes[i] {
            NodeV::Section { kind, tasks, .. } => match removal(tasks, 0, id, None) {
                Some(x) => Some((nodes.update(i, with_tasks(nodes[i], x.0)), x.1, kind, x.2, x.3)),
                None => removal_nodes(nodes, i + 1, id),
            },
            NodeV::Literal(_) => removal_nodes(nodes, i + 1, id),
        }
    }
}

/// Remove the first task holding `task_id` (with its entire subtree) from
/// its section, searching the sections in file order as in [`removal`].
/// Returns the task and where it was.
pub fn remove_task_subtree(track: &mut Track, task_id: &str) -> (r: Option<(Task, TaskLocation)>)
    ensures
        match removal_nodes(old(track)@, 0, task_id@) {
            Some(x) => r matches Some(p) && p.0@ == x.1 && loc_is(p.1, x.2, x.3, x.4) && final(track)@ == x.0,
            None => r is None && final(track)@ == old(track)@,
        },
{
    let ghost nv = track@;
    let mut i: usize = 0;
    while i < track.nodes.len()
        invariant
            i <= track.nodes@.len(),
            track@ == nv,
            nv == old(track)@,
            removal_nodes(nv, 0, task_id@) == removal_nodes(nv, i as int, task_id@),
        decreases track.nodes@.len() - i,
    {
        let (hit, kind) = match &track.nodes[i] {
            TrackNode::Section { kind, tasks, .. } => (locate_in(tasks.as_slice(), task_id, &None).is_some(), *kind),
            TrackNode::Literal(_) => (false, SectionKind::Backlog),
        };
        if hit {
            let mut tasks = track.swap_section_tasks(i, Vec::new());
            let res = remove_from_list(&mut tasks, task_id, kind, None);
            assert(track@.len() == track.nodes@.len());
            let _ = track.swap_section_tasks(i, tasks);
            proof {
                let n = nv[i as int];
                assert(with_tasks(with_tasks(n, Seq::empty()), tasks_v(tasks@)) == with_tasks(n, tasks_v(tasks@)));
                assert(track@ =~= nv.update(i as int, with_tasks(n, tasks_v(tasks@))));
            }
            return res;
        }
        i += 1;
    }
    None
}

// ---------------------------------------------------------------------------
// Inserting subtrees, hard deletion
// ---------------------------------------------------------------------------

/// What [`insert_task_subtree`] does: at top level of the first section of
/// `section`, or among the children of the first task holding the parent ID,
/// at `index` or last when `index` is past the end; the task is marked dirty.
pub open spec fn insert_post(
    old: Seq<NodeV>,
    new: Seq<NodeV>,
    task: TaskV,
    parent: Option<Seq<char>>,
    section: SectionKind,
    index: int,
    r: Result<(), TaskError>,
) -> bool {
    match parent {
        None => if section_pos(old, section) is None {
            r matches Err(TaskError::InvalidPosition(_)) && new == old
        } else {
            let ts = section_tasks_v(old, section);
            let idx = if index < ts.len() { index } else { ts.len() as int };
            r is Ok && new == set_section(old, section, ts.insert(idx, TaskV { dirty: true, ..task }))
        },
        Some(p) => if find_in_track(old, p) is None {
            (r matches Err(TaskError::NotFound(s)) && s@ == p) && new == old
        } else {
            r is Ok && new == edit_in_track(old, p, |t: TaskV| insert_child_at_v(t, task, index))
        },
    }
}

/// Insert a task subtree at a specific location in a track.
pub fn insert_task_subtree(
    track: &mut Track,
    task: Task,
    parent_id: Option<&str>,
    section: SectionKind,
    index: usize,
) -> (r: Result<(), TaskError>)
    ensures
        insert_post(old(track)@, final(track)@, task@, opt_ref_v(parent_id), section, index as int, r),
{
    match parent_id {
        None => {
            let si = match section_index_of(track, section) {
                Some(i) => i,
                None => {
                    return Err(TaskError::InvalidPosition(String::from_str("no such section")));
                },
            };
            let ghost n = old(track)@[si as int];
            let ghost ts = node_tasks(n);
            let mut task = task;
            let ghost tv = task@;
            task.mark_dirty();
            assert(task@ == (TaskV { dirty: true, ..tv })) by {
                assert(task@.subtasks =~= tv.subtasks);
            }
            let mut tasks = track.swap_section_tasks(si, Vec::new());
            let idx = if index < tasks.len() { index } else { tasks.len() };
            let ghost tk = task;
            tasks.insert(idx, task);
            assert(tasks_v(tasks@) =~= ts.insert(idx as int, tk@));
            assert(track@.len() == track.nodes@.len());
            let _ = track.swap_section_tasks(si, tasks);
            proof {
                assert(with_tasks(with_tasks(n, Seq::empty()), tasks_v(tasks@)) == with_tasks(n, tasks_v(tasks@)));
                assert(track@ =~= old(track)@.update(si as int, with_tasks(n, tasks_v(tasks@))));
            }
            Ok(())
        },
        Some(pid) => {
            let ghost tv = task@;
            let e = TaskEdit::InsertChildAt { child: task, index };
            let found = edit_in_track_exec(track, pid, e);
            assert(edit_fn(e) =~= (|t: TaskV| insert_child_at_v(t, tv, index as int)));
            if found {
                Ok(())
            } else {
                proof { lemma_edit_nodes_none(old(track)@, 0, pid@, edit_fn(e)); }
                Err(TaskError::NotFound(String::from_str(pid)))
            }
        },
    }
}

/// A task taken out of a track for good, with what it takes to put it back.
#[derive(Debug)]
pub struct DeletedTask {
    pub track_id: String,
    pub section: SectionKind,
    pub parent_id: Option<String>,
    pub position: usize,
    pub task: Task,
}

/// What [`hard_delete_task`] does: the task found by [`removal_nodes`] goes,
/// with its subtree; the record holds the location [`locate_any`] gives.
pub open spec fn hard_delete_post(
    old: Seq<NodeV>,
    new: Seq<NodeV>,
    id: Seq<char>,
    track_id: Seq<char>,
    r: Result<DeletedTask, TaskError>,
) -> bool {
    match locate_any(old, id) {
        None => (r matches Err(TaskError::NotFound(s)) && s@ == id) && new == old,
        Some(l) => match removal_nodes(old, 0, id) {
            None => (r matches Err(TaskError::NotFound(s)) && s@ == id) && new == old,
            Some(x) => {
                &&& r matches Ok(d) && d.track_id@ == track_id && d.section == l.0
                    && opt_str_v(d.parent_id) == l.1 && d.position == l.2 && d.task@ == x.1
                &&& new == x.0
            },
        },
    }
}

/// Physically remove a task (and its entire subtree) from a track. Returns
/// what it takes to put it back.
pub fn hard_delete_task(track: &mut Track, task_id: &str, track_id: &str) -> (r: Result<DeletedTask, TaskError>)
    ensures
        hard_delete_post(old(track)@, final(track)@, task_id@, track_id@, r),
{
    let location = match find_task_location_any_section(track, task_id) {
        Some(l) => l,
        None => {
            return Err(TaskError::NotFound(String::from_str(task_id)));
        },
    };
    let (task, _) = match remove_task_subtree(track, task_id) {
        Some(x) => x,
        None => {
            return Err(TaskError::NotFound(String::from_str(task_id)));
        },
    };
    Ok(DeletedTask {
        track_id: String::from_str(track_id),
        section: location.section,
        parent_id: location.parent_id,
        position: location.sibling_index,
        task,
    })
}

/// Put a hard-deleted task back where it was.
pub fn reinsert_task(track: &mut Track, deleted: &DeletedTask) -> (r: Result<(), TaskError>)
    ensures
        insert_post(old(track)@, final(track)@, deleted.task@, opt_str_v(deleted.parent_id), deleted.section,
            deleted.position as int, r),
{
    let parent: Option<&str> = match &deleted.parent_id {
        Some(p) => Some(p.as_str()),
        None => None,
    };
    insert_task_subtree(track, deleted.task.duplicate(), parent, deleted.section, deleted.position)
}


// ---------------------------------------------------------------------------
// Moving to another track, reparenting
// ---------------------------------------------------------------------------

/// `nodes` with each pair of `maps` applied in turn as a dependency rename.
pub open spec fn swap_all(nodes: Seq<NodeV>, maps: Seq<(Seq<char>, Seq<char>)>) -> Seq<NodeV>
    decreases maps.len(),
{
    if maps.len() == 0 {
        nodes
    } else {
        deps_swapped_nodes(swap_all(nodes, maps.drop_last()), maps.last().0, maps.last().1)
    }
}

/// Each track of `new_all` is the one of `old_all`, same name, with the
/// renames of `maps` applied.
pub open spec fn tracks_swapped(
    old_all: Seq<(String, Track)>,
    new_all: Seq<(String, Track)>,
    maps: Seq<(Seq<char>, Seq<char>)>,
) -> bool {
    &&& new_all.len() == old_all.len()
    &&& forall|k: int| 0 <= k < old_all.len() ==> (#[trigger] new_all[k]).0 == old_all[k].0
        && new_all[k].1@ == swap_all(old_all[k].1@, maps)
}

/// What [`move_task_to_track`] does: the first top-level backlog task of the
/// source holding the ID leaves the source, gets the next top-level ID of
/// `prefix` in the target with its children renumbered under it, and goes
/// into the target's backlog where `pos` says; references to its old ID are
/// renamed in `all`. When the target has no backlog or the `After` target is
/// missing, the task is lost from the source all the same.
pub open spec fn move_to_track_post(
    src_old: Seq<NodeV>,
    src_new: Seq<NodeV>,
    tgt_old: Seq<NodeV>,
    tgt_new: Seq<NodeV>,
    all_old: Seq<(String, Track)>,
    all_new: Seq<(String, Track)>,
    id: Seq<char>,
    pos: InsertPosition,
    prefix: Seq<char>,
    r: Result<String, TaskError>,
) -> bool {
    let none = Seq::<(Seq<char>, Seq<char>)>::empty();
    let bl = section_tasks_v(src_old, SectionKind::Backlog);
    let tbl = section_tasks_v(tgt_old, SectionKind::Backlog);
    if section_pos(src_old, SectionKind::Backlog) is None {
        &&& r matches Err(TaskError::InvalidPosition(_))
        &&& src_new == src_old && tgt_new == tgt_old && tracks_swapped(all_old, all_new, none)
    } else {
        match child_pos_from(bl, id, 0) {
            None => {
                &&& r matches Err(TaskError::NotFound(s)) && s@ == id
                &&& src_new == src_old && tgt_new == tgt_old && tracks_swapped(all_old, all_new, none)
            },
            Some(k) => {
                let nid = top_id(prefix, max_num_track(tgt_old, dash(prefix)) + 1);
                let moved = rekeyed(bl[k], nid);
                &&& src_new == set_section(src_old, SectionKind::Backlog, bl.remove(k))
                &&& if section_pos(tgt_old, SectionKind::Backlog) is None {
                    &&& r matches Err(TaskError::InvalidPosition(_))
                    &&& tgt_new == tgt_old && tracks_swapped(all_old, all_new, none)
                } else {
                    match insert_index(tbl, pos) {
                        None => r matches Err(TaskError::NotFound(_)) && tgt_new == tgt_old
                            && tracks_swapped(all_old, all_new, none),
                        Some(j) => {
                            &&& r matches Ok(s) && s@ == nid
                            &&& tgt_new == set_section(tgt_old, SectionKind::Backlog, tbl.insert(j, moved))
                            &&& tracks_swapped(all_old, all_new, match bl[k].id {
                                Some(o) => seq![(o, nid)],
                                None => none,
                            })
                        },
                    }
                }
            },
        }
    }
}

/// Move a task to the backlog of a different track under a new ID of the
/// target's prefix, renumbering its subtasks and renaming dependency
/// references to it across `all_tracks_for_dep_update`.
pub fn move_task_to_track(
    source_track: &mut Track,
    target_track: &mut Track,
    task_id: &str,
    position: InsertPosition,
    target_prefix: &str,
    all_tracks_for_dep_update: &mut [(String, Track)],
) -> (r: Result<String, TaskError>)
    requires
        max_num_track(old(target_track)@, dash(target_prefix@)) < usize::MAX,
    ensures
        move_to_track_post(
            old(source_track)@, final(source_track)@, old(target_track)@, final(target_track)@,
            old(all_tracks_for_dep_update)@, final(all_tracks_for_dep_update)@, task_id@, position,
            target_prefix@, r,
        ),
{
    let si = match section_index_of(source_track, SectionKind::Backlog) {
        Some(i) => i,
        None => {
            return Err(TaskError::InvalidPosition(String::from_str("no backlog section in source")));
        },
    };
    let ghost n = old(source_track)@[si as int];
    let ghost bl = node_tasks(n);
    proof { lemma_child_pos(bl, task_id@, 0); }
    let idx = match child_position(source_track.section_tasks(SectionKind::Backlog), task_id) {
        Some(k) => k,
        None => {
            return Err(TaskError::NotFound(String::from_str(task_id)));
        },
    };
    let mut tasks = source_track.swap_section_tasks(si, Vec::new());
    let mut task = tasks.remove(idx);
    assert(tasks_v(tasks@) =~= bl.remove(idx as int));
    assert(task@ == bl[idx as int]);
    assert(source_track@.len() == source_track.nodes@.len());
    let _ = source_track.swap_section_tasks(si, tasks);
    proof {
        assert(with_tasks(with_tasks(n, Seq::empty()), tasks_v(tasks@)) == with_tasks(n, tasks_v(tasks@)));
        assert(source_track@ =~= old(source_track)@.update(si as int, with_tasks(n, tasks_v(tasks@))));
    }

    let next_num = next_id_number(target_track, target_prefix);
    let new_id = format_top_id(target_prefix, next_num);
    let old_id = clone_opt_string(&task.id);
    let _ = rekey_subtree(&mut task, new_id.as_str());

    let ti = match section_index_of(target_track, SectionKind::Backlog) {
        Some(i) => i,
        None => {
            return Err(TaskError::InvalidPosition(String::from_str("no backlog section in target")));
        },
    };
    let ghost tn = old(target_track)@[ti as int];
    let mut ttasks = target_track.swap_section_tasks(ti, Vec::new());
    let res = insert_at(&mut ttasks, task, &position);
    assert(target_track@.len() == target_track.nodes@.len());
    let _ = target_track.swap_section_tasks(ti, ttasks);
    proof {
        assert(with_tasks(with_tasks(tn, Seq::empty()), tasks_v(ttasks@)) == with_tasks(tn, tasks_v(ttasks@)));
        assert(target_track@ =~= old(target_track)@.update(ti as int, with_tasks(tn, tasks_v(ttasks@))));
        if res is Err {
            assert(with_tasks(tn, node_tasks(tn)) == tn);
            assert(target_track@ =~= old(target_track)@);
        }
    }
    match res {
        Err(e) => {
            return Err(e);
        },
        Ok(()) => {},
    }
    if let Some(o) = &old_id {
        update_dep_references(all_tracks_for_dep_update, o.as_str(), new_id.as_str());
        proof {
            let maps = seq![(o@, new_id@)];
            assert(maps.drop_last() =~= Seq::<(Seq<char>, Seq<char>)>::empty());
            assert forall|k: int| 0 <= k < old(all_tracks_for_dep_update)@.len() implies
                swap_all(old(all_tracks_for_dep_update)@[k].1@, maps) == deps_swapped_nodes(
                    old(all_tracks_for_dep_update)@[k].1@, o@, new_id@) by {
                assert(maps.last() == (o@, new_id@));
                let x = old(all_tracks_for_dep_update)@[k].1@;
                assert(swap_all(x, maps.drop_last()) == x);
            }
        }
    }
    Ok(new_id)
}

/// Whether `cand` lies below the first task holding `anc`.
pub open spec fn is_desc_v(nodes: Seq<NodeV>, anc: Seq<char>, cand: Seq<char>) -> bool {
    match find_in_track(nodes, anc) {
        Some(a) => find_in(a.subtasks, cand) is Some,
        None => false,
    }
}

/// The ID a reparented task gets in the track it was taken out of: the next
/// top-level ID of `prefix`, or the next child ID under the first task
/// holding the new parent's ID (`None` when no task holds it).
pub open spec fn new_root_of(mid: Seq<NodeV>, np: Option<Seq<char>>, prefix: Seq<char>) -> Option<Seq<char>> {
    match np {
        None => Some(top_id(prefix, max_num_track(mid, dash(prefix)) + 1)),
        Some(p) => match find_in_track(mid, p) {
            Some(par) => Some(child_id(p, next_child_v(par))),
            None => None,
        },
    }
}

/// Where [`insert_task_subtree`] puts a task, `None` when it refuses.
pub open spec fn inserted(
    old: Seq<NodeV>,
    task: TaskV,
    parent: Option<Seq<char>>,
    section: SectionKind,
    index: int,
) -> Option<Seq<NodeV>> {
    match parent {
        None => if section_pos(old, section) is None {
            None
        } else {
            let ts = section_tasks_v(old, section);
            let idx = if index < ts.len() { index } else { ts.len() as int };
            Some(set_section(old, section, ts.insert(idx, TaskV { dirty: true, ..task })))
        },
        Some(p) => if find_in_track(old, p) is None {
            None
        } else {
            Some(edit_in_track(old, p, |t: TaskV| insert_child_at_v(t, task, index)))
        },
    }
}

/// The machine limits a reparent must stay within: the next ID number and
/// the depths it computes fit a `usize`.
pub open spec fn reparent_fits(old: Seq<NodeV>, id: Seq<char>, np: Option<Seq<char>>, prefix: Seq<char>) -> bool {
    match removal_nodes(old, 0, id) {
        Some(x) => {
            &&& height(x.1) + 3 <= usize::MAX
            &&& match np {
                None => max_num_track(x.0, dash(prefix)) < usize::MAX,
                Some(p) => child_number_fits(x.0, p),
            }
        },
        None => true,
    }
}

/// What [`reparent_task`] does. Checks, in order: the task exists in a
/// backlog, parked or done section; the new parent is neither the task nor
/// below it; the new parent exists; the new depth plus the task's height
/// stays within 2. Then the task is taken out ([`removal_nodes`]), rekeyed
/// to [`new_root_of`], given its new depths, inserted at `index` among the
/// new siblings in its old section, and every old ID it or a descendant had
/// is renamed in the track and in `all`.
pub open spec fn reparent_post(
    old: Seq<NodeV>,
    new: Seq<NodeV>,
    old_all: Seq<(String, Track)>,
    new_all: Seq<(String, Track)>,
    id: Seq<char>,
    np: Option<Seq<char>>,
    index: int,
    prefix: Seq<char>,
    r: Result<ReparentResult, TaskError>,
) -> bool {
    let none = Seq::<(Seq<char>, Seq<char>)>::empty();
    let unchanged = new == old && tracks_swapped(old_all, new_all, none);
    if locate_any(old, id) is None {
        (r matches Err(TaskError::NotFound(s)) && s@ == id) && unchanged
    } else if np matches Some(p) && (is_desc_v(old, id, p) || p == id) {
        r matches Err(TaskError::CycleDetected) && unchanged
    } else if np matches Some(p) && find_in_track(old, p) is None {
        (r matches Err(TaskError::NotFound(s)) && np == Some(s@)) && unchanged
    } else {
        let nd: nat = match np {
            Some(p) => (find_in_track(old, p)->0.depth + 1) as nat,
            None => 0,
        };
        let tmd: nat = match find_in_track(old, id) {
            Some(t) => height(t),
            None => 0,
        };
        if nd + tmd > 2 {
            r matches Err(TaskError::DepthExceeded) && unchanged
        } else {
            match removal_nodes(old, 0, id) {
                None => (r matches Err(TaskError::NotFound(s)) && s@ == id) && unchanged,
                Some(x) => match new_root_of(x.0, np, prefix) {
                    None => (r matches Err(TaskError::NotFound(s)) && np == Some(s@)) && new == x.0
                        && tracks_swapped(old_all, new_all, none),
                    Some(nid) => {
                        let moved = depth_set(rekeyed(x.1, nid), nd);
                        let maps = rekey_map(x.1, nid);
                        match inserted(x.0, moved, np, x.2, index) {
                            None => r matches Err(TaskError::InvalidPosition(_)) && new == x.0
                                && tracks_swapped(old_all, new_all, none),
                            Some(ins) => {
                                &&& r matches Ok(rr) && rr.new_root_id@ == nid && pairs_v(rr.id_mappings@) == maps
                                    && loc_is(rr.old_location, x.2, x.3, x.4)
                                &&& new == swap_all(ins, maps)
                                &&& tracks_swapped(old_all, new_all, maps)
                            },
                        }
                    },
                },
            }
        }
    }
}

/// What a reparent did, for undoing it.
#[derive(Debug)]
pub struct ReparentResult {
    pub new_root_id: String,
    /// `(old ID, new ID)` for the task and each descendant that had an ID.
    pub id_mappings: Vec<(String, String)>,
    pub old_location: TaskLocation,
}

proof fn lemma_height_rekeyed(t: TaskV, nid: Seq<char>)
    ensures
        height(rekeyed(t, nid)) == height(t),
    decreases t, 0int,
{
    lemma_max_height_rekeyed(t.subtasks, nid, 0);
}

proof fn lemma_max_height_rekeyed(ts: Seq<TaskV>, pid: Seq<char>, i: int)
    requires
        0 <= i <= ts.len(),
    ensures
        max_height_from(rekey_children(ts, pid), i) == max_height_from(ts, i),
    decreases ts, ts.len() - i,
{
    if i < ts.len() {
        assert(decreases_to!(ts => ts[i]));
        lemma_height_rekeyed(ts[i], child_id(pid, (i + 1) as nat));
        lemma_max_height_rekeyed(ts, pid, i + 1);
    }
}

/// Move a task to a new parent (`Some`) or to top level (`None`), at
/// `sibling_index` among its new siblings (`usize::MAX` appends). The task
/// and its descendants get new IDs under `prefix` or the new parent, and
/// references to their old IDs are renamed in the track and in `all_tracks`.
pub fn reparent_task(
    track: &mut Track,
    task_id: &str,
    new_parent_id: Option<&str>,
    sibling_index: usize,
    prefix: &str,
    all_tracks: &mut [(String, Track)],
) -> (r: Result<ReparentResult, TaskError>)
    requires
        reparent_fits(old(track)@, task_id@, opt_ref_v(new_parent_id), prefix@),
    ensures
        reparent_post(old(track)@, final(track)@, old(all_tracks)@, final(all_tracks)@, task_id@,
            opt_ref_v(new_parent_id), sibling_index as int, prefix@, r),
{
    if find_task_location_any_section(track, task_id).is_none() {
        return Err(TaskError::NotFound(String::from_str(task_id)));
    }
    let new_depth: usize = match new_parent_id {
        None => 0,
        Some(p) => {
            if is_descendant_of(track, task_id, p) || str_eq(p, task_id) {
                return Err(TaskError::CycleDetected);
            }
            match find_task_in_track(track, p) {
                None => {
                    return Err(TaskError::NotFound(String::from_str(p)));
                },
                Some(par) => {
                    if par.depth >= 2 {
                        return Err(TaskError::DepthExceeded);
                    }
                    par.depth + 1
                },
            }
        },
    };
    let tmd = match find_task_in_track(track, task_id) {
        Some(t) => max_subtree_depth(t),
        None => 0,
    };
    if tmd > 2 - new_depth {
        return Err(TaskError::DepthExceeded);
    }
    let ghost mid0 = removal_nodes(old(track)@, 0, task_id@);
    let (mut task, loc) = match remove_task_subtree(track, task_id) {
        Some(x) => x,
        None => {
            return Err(TaskError::NotFound(String::from_str(task_id)));
        },
    };
    let ghost t0 = task@;
    let ghost mid = track@;
    let new_id = match new_parent_id {
        None => {
            let n = next_id_number(track, prefix);
            format_top_id(prefix, n)
        },
        Some(p) => match find_task_in_track(track, p) {
            None => {
                return Err(TaskError::NotFound(String::from_str(p)));
            },
            Some(par) => {
                let c = next_child_number(par);
                format_child_id(p, c)
            },
        },
    };
    let maps = rekey_subtree(&mut task, new_id.as_str());
    proof { lemma_height_rekeyed(t0, new_id@); }
    set_subtree_depth(&mut task, new_depth);
    let ghost moved = task@;
    match insert_task_subtree(track, task, new_parent_id, loc.section, sibling_index) {
        Err(e) => {
            return Err(e);
        },
        Ok(()) => {},
    }
    let ghost ins = track@;
    let ghost pv = pairs_v(maps@);
    let ghost all0 = all_tracks@;
    let mut j: usize = 0;
    while j < maps.len()
        invariant
            j <= maps@.len(),
            pv == pairs_v(maps@),
            track@ == swap_all(ins, pv.take(j as int)),
            tracks_swapped(all0, all_tracks@, pv.take(j as int)),
        decreases maps.len() - j,
    {
        let ghost before = all_tracks@;
        let ghost tk = pv.take(j + 1);
        assert(tk.drop_last() =~= pv.take(j as int));
        assert(tk.last() == pv[j as int]);
        update_dep_references(all_tracks, maps[j].0.as_str(), maps[j].1.as_str());
        update_dep_references_in_track(track, maps[j].0.as_str(), maps[j].1.as_str());
        assert forall|k: int| 0 <= k < all0.len() implies (#[trigger] all_tracks@[k]).0 == all0[k].0
            && all_tracks@[k].1@ == swap_all(all0[k].1@, tk) by {
            assert(before[k].1@ == swap_all(all0[k].1@, pv.take(j as int)));
        }
        j += 1;
    }
    assert(pv.take(maps@.len() as int) =~= pv);
    Ok(ReparentResult { new_root_id: new_id, id_mappings: maps, old_location: loc })
}

// ---------------------------------------------------------------------------
// Taking a task out and putting it back
// ---------------------------------------------------------------------------

proof fn lemma_removal_shape(ts: Seq<TaskV>, i: int, id: Seq<char>, pid: Option<Seq<char>>)
    ensures
        removal(ts, i, id, pid) matches Some(x) ==> (x.2 is Some || (x.2 == pid && 0 <= x.3 < ts.len()
            && x.0 == ts.remove(x.3) && x.1 == ts[x.3])),
    decreases ts, ts.len() - i,
{
    if 0 <= i < ts.len() && !has_id(ts[i], id) {
        assert(decreases_to!(ts => ts[i]));
        match ts[i].id {
            Some(p) => lemma_removal_shape(ts[i].subtasks, 0, id, Some(p)),
            None => {},
        }
        lemma_removal_shape(ts, i + 1, id, pid);
    }
}

proof fn lemma_removal_nodes_shape(nodes: Seq<NodeV>, j: int, id: Seq<char>)
    ensures
        removal_nodes(nodes, j, id) matches Some(y) ==> exists|i: int| #![trigger nodes[i]] 0 <= i < nodes.len() && ({
            &&& nodes[i] matches NodeV::Section { kind, tasks, .. }
            &&& kind == y.2
            &&& removal(tasks, 0, id, None) matches Some(x)
            &&& y == (nodes.update(i, with_tasks(nodes[i], x.0)), x.1, kind, x.2, x.3)
        }),
    decreases nodes.len() - j,
{
    if 0 <= j < nodes.len() {
        lemma_removal_nodes_shape(nodes, j + 1, id);
    }
}

/// The proof behind the law on taking a top-level task out and putting it
/// back.
pub(crate) proof fn lemma_remove_insert_top(
    track: Seq<NodeV>,
    id: Seq<char>,
    after: Seq<NodeV>,
    r: Result<(), TaskError>,
)
    requires
        crate::reconcile::one_section_per_kind(track),
        removal_nodes(track, 0, id) matches Some(y) && y.3 is None
            && insert_post(y.0, after, y.1, None, y.2, y.4, r),
    ensures
        removal_nodes(track, 0, id) matches Some(y) && r is Ok
            && after == set_section(track, y.2, section_tasks_v(track, y.2).update(y.4, TaskV { dirty: true, ..y.1 })),
{
    let y = removal_nodes(track, 0, id)->0;
    lemma_removal_nodes_shape(track, 0, id);
    let i = choose|i: int| #![trigger track[i]] 0 <= i < track.len() && ({
        &&& track[i] matches NodeV::Section { kind, tasks, .. }
        &&& kind == y.2
        &&& removal(tasks, 0, id, None) matches Some(x)
        &&& y == (track.update(i, with_tasks(track[i], x.0)), x.1, kind, x.2, x.3)
    });
    let kind = y.2;
    let tasks = node_tasks(track[i]);
    let x = removal(tasks, 0, id, None)->0;
    lemma_removal_shape(tasks, 0, id, None);
    let idx = x.3;
    assert(x.0 == tasks.remove(idx) && x.1 == tasks[idx] && 0 <= idx < tasks.len());
    let n2 = y.0;
    assert(crate::model::is_section_of(track[i], kind));
    crate::reconcile::lemma_section_at(track, kind, 0, i);
    assert forall|a: int, b: int, k: SectionKind|
        0 <= a < b < n2.len() && #[trigger] crate::model::is_section_of(n2[a], k)
            implies !#[trigger] crate::model::is_section_of(n2[b], k) by {
        assert(crate::model::is_section_of(n2[a], k) == crate::model::is_section_of(track[a], k));
        assert(crate::model::is_section_of(n2[b], k) == crate::model::is_section_of(track[b], k));
        if crate::model::is_section_of(track[a], k) {
            assert(!crate::model::is_section_of(track[b], k));
        }
    }
    assert(crate::model::is_section_of(n2[i], kind));
    crate::reconcile::lemma_section_at(n2, kind, 0, i);
    assert(section_tasks_v(n2, kind) == tasks.remove(idx));
    let ts = tasks.remove(idx);
    let t2 = TaskV { dirty: true, ..x.1 };
    assert(ts.insert(idx, t2) =~= tasks.update(idx, t2));
    assert(section_tasks_v(track, kind) == tasks);
    assert(with_tasks(with_tasks(track[i], ts), tasks.update(idx, t2)) == with_tasks(track[i], tasks.update(idx, t2)));
    assert(after =~= set_section(track, kind, tasks.update(idx, t2)));
}

} // verus!
