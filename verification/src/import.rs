//! Importing a markdown list of tasks into a track's backlog.

use vstd::prelude::*;
use crate::model::{Metadata, MetaV, Task, TaskV, Track, NodeV, SectionKind, tasks_v, metas_v,
    section_pos, section_tasks_v, node_tasks, with_tasks};
use crate::parse::{split_lines, is_task_line_at, parse_tasks, lines_v};
use crate::refs::split_from;
use crate::text::{find_char_from, lemma_find_char_from};
use crate::task_ops::{TaskError, InsertPosition, insert_index, set_section, max_num_track, dash,
    top_id, child_id, prefix_dash_of, format_top_id, format_child_id, find_max_id_in_track,
    backlog_index, child_pos_from, child_position, lemma_child_pos, str_msg};
use crate::task_tree::{size, size_from, capped, count_subtree_size};
use crate::text::push_str;

verus! {

/// Why an import could not be carried out.
#[derive(Debug)]
pub enum ImportError {
    /// The text holds no task line.
    NoTasks,
    /// The track could not take the tasks where they were asked for.
    TaskError(TaskError),
}

impl ImportError {
    /// The message a user sees for this error.
    pub fn message(&self) -> (r: String)
        ensures
            r@ == match *self {
                ImportError::NoTasks => "no tasks found in import file"@,
                ImportError::TaskError(e) => "task error: "@ + crate::task_ops::task_error_message(e),
            },
    {
        match self {
            ImportError::NoTasks => String::from_str("no tasks found in import file"),
            ImportError::TaskError(e) => {
                let mut s = String::from_str("task error: ");
                push_str(&mut s, e.message().as_str());
                s
            },
        }
    }
}

/// What an import did.
#[derive(Debug)]
pub struct ImportResult {
    /// The IDs given to the imported top-level tasks, in order.
    pub assigned_ids: Vec<String>,
    /// How many tasks were imported, subtasks included.
    pub total_count: usize,
}

/// Metadata with an `added:` date put first when it has none.
pub open spec fn with_added(ms: Seq<MetaV>, today: Seq<char>) -> Seq<MetaV> {
    if exists|k: int| 0 <= k < ms.len() && #[trigger] ms[k] is Added {
        ms
    } else {
        seq![MetaV::Added(today)] + ms
    }
}

/// One deeper, without passing `usize::MAX`.
pub open spec fn deeper(d: usize) -> usize {
    if d < usize::MAX { (d + 1) as usize } else { d }
}

/// An imported task as it enters the track: given `id` and `depth`, dated
/// when it had no `added:` date, marked dirty, and its children numbered
/// `id.1`, `id.2`, … one level deeper, in the same way.
pub open spec fn prepared(t: TaskV, id: Seq<char>, today: Seq<char>, depth: usize) -> TaskV
    decreases t, 0int,
{
    TaskV {
        id: Some(id),
        depth,
        dirty: true,
        metadata: with_added(t.metadata, today),
        subtasks: prepared_children(t.subtasks, id, today, deeper(depth)),
        ..t
    }
}

pub open spec fn prepared_children(ts: Seq<TaskV>, pid: Seq<char>, today: Seq<char>, depth: usize) -> Seq<TaskV>
    decreases ts, 1int,
{
    Seq::new(
        ts.len(),
        |i: int|
            if 0 <= i < ts.len() {
                prepared(ts[i], child_id(pid, (i + 1) as nat), today, depth)
            } else {
                arbitrary()
            },
    )
}

/// How many tasks the subtrees of `ts[..n]` hold.
pub open spec fn size_upto(ts: Seq<TaskV>, n: int) -> nat
    decreases n,
{
    if n <= 0 || n > ts.len() {
        0
    } else {
        size_upto(ts, n - 1) + size(ts[n - 1])
    }
}

/// The tasks an import adds, numbered on from `first` in `prefix`'s
/// namespace.
pub open spec fn prepared_top(parsed: Seq<TaskV>, prefix: Seq<char>, first: nat, today: Seq<char>) -> Seq<TaskV> {
    Seq::new(parsed.len(), |j: int| prepared(parsed[j], top_id(prefix, first + j as nat), today, 0))
}

pub open spec fn strs_of(v: Seq<String>) -> Seq<Seq<char>> {
    v.map_values(|s: String| s@)
}

/// What importing the already-read tasks `parsed` does.
pub open spec fn import_post(
    old: Seq<NodeV>,
    new: Seq<NodeV>,
    parsed: Seq<TaskV>,
    position: InsertPosition,
    prefix: Seq<char>,
    today: Seq<char>,
    r: Result<ImportResult, ImportError>,
) -> bool {
    let first = max_num_track(old, dash(prefix)) + 1;
    let bl = section_tasks_v(old, SectionKind::Backlog);
    if parsed.len() == 0 {
        r matches Err(ImportError::NoTasks) && new == old
    } else if section_pos(old, SectionKind::Backlog) is None {
        r matches Err(ImportError::TaskError(TaskError::InvalidPosition(_))) && new == old
    } else {
        match insert_index(bl, position) {
            None => r matches Err(ImportError::TaskError(TaskError::NotFound(_))) && new == old,
            Some(k) => r matches Ok(res) && {
                &&& strs_of(res.assigned_ids@) == Seq::new(parsed.len(), |j: int| top_id(prefix, first + j as nat))
                &&& res.total_count as nat == capped(size_upto(parsed, parsed.len() as int))
                &&& new == set_section(
                    old,
                    SectionKind::Backlog,
                    bl.subrange(0, k) + prepared_top(parsed, prefix, first, today) + bl.subrange(k, bl.len() as int),
                )
            },
        }
    }
}

fn has_added(ms: &Vec<Metadata>) -> (r: bool)
    ensures
        r == exists|k: int| 0 <= k < ms@.len() && #[trigger] metas_v(ms@)[k] is Added,
{
    let mut i: usize = 0;
    while i < ms.len()
        invariant
            i <= ms@.len(),
            forall|k: int| 0 <= k < i ==> !(#[trigger] metas_v(ms@)[k] is Added),
        decreases ms.len() - i,
    {
        if let Metadata::Added(_) = &ms[i] {
            assert(metas_v(ms@)[i as int] is Added);
            return true;
        }
        i += 1;
    }
    false
}

fn ensure_added(ms: &mut Vec<Metadata>, today: &str)
    ensures
        metas_v(final(ms)@) == with_added(metas_v(old(ms)@), today@),
{
    if !has_added(ms) {
        ms.insert(0, Metadata::Added(String::from_str(today)));
        assert(metas_v(ms@) =~= seq![MetaV::Added(today@)] + metas_v(old(ms)@));
    }
}

/// Prepare a task for import (see [`prepared`]).
fn prepare(task: &mut Task, id: String, today: &str, depth: usize)
    ensures
        final(task)@ == prepared(old(task)@, id@, today@, depth),
    decreases old(task)@, 1int,
{
    let ghost t0 = task@;
    let ghost idv = id@;
    assert(tasks_v(task.subtasks@) =~= t0.subtasks);
    let sub_depth = if depth < usize::MAX { depth + 1 } else { depth };
    task.id = Some(id);
    task.depth = depth;
    task.dirty = true;
    ensure_added(&mut task.metadata, today);
    let pid = match &task.id {
        Some(s) => s.clone(),
        None => String::new(),
    };
    assert(pid@ == idv);
    prepare_children(&mut task.subtasks, pid.as_str(), today, sub_depth);
    assert(task@.subtasks =~= tasks_v(task.subtasks@));
    assert(task@ == prepared(t0, idv, today@, depth));
}

fn prepare_children(tasks: &mut Vec<Task>, pid: &str, today: &str, depth: usize)
    ensures
        tasks_v(final(tasks)@) == prepared_children(tasks_v(old(tasks)@), pid@, today@, depth),
    decreases tasks_v(old(tasks)@),
{
    let ghost ts = tasks_v(tasks@);
    let mut i: usize = 0;
    while i < tasks.len()
        invariant
            i <= tasks@.len(),
            tasks@.len() == ts.len(),
            ts == tasks_v(old(tasks)@),
            forall|k: int| i <= k < ts.len() ==> tasks_v(tasks@)[k] == ts[k],
            forall|k: int| 0 <= k < i ==> tasks_v(tasks@)[k] == prepared_children(ts, pid@, today@, depth)[k],
        decreases tasks@.len() - i,
    {
        let ghost before = tasks@;
        let mut t = tasks.remove(i);
        assert(t@ == ts[i as int]);
        proof {
            assert(decreases_to!(ts => ts[i as int]));
        }
        let cid = format_child_id(pid, i + 1);
        prepare(&mut t, cid, today, depth);
        tasks.insert(i, t);
        proof {
            assert(tasks@ =~= before.update(i as int, t));
            assert forall|k: int| 0 <= k < i + 1 implies tasks_v(tasks@)[k] == prepared_children(ts, pid@, today@, depth)[k] by {
                if k < i {
                    assert(tasks_v(tasks@)[k] == tasks_v(before)[k]);
                }
            }
            assert forall|k: int| i + 1 <= k < ts.len() implies tasks_v(tasks@)[k] == ts[k] by {
                assert(tasks_v(tasks@)[k] == tasks_v(before)[k]);
            }
        }
        i += 1;
    }
    assert(tasks_v(tasks@) =~= prepared_children(ts, pid@, today@, depth));
}

/// Import tasks that were already read, dated `today`: each top-level task
/// gets the next ID of `prefix`'s namespace, its subtasks IDs under it, and
/// an `added:` date where it has none; they go into the backlog together where
/// `position` says.
pub fn import_parsed(
    tasks: Vec<Task>,
    track: &mut Track,
    position: InsertPosition,
    prefix: &str,
    today: &str,
) -> (r: Result<ImportResult, ImportError>)
    requires
        max_num_track(old(track)@, dash(prefix@)) + tasks@.len() < usize::MAX,
    ensures
        import_post(old(track)@, final(track)@, tasks_v(tasks@), position, prefix@, today@, r),
{
    let ghost parsed = tasks_v(tasks@);
    if tasks.len() == 0 {
        return Err(ImportError::NoTasks);
    }
    let pd = prefix_dash_of(prefix);
    let mut max: usize = 0;
    find_max_id_in_track(track, pd.as_str(), &mut max);
    let first = max + 1;
    let ghost firstn = first as nat;

    let mut assigned_ids: Vec<String> = Vec::new();
    let mut total: usize = 0;
    let mut prepared_tasks: Vec<Task> = Vec::new();
    let mut src = tasks;
    let mut j: usize = 0;
    let n = src.len();
    while j < n
        invariant
            n == parsed.len(),
            j <= n,
            src@.len() == n - j,
            first as nat == firstn,
            firstn == max_num_track(old(track)@, dash(prefix@)) + 1,
            firstn + n <= usize::MAX,
            forall|k: int| 0 <= k < src@.len() ==> #[trigger] src@[k]@ == parsed[j + k],
            tasks_v(prepared_tasks@) == prepared_top(parsed, prefix@, firstn, today@).take(j as int),
            strs_of(assigned_ids@) == Seq::new(j as nat, |i: int| top_id(prefix@, firstn + i as nat)),
            total as nat == capped(size_upto(parsed, j as int)),
        decreases n - j,
    {
        let ghost pbefore = prepared_tasks@;
        let ghost abefore = assigned_ids@;
        let mut t = src.remove(0);
        assert(t@ == parsed[j as int]);
        let id = format_top_id(prefix, first + j);
        let ghost idv = id@;
        assert(idv == top_id(prefix@, firstn + j as nat));
        let id2 = id.clone();
        assert(id2@ == idv);
        prepare(&mut t, id2, today, 0);
        assert(t@ == prepared(parsed[j as int], idv, today@, 0));
        let c = count_subtree_size(&t);
        proof {
            assert(size(t@) == size(parsed[j as int])) by {
                lemma_prepared_size(parsed[j as int], id@, today@, 0);
            }
        }
        total = if total > usize::MAX - c { usize::MAX } else { total + c };
        assigned_ids.push(id);
        prepared_tasks.push(t);
        proof {
            assert(prepared_tasks@ == pbefore.push(t));
            assert(tasks_v(prepared_tasks@) =~= tasks_v(pbefore).push(t@));
            assert(tasks_v(prepared_tasks@) =~= prepared_top(parsed, prefix@, firstn, today@).take(j + 1));
            assert(strs_of(assigned_ids@) =~= strs_of(abefore).push(idv));
            assert(strs_of(assigned_ids@) =~= Seq::new((j + 1) as nat, |i: int| top_id(prefix@, firstn + i as nat)));
            lemma_capped_add(size_upto(parsed, j as int), size(parsed[j as int]));
        }
        j += 1;
    }
    assert(prepared_top(parsed, prefix@, firstn, today@).take(n as int) =~= prepared_top(parsed, prefix@, firstn, today@));

    let bi = match backlog_index(track) {
        Some(i) => i,
        None => {
            return Err(ImportError::TaskError(TaskError::InvalidPosition(String::from_str("no backlog section"))));
        },
    };
    let mut backlog = track.swap_section_tasks(bi, Vec::new());
    let ghost bl = tasks_v(backlog@);
    assert(bl.len() == backlog@.len());
    assert(track@[bi as int] is Section);
    assert(track@.len() == track.nodes@.len());
    let idx: usize = match &position {
        InsertPosition::Bottom => backlog.len(),
        InsertPosition::Top => 0,
        InsertPosition::After(a) => {
            proof { lemma_child_pos(bl, a@, 0); }
            match child_position(backlog.as_slice(), a.as_str()) {
                Some(k) => {
                    assert(k < backlog.len());
                    k + 1
                },
                None => {
                    let _ = track.swap_section_tasks(bi, backlog);
                    proof {
                        let nd = old(track)@[bi as int];
                        assert(with_tasks(with_tasks(nd, Seq::empty()), bl) == nd);
                        assert(track@ =~= old(track)@);
                    }
                    return Err(ImportError::TaskError(TaskError::NotFound(str_msg("after target ", a.as_str()))));
                },
            }
        },
    };
    assert(insert_index(bl, position) == Some(idx as int));
    let mut tail = backlog.split_off(idx);
    let ghost tailv = tail@;
    backlog.append(&mut prepared_tasks);
    backlog.append(&mut tail);
    assert(tasks_v(backlog@) =~= bl.subrange(0, idx as int) + prepared_top(parsed, prefix@, firstn, today@)
        + bl.subrange(idx as int, bl.len() as int));
    let _ = track.swap_section_tasks(bi, backlog);
    proof {
        let nd = old(track)@[bi as int];
        assert(with_tasks(with_tasks(nd, Seq::empty()), tasks_v(backlog@)) == with_tasks(nd, tasks_v(backlog@)));
        assert(track@ =~= old(track)@.update(bi as int, with_tasks(nd, tasks_v(backlog@))));
    }
    Ok(ImportResult { assigned_ids, total_count: total })
}

proof fn lemma_capped_add(a: nat, b: nat)
    ensures
        capped(a + b) == if capped(a) > usize::MAX - capped(b) { usize::MAX as nat } else { capped(a) + capped(b) },
{
}

/// Preparing a task keeps the shape of its subtree.
proof fn lemma_prepared_size(t: TaskV, id: Seq<char>, today: Seq<char>, depth: usize)
    ensures
        size(prepared(t, id, today, depth)) == size(t),
    decreases t, 0int,
{
    lemma_prepared_size_from(t.subtasks, id, today, deeper(depth), 0);
}

proof fn lemma_prepared_size_from(ts: Seq<TaskV>, pid: Seq<char>, today: Seq<char>, depth: usize, i: int)
    requires
        0 <= i <= ts.len(),
    ensures
        size_from(prepared_children(ts, pid, today, depth), i) == size_from(ts, i),
    decreases ts, ts.len() - i,
{
    if i < ts.len() {
        assert(decreases_to!(ts => ts[i]));
        lemma_prepared_size(ts[i], child_id(pid, (i + 1) as nat), today, depth);
        lemma_prepared_size_from(ts, pid, today, depth, i + 1);
    }
}

proof fn lemma_split_count(s: Seq<char>, c: char, i: int)
    requires
        0 <= i <= s.len(),
    ensures
        split_from(s, c, i).len() <= s.len() - i + 1,
    decreases s.len() - i,
{
    lemma_find_char_from(s, c, i);
    match find_char_from(s, c, i) {
        Some(j) => lemma_split_count(s, c, j + 1),
        None => {},
    }
}

/// The top-level tasks read from line `idx` on: each run of tasks at the
/// left margin, whatever lies between the runs skipped.
pub open spec fn all_tasks(lines: Seq<Seq<char>>, idx: int) -> Seq<TaskV>
    decreases lines.len() - idx,
{
    if idx < 0 || idx >= lines.len() {
        Seq::empty()
    } else if crate::parse::task_line_at_v(lines[idx], 0) {
        let (ts, next) = crate::parse::tasks_at(lines, idx, 0, 0);
        let ni = if next > idx { next } else { idx + 1 };
        if ni <= lines.len() {
            ts + all_tasks(lines, ni)
        } else {
            ts
        }
    } else {
        all_tasks(lines, idx + 1)
    }
}

/// The tasks of a markdown text, top-level task groups separated by anything
/// else (headings, prose, blank lines).
pub fn parse_all_tasks(markdown: &str) -> (r: Vec<Task>)
    ensures
        r@.len() <= markdown@.len() + 1,
        tasks_v(r@) == all_tasks(lines_v(markdown@), 0),
{
    let (lines, _crlf) = split_lines(markdown);
    proof {
        lemma_split_count(markdown@, '\n', 0);
        assert(lines@.len() == lines@.map_values(|x: Vec<char>| x@).len());
        assert(lines@.len() == lines_v(markdown@).len());
        crate::parse::lemma_split_from(markdown@, '\n', 0);
        let ps = crate::refs::split_v(markdown@, '\n');
        assert(ps.drop_last().map_values(|p: Seq<char>| crate::parse::strip_cr(p)).len() == ps.len() - 1);
        assert(lines_v(markdown@).len() <= ps.len());
    }
    let ghost l = crate::parse::chars_lines(lines@);
    assert(l == lines_v(markdown@));
    let mut all: Vec<Task> = Vec::new();
    let mut idx: usize = 0;
    while idx < lines.len()
        invariant
            idx <= lines@.len(),
            lines@.len() <= markdown@.len() + 1,
            all@.len() <= idx,
            l == crate::parse::chars_lines(lines@),
            all_tasks(l, 0) == tasks_v(all@) + all_tasks(l, idx as int),
        decreases lines@.len() - idx,
    {
        assert(l[idx as int] == lines@[idx as int]@);
        let ghost ab = tasks_v(all@);
        if is_task_line_at(&lines[idx], 0) {
            let (mut tasks, next) = parse_tasks(&lines, idx, 0, 0);
            let ghost tv = tasks_v(tasks@);
            all.append(&mut tasks);
            assert(tasks_v(all@) =~= ab + tv);
            idx = if next > idx { next } else { idx + 1 };
            assert(ab + (tv + all_tasks(l, idx as int)) =~= tasks_v(all@) + all_tasks(l, idx as int));
        } else {
            idx += 1;
        }
    }
    assert(tasks_v(all@) + all_tasks(l, idx as int) =~= tasks_v(all@));
    all
}

/// Read markdown text as a list of tasks and put them into the track's
/// backlog, dated today (see [`import_parsed`]). The tasks it brings are
/// those [`parse_all_tasks`] reads from the text.
pub fn import_tasks(
    markdown: &str,
    track: &mut Track,
    position: InsertPosition,
    prefix: &str,
) -> (r: Result<ImportResult, ImportError>)
    requires
        max_num_track(old(track)@, dash(prefix@)) + markdown@.len() + 1 < usize::MAX,
    ensures
        exists|d: Seq<char>|
            #[trigger] import_post(old(track)@, final(track)@, all_tasks(lines_v(markdown@), 0), position, prefix@, d, r),
{
    let tasks = parse_all_tasks(markdown);
    let today = crate::clock::today_str();
    let ghost parsed = tasks_v(tasks@);
    let r = import_parsed(tasks, track, position, prefix, today.as_str());
    assert(import_post(old(track)@, track@, parsed, position, prefix@, today@, r));
    r
}

} // verus!
