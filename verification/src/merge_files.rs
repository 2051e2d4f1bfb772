//! File-level three-way merge of frame markdown, for use as a version-control
//! merge driver: which file shape a path holds, and the merge of three
//! versions of a track, an archive or the inbox, as text. Reading the three
//! files and writing the result is the caller's.

use vstd::prelude::*;
use crate::git_setup::{replace_char, replace_char_v};
use crate::parse::nonempty;
use crate::model::{
    meta_v, metas_v, node_tasks, node_v, strs_v, tasks_v, with_tasks, Archive, MetaV, Metadata, NodeV,
    Task, TaskV, Track, TrackNode,
};
use crate::parse::{parse_archive, parse_inbox, parse_track, serialize_archive, serialize_inbox, serialize_track,
    track_nodes, track_text, lines_v, crlf_v, archive_tasks, archive_header, archive_trailing, archive_text,
    inbox_header, inbox_items_of, lines_text, items_text};
use crate::reconcile::{
    conflicts_v, dedup, dedup_exec, key_of, inbox_kept, inbox_taken, lists_from, rebuilt, reconcile_archive_tasks, reconcile_inbox,
    reconcile_track, slug_v, string_in, task_key, track_entries, track_merge, Conflict, ConflictReason,
    ConflictV,
};
use crate::refs::{split_chars, split_v};
use crate::text::{chars_of, ends_with, push_str, str_eq, seq_ends_with, string_of};

verus! {

/// Which frame file shape a path holds. The three merge by different rules:
/// tracks by task identity within sections, a done archive by task identity
/// over a flat list, the inbox by content.
#[derive(Debug, Clone, Copy, PartialEq, Eq, Structural)]
pub enum FileKind {
    Track,
    /// A done-task archive, `frame/archive/<track>.md`: a flat list of tasks
    /// with no sections.
    Archive,
    Inbox,
}

impl FileKind {
    pub fn label(self) -> (r: &'static str)
        ensures
            r@ == match self {
                FileKind::Track => "track"@,
                FileKind::Archive => "archive"@,
                FileKind::Inbox => "inbox"@,
            },
    {
        match self {
            FileKind::Track => "track",
            FileKind::Archive => "archive",
            FileKind::Inbox => "inbox",
        }
    }

    /// What one merged unit is called in a message.
    pub fn unit(self) -> (r: &'static str)
        ensures
            r@ == match self {
                FileKind::Track | FileKind::Archive => "task(s)"@,
                FileKind::Inbox => "item(s)"@,
            },
    {
        match self {
            FileKind::Track | FileKind::Archive => "task(s)",
            FileKind::Inbox => "item(s)",
        }
    }

    /// Read the `--kind` flag: the label of a kind.
    pub fn parse(s: &str) -> (r: Option<FileKind>)
        ensures
            r == if s@ == "track"@ {
                Some(FileKind::Track)
            } else if s@ == "archive"@ {
                Some(FileKind::Archive)
            } else if s@ == "inbox"@ {
                Some(FileKind::Inbox)
            } else {
                None::<FileKind>
            },
    {
        if str_eq(s, "track") {
            Some(FileKind::Track)
        } else if str_eq(s, "archive") {
            Some(FileKind::Archive)
        } else if str_eq(s, "inbox") {
            Some(FileKind::Inbox)
        } else {
            None
        }
    }
}

/// What a merge did, and what it could not decide.
#[derive(Debug)]
pub struct MergeReport {
    pub kind: FileKind,
    /// Tasks or items whose version came from the other side.
    pub took_theirs: usize,
    /// Tasks or items removed because both sides agree they are gone.
    pub deleted: usize,
    /// Tasks the merge declined to decide. Always empty for the inbox.
    pub conflicts: Vec<Conflict>,
}

impl MergeReport {
    /// Whether the merge resolved everything.
    pub fn is_clean(&self) -> (r: bool)
        ensures
            r == (self.conflicts@.len() == 0),
    {
        self.conflicts.len() == 0
    }
}

/// Why a file-level merge could not run at all: a file that could not be
/// read or written, with the path and the system's message.
#[derive(Debug)]
pub enum MergeFileError {
    Read { path: String, message: String },
    Write { path: String, message: String },
}

impl MergeFileError {
    /// The message a user sees.
    pub fn message(&self) -> (r: String)
        ensures
            r@ == match self {
                MergeFileError::Read { path, message } => "cannot read "@ + path@ + ": "@ + message@,
                MergeFileError::Write { path, message } => "cannot write "@ + path@ + ": "@ + message@,
            },
    {
        let mut s = String::new();
        match self {
            MergeFileError::Read { path, message } => {
                push_str(&mut s, "cannot read ");
                push_str(&mut s, path.as_str());
                push_str(&mut s, ": ");
                push_str(&mut s, message.as_str());
            },
            MergeFileError::Write { path, message } => {
                push_str(&mut s, "cannot write ");
                push_str(&mut s, path.as_str());
                push_str(&mut s, ": ");
                push_str(&mut s, message.as_str());
            },
        }
        s
    }
}

// ---------------------------------------------------------------------------
// Which file a path holds
// ---------------------------------------------------------------------------

/// The non-empty components of a path, with `\` read as `/`.
pub open spec fn components_v(path: Seq<char>) -> Seq<Seq<char>> {
    nonempty(split_v(replace_char_v(path, '\\', "/"@), '/'))
}

/// Which frame file a path holds, read off its last components:
/// `frame/inbox.md` is the inbox, `frame/tracks/<x>.md` and
/// `archive/_tracks/<x>.md` are tracks, `frame/archive/<x>.md` is an
/// archive; anything else is `None`.
pub open spec fn kind_for_path_v(path: Seq<char>) -> Option<FileKind> {
    let c = components_v(path);
    let n = c.len();
    if n == 0 || !ends_with(c[n - 1], ".md"@) {
        None
    } else if c[n - 1] == "inbox.md"@ {
        if n >= 2 && c[n - 2] == "frame"@ { Some(FileKind::Inbox) } else { None }
    } else if n < 2 || n < 3 {
        None
    } else if c[n - 2] == "tracks"@ && c[n - 3] == "frame"@ {
        Some(FileKind::Track)
    } else if c[n - 2] == "archive"@ && c[n - 3] == "frame"@ {
        Some(FileKind::Archive)
    } else if c[n - 2] == "_tracks"@ && c[n - 3] == "archive"@ {
        Some(FileKind::Track)
    } else {
        None
    }
}

fn components(path: &str) -> (r: Vec<String>)
    ensures
        crate::model::strs_v(r@) == components_v(path@),
{
    let norm = replace_char(path, '\\', "/");
    let cs = chars_of(norm.as_str());
    let parts = split_chars(&cs, '/');
    let ghost pv = parts@.map_values(|x: Vec<char>| x@);
    let mut out: Vec<String> = Vec::new();
    let mut i: usize = 0;
    while i < parts.len()
        invariant
            i <= parts@.len(),
            pv == parts@.map_values(|x: Vec<char>| x@),
            pv == split_v(norm@, '/'),
            crate::model::strs_v(out@) == nonempty(pv.take(i as int)),
        decreases parts.len() - i,
    {
        assert(pv.take(i + 1).drop_last() =~= pv.take(i as int));
        assert(pv[i as int] == parts@[i as int]@);
        if parts[i].len() > 0 {
            let ghost before = crate::model::strs_v(out@);
            out.push(string_of(parts[i].as_slice()));
            assert(crate::model::strs_v(out@) =~= before.push(pv[i as int]));
        }
        i += 1;
    }
    assert(pv.take(pv.len() as int) =~= pv);
    out
}

/// Which frame file a repo-relative path holds (see [`kind_for_path_v`]),
/// or `None` when it is not a file this merge understands.
pub fn kind_for_path(path: &str) -> (r: Option<FileKind>)
    ensures
        r == kind_for_path_v(path@),
{
    let c = components(path);
    let ghost cv = crate::model::strs_v(c@);
    let n = c.len();
    if n == 0 {
        return None;
    }
    assert(cv[n - 1] == c@[n - 1]@);
    let fc = chars_of(c[n - 1].as_str());
    let md: Vec<char> = chars_of(".md");
    if !seq_ends_with(&fc, &md) {
        return None;
    }
    if str_eq(c[n - 1].as_str(), "inbox.md") {
        if n >= 2 {
            assert(cv[n - 2] == c@[n - 2]@);
            if str_eq(c[n - 2].as_str(), "frame") {
                return Some(FileKind::Inbox);
            }
        }
        return None;
    }
    if n < 3 {
        return None;
    }
    assert(cv[n - 2] == c@[n - 2]@);
    assert(cv[n - 3] == c@[n - 3]@);
    let parent = c[n - 2].as_str();
    let grand = c[n - 3].as_str();
    if str_eq(parent, "tracks") && str_eq(grand, "frame") {
        Some(FileKind::Track)
    } else if str_eq(parent, "archive") && str_eq(grand, "frame") {
        Some(FileKind::Archive)
    } else if str_eq(parent, "_tracks") && str_eq(grand, "archive") {
        Some(FileKind::Track)
    } else {
        None
    }
}


// ---------------------------------------------------------------------------
// Marking conflicts
// ---------------------------------------------------------------------------

/// The last conflict reported for key `k`.
pub open spec fn conflict_for(cs: Seq<ConflictV>, k: Seq<char>) -> Option<ConflictReason>
    decreases cs.len(),
{
    if cs.len() == 0 {
        None
    } else if cs.last().0 == k {
        Some(cs.last().1)
    } else {
        conflict_for(cs.drop_last(), k)
    }
}

/// The metadata without its `conflict:` lines.
pub open spec fn without_conflicts(ms: Seq<MetaV>) -> Seq<MetaV>
    decreases ms.len(),
{
    if ms.len() == 0 {
        Seq::empty()
    } else if ms.last() is Conflict {
        without_conflicts(ms.drop_last())
    } else {
        without_conflicts(ms.drop_last()).push(ms.last())
    }
}

/// A task and its subtasks with a `conflict:` line, the reason's slug and
/// the stamp, on each one a conflict names (replacing any earlier one), each
/// of those marked dirty.
pub open spec fn marked(t: TaskV, cs: Seq<ConflictV>, stamp: Seq<char>) -> TaskV
    decreases t, 0int,
{
    let subs = marked_list(t.subtasks, cs, stamp);
    match conflict_for(cs, key_of(t)) {
        Some(reason) => TaskV {
            metadata: without_conflicts(t.metadata).push(MetaV::Conflict(slug_v(reason) + " "@ + stamp)),
            dirty: true,
            subtasks: subs,
            ..t
        },
        None => TaskV { subtasks: subs, ..t },
    }
}

pub open spec fn marked_list(ts: Seq<TaskV>, cs: Seq<ConflictV>, stamp: Seq<char>) -> Seq<TaskV>
    decreases ts, 1int,
{
    Seq::new(
        ts.len(),
        |i: int|
            if 0 <= i < ts.len() {
                marked(ts[i], cs, stamp)
            } else {
                arbitrary()
            },
    )
}

pub open spec fn marked_nodes(nodes: Seq<NodeV>, cs: Seq<ConflictV>, stamp: Seq<char>) -> Seq<NodeV> {
    nodes.map_values(|n: NodeV| with_tasks(n, marked_list(node_tasks(n), cs, stamp)))
}

fn conflict_reason_for(cs: &Vec<Conflict>, k: &str) -> (r: Option<ConflictReason>)
    ensures
        r == conflict_for(conflicts_v(cs@), k@),
{
    let ghost cv = conflicts_v(cs@);
    let mut i = cs.len();
    assert(cv.take(i as int) =~= cv);
    while i > 0
        invariant
            i <= cs@.len(),
            cv == conflicts_v(cs@),
            conflict_for(cv, k@) == conflict_for(cv.take(i as int), k@),
        decreases i,
    {
        let j = i - 1;
        assert(cv.take(i as int).drop_last() =~= cv.take(j as int));
        assert(cv.take(i as int).last() == (cs@[j as int].key@, cs@[j as int].reason));
        if str_eq(cs[j].key.as_str(), k) {
            return Some(cs[j].reason);
        }
        i = j;
    }
    assert(cv.take(0) =~= Seq::<ConflictV>::empty());
    None
}

fn drop_conflicts(ms: &Vec<Metadata>) -> (r: Vec<Metadata>)
    ensures
        metas_v(r@) == without_conflicts(metas_v(ms@)),
{
    let ghost mv = metas_v(ms@);
    let mut out: Vec<Metadata> = Vec::new();
    let mut i: usize = 0;
    while i < ms.len()
        invariant
            i <= ms@.len(),
            mv == metas_v(ms@),
            metas_v(out@) == without_conflicts(mv.take(i as int)),
        decreases ms.len() - i,
    {
        assert(mv.take(i + 1).drop_last() =~= mv.take(i as int));
        assert(mv[i as int] == meta_v(ms@[i as int]));
        match &ms[i] {
            Metadata::Conflict(_) => {},
            other => {
                let ghost before = metas_v(out@);
                out.push(other.duplicate());
                assert(metas_v(out@) =~= before.push(mv[i as int]));
            },
        }
        i += 1;
    }
    assert(mv.take(mv.len() as int) =~= mv);
    out
}

fn mark_in_tasks(tasks: &mut Vec<Task>, cs: &Vec<Conflict>, stamp: &str)
    ensures
        tasks_v(final(tasks)@) == marked_list(tasks_v(old(tasks)@), conflicts_v(cs@), stamp@),
    decreases tasks_v(old(tasks)@),
{
    let ghost ts = tasks_v(tasks@);
    let ghost cv = conflicts_v(cs@);
    let mut i: usize = 0;
    while i < tasks.len()
        invariant
            i <= tasks@.len(),
            tasks@.len() == ts.len(),
            ts == tasks_v(old(tasks)@),
            cv == conflicts_v(cs@),
            forall|k: int| i <= k < ts.len() ==> tasks_v(tasks@)[k] == ts[k],
            forall|k: int| 0 <= k < i ==> tasks_v(tasks@)[k] == marked_list(ts, cv, stamp@)[k],
        decreases tasks@.len() - i,
    {
        let ghost before = tasks@;
        let mut t = tasks.remove(i);
        assert(t@ == ts[i as int]);
        let ghost t0 = t@;
        let k = task_key(&t);
        match conflict_reason_for(cs, k.as_str()) {
            Some(reason) => {
                let mut ms = drop_conflicts(&t.metadata);
                let mut v = String::from_str(reason.slug());
                push_str(&mut v, " ");
                push_str(&mut v, stamp);
                let ghost mb = metas_v(ms@);
                ms.push(Metadata::Conflict(v));
                assert(metas_v(ms@) =~= mb.push(MetaV::Conflict(slug_v(reason) + " "@ + stamp@)));
                t.metadata = ms;
                t.dirty = true;
            },
            None => {},
        }
        proof {
            assert(decreases_to!(ts => ts[i as int]));
            assert(tasks_v(t.subtasks@) =~= t0.subtasks);
        }
        mark_in_tasks(&mut t.subtasks, cs, stamp);
        assert(t@ =~= marked(t0, cv, stamp@)) by {
            assert(t@.subtasks =~= tasks_v(t.subtasks@));
        }
        tasks.insert(i, t);
        proof {
            assert(tasks@ =~= before.update(i as int, t));
            assert forall|k: int| 0 <= k < i + 1 implies tasks_v(tasks@)[k] == marked_list(ts, cv, stamp@)[k] by {
                if k < i {
                    assert(tasks_v(tasks@)[k] == tasks_v(before)[k]);
                }
            }
            assert forall|k: int| i + 1 <= k < ts.len() implies tasks_v(tasks@)[k] == ts[k] by {
                assert(tasks_v(tasks@)[k] == tasks_v(before)[k]);
            }
        }
        i += 1;
    }
    assert(tasks_v(tasks@) =~= marked_list(ts, cv, stamp@));
}

/// Record each unresolved conflict on the task it belongs to: a
/// `conflict:` line with the reason's slug and the stamp, replacing any
/// earlier one, so the file itself shows what the merge gave up on.
pub fn mark_conflicts(track: &mut Track, conflicts: &Vec<Conflict>, stamp: &str)
    ensures
        conflicts@.len() == 0 ==> final(track)@ == old(track)@,
        conflicts@.len() > 0 ==> final(track)@ == marked_nodes(old(track)@, conflicts_v(conflicts@), stamp@),
{
    if conflicts.len() == 0 {
        return;
    }
    let ghost nv = track@;
    let mut i: usize = 0;
    while i < track.nodes.len()
        invariant
            i <= track.nodes@.len(),
            track@.len() == nv.len(),
            nv == old(track)@,
            forall|k: int| i <= k < nv.len() ==> track@[k] == nv[k],
            forall|k: int| 0 <= k < i ==> track@[k] == marked_nodes(nv, conflicts_v(conflicts@), stamp@)[k],
        decreases track.nodes@.len() - i,
    {
        let is_section = match &track.nodes[i] {
            TrackNode::Section { .. } => true,
            TrackNode::Literal(_) => false,
        };
        assert(track@[i as int] == node_v(track.nodes@[i as int]));
        if is_section {
            let ghost before = track@;
            let mut tasks = track.swap_section_tasks(i, Vec::new());
            mark_in_tasks(&mut tasks, conflicts, stamp);
            assert(track@.len() == track.nodes@.len());
            let _ = track.swap_section_tasks(i, tasks);
            proof {
                let n = before[i as int];
                assert(with_tasks(with_tasks(n, Seq::empty()), tasks_v(tasks@)) == with_tasks(n, tasks_v(tasks@)));
                assert(track@ =~= before.update(i as int, with_tasks(n, tasks_v(tasks@))));
            }
        } else {
            assert(marked_nodes(nv, conflicts_v(conflicts@), stamp@)[i as int] == nv[i as int]);
        }
        i += 1;
    }
    assert(track@ =~= marked_nodes(nv, conflicts_v(conflicts@), stamp@));
}

// ---------------------------------------------------------------------------
// Merging
// ---------------------------------------------------------------------------

/// Merge three parsed versions of a track: the reconciled track with its
/// conflicts marked (see [`reconcile_track`] and [`mark_conflicts`]).
pub fn merge_tracks(base: &Track, ours: &Track, theirs: &Track, stamp: &str) -> (r: (Track, MergeReport))
    ensures
        ({
            let m = track_merge(track_entries(base@), track_entries(ours@), track_entries(theirs@));
            let t = rebuilt(ours@, theirs@, m.0);
            &&& r.0@ == if m.1.len() == 0 { t } else { marked_nodes(t, m.1, stamp@) }
            &&& r.1.kind == FileKind::Track
            &&& conflicts_v(r.1.conflicts@) == m.1
            &&& r.1.took_theirs as nat == m.2
            &&& r.1.deleted as nat == m.3
        }),
{
    let mut result = reconcile_track(base, ours, theirs);
    mark_conflicts(&mut result.track, &result.conflicts, stamp);
    (
        result.track,
        MergeReport {
            kind: FileKind::Track,
            took_theirs: result.took_theirs,
            deleted: result.deleted,
            conflicts: result.conflicts,
        },
    )
}

/// The text, conflicts and counts of merging three track texts.
pub open spec fn merged_track_v(base: Seq<char>, ours: Seq<char>, theirs: Seq<char>, stamp: Seq<char>) -> (Seq<char>, Seq<ConflictV>, usize, usize) {
    let b = track_nodes(lines_v(base), 0, 0);
    let o = track_nodes(lines_v(ours), 0, 0);
    let t = track_nodes(lines_v(theirs), 0, 0);
    let m = track_merge(track_entries(b), track_entries(o), track_entries(t));
    let n = rebuilt(o, t, m.0);
    (track_text(if m.1.len() == 0 { n } else { marked_nodes(n, m.1, stamp) }), m.1, m.2 as usize, m.3 as usize)
}

/// The text, conflicts and counts of merging three archive texts.
pub open spec fn merged_archive_v(base: Seq<char>, ours: Seq<char>, theirs: Seq<char>) -> (Seq<char>, Seq<ConflictV>, usize, usize) {
    let m = lists_from(archive_tasks(base), archive_tasks(ours), archive_tasks(theirs), true, 0);
    (archive_text(archive_header(ours), m.0, archive_trailing(ours), if crlf_v(ours) { "\r\n"@ } else { "\n"@ }),
        m.1,
        count_new(dedup(task_keys(m.0)), task_keys(archive_tasks(ours))) as usize,
        count_new(dedup(task_keys(archive_tasks(ours))), task_keys(m.0)) as usize)
}

/// The text and counts of merging three inbox texts.
pub open spec fn merged_inbox_v(base: Seq<char>, ours: Seq<char>, theirs: Seq<char>) -> (Seq<char>, usize, usize) {
    let (b, o, t) = (inbox_items_of(base), inbox_items_of(ours), inbox_items_of(theirs));
    let header = if inbox_header(ours) == inbox_header(base) { inbox_header(theirs) } else { inbox_header(ours) };
    (lines_text(header, "\n"@) + items_text(inbox_kept(b, o, t) + inbox_taken(b, o, t)),
        inbox_taken(b, o, t).len() as usize,
        (o.len() - inbox_kept(b, o, t).len()) as usize)
}

/// Merge three versions of a track, as text: each is read as a track, the
/// three are merged (see [`merge_tracks`]) and the result is written back.
pub fn merge_track_text(base: &str, ours: &str, theirs: &str, stamp: &str) -> (r: (String, MergeReport))
    ensures
        ({
            let b = track_nodes(lines_v(base@), 0, 0);
            let o = track_nodes(lines_v(ours@), 0, 0);
            let t = track_nodes(lines_v(theirs@), 0, 0);
            let m = track_merge(track_entries(b), track_entries(o), track_entries(t));
            let n = rebuilt(o, t, m.0);
            &&& r.0@ == track_text(if m.1.len() == 0 { n } else { marked_nodes(n, m.1, stamp@) })
            &&& r.1.kind == FileKind::Track
            &&& conflicts_v(r.1.conflicts@) == m.1
            &&& r.1.took_theirs as nat == m.2
            &&& r.1.deleted as nat == m.3
        }),
{
    let b = parse_track(base);
    let o = parse_track(ours);
    let t = parse_track(theirs);
    let (track, report) = merge_tracks(&b, &o, &t, stamp);
    (serialize_track(&track), report)
}

/// How many of the keys `ks` are not in `other`, each counted once.
pub open spec fn count_new(ks: Seq<Seq<char>>, other: Seq<Seq<char>>) -> nat
    decreases ks.len(),
{
    if ks.len() == 0 {
        0
    } else {
        count_new(ks.drop_last(), other) + if other.contains(ks.last()) { 0nat } else { 1nat }
    }
}

pub open spec fn task_keys(ts: Seq<TaskV>) -> Seq<Seq<char>> {
    ts.map_values(|t: TaskV| key_of(t))
}

fn keys_of_tasks(ts: &Vec<Task>) -> (r: Vec<String>)
    ensures
        strs_v(r@) == task_keys(tasks_v(ts@)),
{
    let mut out: Vec<String> = Vec::new();
    let mut i: usize = 0;
    while i < ts.len()
        invariant
            i <= ts@.len(),
            strs_v(out@) == task_keys(tasks_v(ts@)).take(i as int),
        decreases ts.len() - i,
    {
        let ghost before = strs_v(out@);
        out.push(task_key(&ts[i]));
        assert(task_keys(tasks_v(ts@))[i as int] == key_of(ts@[i as int]@));
        assert(strs_v(out@) =~= before.push(key_of(ts@[i as int]@)));
        i += 1;
    }
    assert(task_keys(tasks_v(ts@)).take(ts@.len() as int) =~= task_keys(tasks_v(ts@)));
    out
}

fn count_new_exec(ks: &Vec<String>, other: &Vec<String>) -> (r: usize)
    ensures
        r as nat == count_new(dedup(strs_v(ks@)), strs_v(other@)),
{
    let d = dedup_exec(ks);
    let ghost dv = strs_v(d@);
    let mut n: usize = 0;
    let mut i: usize = 0;
    while i < d.len()
        invariant
            i <= d@.len(),
            dv == strs_v(d@),
            n as nat == count_new(dv.take(i as int), strs_v(other@)),
            n <= i,
        decreases d.len() - i,
    {
        assert(dv.take(i + 1).drop_last() =~= dv.take(i as int));
        assert(dv[i as int] == d@[i as int]@);
        if !string_in(other, d[i].as_str()) {
            n += 1;
        }
        i += 1;
    }
    assert(dv.take(dv.len() as int) =~= dv);
    n
}

/// Merge three parsed done archives into ours: the task list is merged by
/// identity (see [`reconcile_archive_tasks`]); ours' header, trailing text
/// and line ending stay. `took_theirs` counts the keys the merge gained over
/// ours, `deleted` those it lost.
pub fn merge_archives(base: &Archive, ours: Archive, theirs: &Archive) -> (r: (Archive, MergeReport))
    ensures
        ({
            let m = lists_from(tasks_v(base.tasks@), tasks_v(ours.tasks@), tasks_v(theirs.tasks@), true, 0);
            &&& tasks_v(r.0.tasks@) == m.0
            &&& r.0.header_lines == ours.header_lines
            &&& r.0.trailing_lines == ours.trailing_lines
            &&& r.0.crlf == ours.crlf
            &&& r.1.kind == FileKind::Archive
            &&& conflicts_v(r.1.conflicts@) == m.1
            &&& r.1.took_theirs as nat == count_new(dedup(task_keys(m.0)), task_keys(tasks_v(ours.tasks@)))
            &&& r.1.deleted as nat == count_new(dedup(task_keys(tasks_v(ours.tasks@))), task_keys(m.0))
        }),
{
    let mut ours = ours;
    let before = keys_of_tasks(&ours.tasks);
    let (merged, conflicts) = reconcile_archive_tasks(base.tasks.as_slice(), ours.tasks.as_slice(), theirs.tasks.as_slice());
    let after = keys_of_tasks(&merged);
    let took_theirs = count_new_exec(&after, &before);
    let deleted = count_new_exec(&before, &after);
    ours.tasks = merged;
    (ours, MergeReport { kind: FileKind::Archive, took_theirs, deleted, conflicts })
}

/// Merge three versions of a done archive, as text (see
/// [`merge_archives`]). No `conflict:` line is written into an archive.
pub fn merge_archive_text(base: &str, ours: &str, theirs: &str, _stamp: &str) -> (r: (String, MergeReport))
    ensures
        ({
            let m = lists_from(archive_tasks(base@), archive_tasks(ours@), archive_tasks(theirs@), true, 0);
            &&& r.0@ == archive_text(archive_header(ours@), m.0, archive_trailing(ours@),
                if crlf_v(ours@) { "\r\n"@ } else { "\n"@ })
            &&& r.1.kind == FileKind::Archive
            &&& conflicts_v(r.1.conflicts@) == m.1
            &&& r.1.took_theirs as nat == count_new(dedup(task_keys(m.0)), task_keys(archive_tasks(ours@)))
            &&& r.1.deleted as nat == count_new(dedup(task_keys(archive_tasks(ours@))), task_keys(m.0))
        }),
{
    let b = parse_archive(base);
    let o = parse_archive(ours);
    let t = parse_archive(theirs);
    let (merged, report) = merge_archives(&b, o, &t);
    (serialize_archive(&merged), report)
}

/// Merge three versions of the inbox, as text: by content, as a multiset
/// (see [`reconcile_inbox`]). Reports no conflicts by construction.
pub fn merge_inbox_text(base: &str, ours: &str, theirs: &str) -> (r: (String, MergeReport))
    ensures
        ({
            let (b, o, t) = (inbox_items_of(base@), inbox_items_of(ours@), inbox_items_of(theirs@));
            let header = if inbox_header(ours@) == inbox_header(base@) { inbox_header(theirs@) } else { inbox_header(ours@) };
            &&& r.0@ == lines_text(header, "\n"@) + items_text(inbox_kept(b, o, t) + inbox_taken(b, o, t))
            &&& r.1.took_theirs == inbox_taken(b, o, t).len()
            &&& r.1.deleted == o.len() - inbox_kept(b, o, t).len()
        }),
        r.1.kind == FileKind::Inbox,
        r.1.conflicts@.len() == 0,
{
    let (b, _) = parse_inbox(base);
    let (o, _) = parse_inbox(ours);
    let (t, _) = parse_inbox(theirs);
    let result = reconcile_inbox(&b, &o, &t);
    (
        serialize_inbox(&result.inbox),
        MergeReport {
            kind: FileKind::Inbox,
            took_theirs: result.took_theirs,
            deleted: result.deleted,
            conflicts: Vec::new(),
        },
    )
}

/// Merge three versions of a file of the given kind, as text.
pub fn merge_text(kind: FileKind, base: &str, ours: &str, theirs: &str, stamp: &str) -> (r: (String, MergeReport))
    ensures
        r.1.kind == kind,
        kind == FileKind::Inbox ==> r.1.conflicts@.len() == 0,
        kind == FileKind::Track ==> (r.0@, conflicts_v(r.1.conflicts@), r.1.took_theirs, r.1.deleted)
            == merged_track_v(base@, ours@, theirs@, stamp@),
        kind == FileKind::Archive ==> (r.0@, conflicts_v(r.1.conflicts@), r.1.took_theirs, r.1.deleted)
            == merged_archive_v(base@, ours@, theirs@),
        kind == FileKind::Inbox ==> (r.0@, r.1.took_theirs, r.1.deleted) == merged_inbox_v(base@, ours@, theirs@),
{
    match kind {
        FileKind::Track => merge_track_text(base, ours, theirs, stamp),
        FileKind::Archive => merge_archive_text(base, ours, theirs, stamp),
        FileKind::Inbox => merge_inbox_text(base, ours, theirs),
    }
}

} // verus!
