//! Validating a project: the findings read off its tasks and inbox.

use vstd::prelude::*;
use crate::project::Project;
use crate::model::{Metadata, MetaV, Task, TaskV, TaskState, Track, TrackNode, NodeV, SectionKind, Inbox,
    tasks_v, metas_v, strs_v, node_tasks, item_v, items_v, ItemV, clone_opt_string};
use crate::text::{chars_of, substring, trim_v, trim_chars, trim_str, is_blank, has_char, string_of, push_str};
use crate::parse::{lines_v, split_lines};
use crate::reconcile::string_in;

verus! {

/// An error: something that should be fixed.
#[derive(Debug, Clone)]
pub enum CheckError {
    /// A track holds two or more sections of one kind.
    DuplicateSection { track_id: String, section: SectionKind, count: usize, hidden_tasks: usize },
    /// A `##` heading frame does not recognise.
    UnknownSectionHeading { track_id: String, heading: String, stranded_tasks: usize },
    /// A dep names an ID no task holds.
    DanglingDep { track_id: String, task_id: String, dep_id: String },
    /// A `ref:` path does not exist.
    BrokenRef { track_id: String, task_id: String, path: String },
    /// A `spec:` path does not exist.
    BrokenSpec { track_id: String, task_id: String, path: String },
    /// An ID held by more than one task.
    DuplicateId { task_id: String, track_ids: Vec<String> },
    /// A task still carries the `conflict:` marker a merge left on it.
    UnresolvedMergeConflict { track_id: String, task_id: String, detail: String, evidence: bool },
    /// The configuration lists a track whose file is missing.
    TrackFileMissing { track_id: String, path: String, state: String },
    /// A track file the configuration does not list.
    TrackFileUnreferenced { path: String, title: Option<String> },
}

/// A warning: a non-critical issue.
#[derive(Debug, Clone)]
pub enum CheckWarning {
    MissingId { track_id: String, title: String },
    MissingAddedDate { track_id: String, task_id: String },
    MissingResolvedDate { track_id: String, task_id: String },
    TaskInWrongSection { track_id: String, task_id: String, expected: SectionKind, actual: SectionKind },
    LostTask { track_id: String, task_id: String },
    ChildIdNotUnderParent { track_id: String, task_id: String, parent_id: String },
    ActorTokenUnregistered { token: String },
    ActorTokenRetiredButHeld { token: String },
    ActorNameCollision { name: String, tokens: Vec<String> },
    LocalFileCommitted { path: String, git_tracked: bool },
    MergeDriverUnregistered,
    MergeRoutingBroken { paths: Vec<String> },
    OversizeTrack { track_id: String, live_bytes: usize, file_bytes: usize, limit_bytes: usize },
    UnclosedNoteFence { track_id: String, task_id: Option<String>, title: String, fence: String },
    StrandedLine { track_id: String, before_task_id: Option<String>, before_title: String, line: String },
    StrandedLineUnder { track_id: String, under_task_id: Option<String>, under_title: String, line: String },
    IdReissuedAfterArchive { task_id: String, tracks: Vec<String>, archives: Vec<String> },
    DuplicateArchivedId { task_id: String, total: usize, archives: Vec<String> },
    ArchivedPrefixStale { track_id: String, archive: String, found: String, expected: String, task_ids: Vec<String> },
    IdFrontierUnreadable { path: String, detail: String },
    IdFrontierWasReset { path: String },
    UnclosedInboxFence { index: usize, title: String, fence: String },
    UnclaimedRescueCopies { path: String, files: Vec<String> },
    InterruptedOperation { operation: String, command: String, started: String },
    RefOutsideProject { track_id: String, task_id: String, field: String, path: String, reason: String },
    RefGitignored { track_id: String, task_id: String, field: String, path: String },
    ArchivedTrackFileUnclaimed { path: String, title: Option<String>, state: Option<String> },
}

/// Information that is neither an error nor a warning.
#[derive(Debug, Clone)]
pub enum CheckInfo {
    RecoveryLog { entry_count: usize, oldest: String, path: String },
}

/// What a check found.
#[derive(Debug)]
pub struct CheckResult {
    pub valid: bool,
    pub errors: Vec<CheckError>,
    pub warnings: Vec<CheckWarning>,
    pub info: Vec<CheckInfo>,
}

impl Default for CheckResult {
    fn default() -> (r: CheckResult)
        ensures
            !r.valid,
            r.errors@.len() == 0,
            r.warnings@.len() == 0,
            r.info@.len() == 0,
    {
        CheckResult { valid: false, errors: Vec::new(), warnings: Vec::new(), info: Vec::new() }
    }
}

// ---------------------------------------------------------------------------
// Code fences
// ---------------------------------------------------------------------------

/// How many backticks a line starts with.
pub open spec fn ticks_v(s: Seq<char>) -> nat
    decreases s.len(),
{
    if s.len() == 0 || s[0] != '`' {
        0
    } else {
        1 + ticks_v(s.drop_first())
    }
}

/// The open fence after the lines `ls[..n]`: its backtick count and its
/// trimmed line. An opener is a trimmed line of three or more backticks
/// whose rest holds no backtick; a closer, three or more backticks, at least
/// as many as the opener, and nothing but whitespace after them.
pub open spec fn fence_state(ls: Seq<Seq<char>>, n: int) -> Option<(nat, Seq<char>)>
    decreases n,
{
    if n <= 0 {
        None
    } else {
        let prev = fence_state(ls, n - 1);
        let t = trim_v(ls[n - 1]);
        let k = ticks_v(t);
        let rest = t.subrange(k as int, t.len() as int);
        if k < 3 {
            prev
        } else {
            match prev {
                None => if rest.contains('`') { None } else { Some((k, t)) },
                Some((ok, f)) => if k >= ok && trim_v(rest).len() == 0 { None } else { Some((ok, f)) },
            }
        }
    }
}

/// The fence a body leaves open at its end, if any.
pub open spec fn unclosed_fence_v(body: Seq<char>) -> Option<Seq<char>> {
    match fence_state(lines_v(body), lines_v(body).len() as int) {
        Some((_, f)) => Some(f),
        None => None,
    }
}

proof fn lemma_ticks(s: Seq<char>)
    ensures
        ticks_v(s) <= s.len(),
        forall|k: int| 0 <= k < ticks_v(s) ==> s[k] == '`',
        ticks_v(s) < s.len() ==> s[ticks_v(s) as int] != '`',
    decreases s.len(),
{
    if s.len() > 0 && s[0] == '`' {
        lemma_ticks(s.drop_first());
        assert forall|k: int| 0 <= k < ticks_v(s) implies s[k] == '`' by {
            if k > 0 {
                assert(s[k] == s.drop_first()[k - 1]);
            }
        }
    }
}

pub(crate) fn count_ticks(t: &Vec<char>) -> (r: usize)
    ensures
        r as nat == ticks_v(t@),
        r <= t@.len(),
{
    proof { lemma_ticks(t@); }
    let mut i: usize = 0;
    while i < t.len() && t[i] == '`'
        invariant
            i <= t@.len(),
            i <= ticks_v(t@),
            ticks_v(t@) <= t@.len(),
            forall|k: int| 0 <= k < ticks_v(t@) ==> t@[k] == '`',
            ticks_v(t@) < t@.len() ==> t@[ticks_v(t@) as int] != '`',
        decreases t.len() - i,
    {
        i += 1;
    }
    i
}

/// The code fence a body leaves open at its end, as its trimmed opening
/// line, or `None` when every fence is closed.
pub fn unclosed_fence(body: &str) -> (r: Option<String>)
    ensures
        match r {
            Some(f) => unclosed_fence_v(body@) == Some(f@),
            None => unclosed_fence_v(body@) is None,
        },
{
    let (lines, _crlf) = split_lines(body);
    let ghost ls = lines_v(body@);
    assert(lines@.len() == ls.len());
    let mut open: Option<(usize, Vec<char>)> = None;
    let mut i: usize = 0;
    while i < lines.len()
        invariant
            i <= lines@.len(),
            lines@.len() == ls.len(),
            forall|k: int| 0 <= k < lines@.len() ==> #[trigger] lines@[k]@ == ls[k],
            match open {
                Some((ok, f)) => fence_state(ls, i as int) == Some((ok as nat, f@)),
                None => fence_state(ls, i as int) is None,
            },
        decreases lines.len() - i,
    {
        let t = trim_chars(lines[i].as_slice());
        let k = count_ticks(&t);
        if k >= 3 {
            let rest: Vec<char> = chars_of(substring(&t, k, t.len()).as_str());
            match &open {
                None => {
                    if !has_char(&rest, '`') {
                        open = Some((k, t));
                    }
                },
                Some((ok, _)) => {
                    if k >= *ok && trim_chars(&rest).len() == 0 {
                        open = None;
                    }
                },
            }
        }
        i += 1;
    }
    match open {
        Some((_, f)) => Some(string_of(&f)),
        None => None,
    }
}

// ---------------------------------------------------------------------------
// The findings of a task
// ---------------------------------------------------------------------------

/// The mathematical value of a warning: those a task or an inbox item can
/// raise and those a repair answers; `Other` for the rest.
pub enum WarnV {
    MissingId(Seq<char>, Seq<char>),
    MissingAdded(Seq<char>, Seq<char>),
    MissingResolved(Seq<char>, Seq<char>),
    WrongSection(Seq<char>, Seq<char>, SectionKind, SectionKind),
    StrandedUnder(Seq<char>, Option<Seq<char>>, Seq<char>, Seq<char>),
    ChildNotUnder(Seq<char>, Seq<char>, Seq<char>),
    Lost(Seq<char>, Seq<char>),
    UnclosedNote(Seq<char>, Option<Seq<char>>, Seq<char>, Seq<char>),
    UnclosedInbox(nat, Seq<char>, Seq<char>),
    DupArchived(Seq<char>, nat, Seq<Seq<char>>),
    FrontierReset(Seq<char>),
    Interrupted(Seq<char>, Seq<char>, Seq<char>),
    RefOutside(Seq<char>, Seq<char>, Seq<char>, Seq<char>, Seq<char>),
    Reissued(Seq<char>, Seq<Seq<char>>, Seq<Seq<char>>),
    Other,
}

pub open spec fn os(o: Option<String>) -> Option<Seq<char>> {
    match o {
        Some(s) => Some(s@),
        None => None,
    }
}

pub open spec fn warn_v(w: CheckWarning) -> WarnV {
    match w {
        CheckWarning::MissingId { track_id, title } => WarnV::MissingId(track_id@, title@),
        CheckWarning::MissingAddedDate { track_id, task_id } => WarnV::MissingAdded(track_id@, task_id@),
        CheckWarning::MissingResolvedDate { track_id, task_id } => WarnV::MissingResolved(track_id@, task_id@),
        CheckWarning::TaskInWrongSection { track_id, task_id, expected, actual } =>
            WarnV::WrongSection(track_id@, task_id@, expected, actual),
        CheckWarning::StrandedLineUnder { track_id, under_task_id, under_title, line } =>
            WarnV::StrandedUnder(track_id@, os(under_task_id), under_title@, line@),
        CheckWarning::ChildIdNotUnderParent { track_id, task_id, parent_id } =>
            WarnV::ChildNotUnder(track_id@, task_id@, parent_id@),
        CheckWarning::LostTask { track_id, task_id } => WarnV::Lost(track_id@, task_id@),
        CheckWarning::UnclosedNoteFence { track_id, task_id, title, fence } =>
            WarnV::UnclosedNote(track_id@, os(task_id), title@, fence@),
        CheckWarning::UnclosedInboxFence { index, title, fence } => WarnV::UnclosedInbox(index as nat, title@, fence@),
        CheckWarning::DuplicateArchivedId { task_id, total, archives } =>
            WarnV::DupArchived(task_id@, total as nat, strs_v(archives@)),
        CheckWarning::IdFrontierWasReset { path } => WarnV::FrontierReset(path@),
        CheckWarning::InterruptedOperation { operation, command, started } =>
            WarnV::Interrupted(operation@, command@, started@),
        CheckWarning::IdReissuedAfterArchive { task_id, tracks, archives } =>
            WarnV::Reissued(task_id@, strs_v(tracks@), strs_v(archives@)),
        CheckWarning::RefOutsideProject { track_id, task_id, field, path, reason } =>
            WarnV::RefOutside(track_id@, task_id@, field@, path@, reason@),
        _ => WarnV::Other,
    }
}

pub open spec fn warns_view(v: Seq<CheckWarning>) -> Seq<WarnV> {
    v.map_values(|w: CheckWarning| warn_v(w))
}

/// The mathematical value of the errors a task or the project's IDs can
/// raise; `Other` for the rest.
pub enum ErrV {
    Conflict(Seq<char>, Seq<char>, Seq<char>, bool),
    Dangling(Seq<char>, Seq<char>, Seq<char>),
    BrokenRef(Seq<char>, Seq<char>, Seq<char>),
    BrokenSpec(Seq<char>, Seq<char>, Seq<char>),
    Duplicate(Seq<char>, Seq<Seq<char>>),
    DupSection(Seq<char>, SectionKind, usize, usize),
    Unknown(Seq<char>, Seq<char>, usize),
    Other,
}

pub open spec fn err_v(e: CheckError) -> ErrV {
    match e {
        CheckError::UnresolvedMergeConflict { track_id, task_id, detail, evidence } =>
            ErrV::Conflict(track_id@, task_id@, detail@, evidence),
        CheckError::DanglingDep { track_id, task_id, dep_id } => ErrV::Dangling(track_id@, task_id@, dep_id@),
        CheckError::BrokenRef { track_id, task_id, path } => ErrV::BrokenRef(track_id@, task_id@, path@),
        CheckError::BrokenSpec { track_id, task_id, path } => ErrV::BrokenSpec(track_id@, task_id@, path@),
        CheckError::DuplicateId { task_id, track_ids } => ErrV::Duplicate(task_id@, strs_v(track_ids@)),
        CheckError::DuplicateSection { track_id, section, count, hidden_tasks } =>
            ErrV::DupSection(track_id@, section, count, hidden_tasks),
        CheckError::UnknownSectionHeading { track_id, heading, stranded_tasks } =>
            ErrV::Unknown(track_id@, heading@, stranded_tasks),
        _ => ErrV::Other,
    }
}

pub open spec fn errs_view(v: Seq<CheckError>) -> Seq<ErrV> {
    v.map_values(|e: CheckError| err_v(e))
}

pub open spec fn id_or_empty(t: TaskV) -> Seq<char> {
    match t.id {
        Some(x) => x,
        None => Seq::empty(),
    }
}

pub open spec fn lost_tag() -> Seq<char> {
    seq!['l', 'o', 's', 't']
}

/// The warnings for a task's lines that are neither metadata nor subtasks:
/// one per non-blank line, trimmed.
pub open spec fn stranded_warns(ls: Seq<Seq<char>>, tid: Seq<char>, t: TaskV) -> Seq<WarnV>
    decreases ls.len(),
{
    if ls.len() == 0 {
        Seq::empty()
    } else {
        stranded_warns(ls.drop_last(), tid, t) + if trim_v(ls.last()).len() == 0 {
            Seq::<WarnV>::empty()
        } else {
            seq![WarnV::StrandedUnder(tid, t.id, t.title, trim_v(ls.last()))]
        }
    }
}

/// The warnings for a task's notes that leave a fence open.
pub open spec fn note_warns(ms: Seq<MetaV>, tid: Seq<char>, t: TaskV) -> Seq<WarnV>
    decreases ms.len(),
{
    if ms.len() == 0 {
        Seq::empty()
    } else {
        note_warns(ms.drop_last(), tid, t) + match ms.last() {
            MetaV::Note(n) => match unclosed_fence_v(n) {
                Some(f) => seq![WarnV::UnclosedNote(tid, t.id, t.title, f)],
                None => Seq::empty(),
            },
            _ => Seq::empty(),
        }
    }
}

/// The first warnings a task raises: a missing ID, a missing `added:` or
/// `resolved:` date, a top-level task in the wrong section.
pub open spec fn head_warns(t: TaskV, tid: Seq<char>, section: SectionKind, parent: Option<Option<Seq<char>>>) -> Seq<WarnV> {
    let id = id_or_empty(t);
    (if t.id is None { seq![WarnV::MissingId(tid, t.title)] } else { Seq::empty() })
    + (if !crate::clean::has_added_v(t.metadata) && t.id is Some { seq![WarnV::MissingAdded(tid, id)] } else { Seq::empty() })
    + (if t.state == TaskState::Done && !crate::clean::has_resolved_v(t.metadata) {
        seq![WarnV::MissingResolved(tid, id)]
    } else {
        Seq::empty()
    })
    + (if parent is None && t.id is Some && crate::clean::canonical_v(t.state) != section {
        seq![WarnV::WrongSection(tid, id, crate::clean::canonical_v(t.state), section)]
    } else {
        Seq::empty()
    })
}

/// A subtask ID that does not extend its parent's, and the `lost` tag.
pub open spec fn mid_warns(t: TaskV, tid: Seq<char>, parent: Option<Option<Seq<char>>>) -> Seq<WarnV> {
    (match (t.id, parent) {
        (Some(x), Some(Some(p))) => if crate::task_id::structured(x) && crate::task_id::structured(p)
            && !crate::task_id::child_of_id(x, p) {
            seq![WarnV::ChildNotUnder(tid, x, p)]
        } else {
            Seq::empty()
        },
        _ => Seq::empty(),
    })
    + (if t.tags.contains(lost_tag()) && t.id is Some { seq![WarnV::Lost(tid, id_or_empty(t))] } else { Seq::empty() })
}

/// The warnings a task raises about itself, in order. `parent` is `None`
/// for a top-level task and the parent's ID otherwise.
pub open spec fn own_warns(t: TaskV, tid: Seq<char>, section: SectionKind, parent: Option<Option<Seq<char>>>) -> Seq<WarnV> {
    head_warns(t, tid, section, parent) + stranded_warns(t.extra_lines, tid, t) + mid_warns(t, tid, parent)
        + note_warns(t.metadata, tid, t)
}

/// The warnings of a task and its subtree, in file order.
pub open spec fn warns_t(t: TaskV, tid: Seq<char>, section: SectionKind, parent: Option<Option<Seq<char>>>) -> Seq<WarnV>
    decreases t, 0int,
{
    own_warns(t, tid, section, parent) + warns_from(t.subtasks, 0, tid, section, Some(t.id))
}

pub open spec fn warns_from(ts: Seq<TaskV>, i: int, tid: Seq<char>, section: SectionKind, parent: Option<Option<Seq<char>>>) -> Seq<WarnV>
    decreases ts, ts.len() - i,
{
    if i < 0 || i >= ts.len() {
        Seq::empty()
    } else {
        warns_t(ts[i], tid, section, parent) + warns_from(ts, i + 1, tid, section, parent)
    }
}

/// The detail of a task's first `conflict:` marker.
pub open spec fn first_conflict(ms: Seq<MetaV>) -> Option<Seq<char>>
    decreases ms.len(),
{
    if ms.len() == 0 {
        None
    } else {
        match ms[0] {
            MetaV::Conflict(d) => Some(d),
            _ => first_conflict(ms.drop_first()),
        }
    }
}

/// One error per entry of `xs`: a dangling dep (`dep`) or a broken `ref:`.
pub open spec fn path_errs(xs: Seq<Seq<char>>, tid: Seq<char>, id: Seq<char>, dep: bool) -> Seq<ErrV> {
    xs.map_values(|d: Seq<char>| if dep { ErrV::Dangling(tid, id, d) } else { ErrV::BrokenRef(tid, id, d) })
}

/// The errors a task's metadata raises: dangling deps, and `ref:`/`spec:`
/// paths `missing` holds.
pub open spec fn meta_errs(ms: Seq<MetaV>, tid: Seq<char>, id: Seq<char>, all: Seq<Seq<char>>, missing: Seq<Seq<char>>) -> Seq<ErrV>
    decreases ms.len(),
{
    if ms.len() == 0 {
        Seq::empty()
    } else {
        meta_errs(ms.drop_last(), tid, id, all, missing) + match ms.last() {
            MetaV::Dep(l) => path_errs(crate::clean::kept(l, all, false), tid, id, true),
            MetaV::Ref(l) => path_errs(crate::clean::kept(l, missing, true), tid, id, false),
            MetaV::Spec(x) => if missing.contains(x) { seq![ErrV::BrokenSpec(tid, id, x)] } else { Seq::empty() },
            _ => Seq::empty(),
        }
    }
}

/// The errors of a task and its subtree, in file order.
pub open spec fn errs_t(t: TaskV, tid: Seq<char>, all: Seq<Seq<char>>, missing: Seq<Seq<char>>) -> Seq<ErrV>
    decreases t, 0int,
{
    (match first_conflict(t.metadata) {
        Some(d) => seq![ErrV::Conflict(tid, id_or_empty(t), d, false)],
        None => Seq::empty(),
    }) + meta_errs(t.metadata, tid, id_or_empty(t), all, missing) + errs_from(t.subtasks, 0, tid, all, missing)
}

pub open spec fn errs_from(ts: Seq<TaskV>, i: int, tid: Seq<char>, all: Seq<Seq<char>>, missing: Seq<Seq<char>>) -> Seq<ErrV>
    decreases ts, ts.len() - i,
{
    if i < 0 || i >= ts.len() {
        Seq::empty()
    } else {
        errs_t(ts[i], tid, all, missing) + errs_from(ts, i + 1, tid, all, missing)
    }
}

fn opt_clone(o: &Option<String>) -> (r: Option<String>)
    ensures
        os(r) == os(*o),
{
    match o {
        Some(s) => Some(s.clone()),
        None => None,
    }
}

fn id_str(t: &Task) -> (r: String)
    ensures
        r@ == id_or_empty(t@),
{
    match &t.id {
        Some(s) => s.clone(),
        None => String::new(),
    }
}

fn push_warn(out: &mut Vec<CheckWarning>, w: CheckWarning)
    ensures
        warns_view(final(out)@) == warns_view(old(out)@).push(warn_v(w)),
{
    let ghost b = out@;
    out.push(w);
    assert(out@ == b.push(w));
    assert(warns_view(out@) =~= warns_view(b).push(warn_v(w)));
}

fn push_err(out: &mut Vec<CheckError>, e: CheckError)
    ensures
        errs_view(final(out)@) == errs_view(old(out)@).push(err_v(e)),
{
    let ghost b = out@;
    out.push(e);
    assert(out@ == b.push(e));
    assert(errs_view(out@) =~= errs_view(b).push(err_v(e)));
}

fn push_head_warns(t: &Task, tid: &str, section: SectionKind, top: bool, parent_id: &Option<String>, out: &mut Vec<CheckWarning>)
    ensures
        warns_view(final(out)@) == warns_view(old(out)@)
            + head_warns(t@, tid@, section, if top { None } else { Some(os(*parent_id)) }),
{
    let ghost tv = t@;
    let ghost w0 = warns_view(out@);
    let ghost id = id_or_empty(tv);
    let is_none = t.id.is_none();
    if is_none {
        push_warn(out, CheckWarning::MissingId { track_id: String::from_str(tid), title: t.title.clone() });
    }
    let ghost p1 = if tv.id is None { seq![WarnV::MissingId(tid@, tv.title)] } else { Seq::<WarnV>::empty() };
    assert(warns_view(out@) =~= w0 + p1);
    let ghost w1 = warns_view(out@);
    if !crate::clean::has_added(&t.metadata) && !is_none {
        push_warn(out, CheckWarning::MissingAddedDate { track_id: String::from_str(tid), task_id: id_str(t) });
    }
    let ghost p2 = if !crate::clean::has_added_v(tv.metadata) && tv.id is Some { seq![WarnV::MissingAdded(tid@, id)] } else { Seq::<WarnV>::empty() };
    assert(warns_view(out@) =~= w1 + p2);
    let ghost w2 = warns_view(out@);
    if t.state == TaskState::Done && !crate::clean::has_resolved(&t.metadata) {
        push_warn(out, CheckWarning::MissingResolvedDate { track_id: String::from_str(tid), task_id: id_str(t) });
    }
    let ghost p3 = if tv.state == TaskState::Done && !crate::clean::has_resolved_v(tv.metadata) {
        seq![WarnV::MissingResolved(tid@, id)]
    } else {
        Seq::<WarnV>::empty()
    };
    assert(warns_view(out@) =~= w2 + p3);
    let ghost w3 = warns_view(out@);
    let expected = crate::clean::canonical_section(t.state);
    if top && !is_none && expected != section {
        push_warn(out, CheckWarning::TaskInWrongSection { track_id: String::from_str(tid), task_id: id_str(t), expected, actual: section });
    }
    assert(warns_view(out@) =~= w0 + head_warns(tv, tid@, section, if top { None } else { Some(os(*parent_id)) }));
}

fn push_stranded_warns(t: &Task, tid: &str, out: &mut Vec<CheckWarning>)
    ensures
        warns_view(final(out)@) == warns_view(old(out)@) + stranded_warns(t@.extra_lines, tid@, t@),
{
    let ghost tv = t@;
    let ghost w4 = warns_view(out@);
    let ghost el = strs_v(t.extra_lines@);
    let mut i: usize = 0;
    while i < t.extra_lines.len()
        invariant
            i <= t.extra_lines@.len(),
            el == strs_v(t.extra_lines@),
            tv == t@,
            warns_view(out@) == w4 + stranded_warns(el.take(i as int), tid@, tv),
        decreases t.extra_lines.len() - i,
    {
        assert(el.take(i + 1).drop_last() =~= el.take(i as int));
        if !is_blank(t.extra_lines[i].as_str()) {
            push_warn(out, CheckWarning::StrandedLineUnder {
                track_id: String::from_str(tid),
                under_task_id: opt_clone(&t.id),
                under_title: t.title.clone(),
                line: trim_str(t.extra_lines[i].as_str()),
            });
        }
        i += 1;
        assert(warns_view(out@) =~= w4 + stranded_warns(el.take(i as int), tid@, tv));
    }
    assert(el.take(i as int) =~= el);
}

fn push_mid_warns(t: &Task, tid: &str, top: bool, parent_id: &Option<String>, out: &mut Vec<CheckWarning>)
    ensures
        warns_view(final(out)@) == warns_view(old(out)@)
            + mid_warns(t@, tid@, if top { None } else { Some(os(*parent_id)) }),
{
    let ghost tv = t@;
    let ghost w5 = warns_view(out@);
    if !top {
        match (&t.id, parent_id) {
            (Some(x), Some(p)) => {
                let bad = crate::task_id::is_structured(x.as_str()) && crate::task_id::is_structured(p.as_str())
                    && !crate::task_id::is_child_of(x.as_str(), p.as_str());
                if bad {
                    push_warn(out, CheckWarning::ChildIdNotUnderParent {
                        track_id: String::from_str(tid),
                        task_id: x.clone(),
                        parent_id: p.clone(),
                    });
                }
            },
            _ => {},
        }
    }
    let ghost w6 = warns_view(out@);
    proof { reveal_strlit("lost"); }
    if string_in(&t.tags, "lost") && t.id.is_some() {
        push_warn(out, CheckWarning::LostTask { track_id: String::from_str(tid), task_id: id_str(t) });
    }
    assert("lost"@ =~= lost_tag());
    assert(warns_view(out@) =~= w5 + mid_warns(tv, tid@, if top { None } else { Some(os(*parent_id)) }));
}

fn push_note_warns(t: &Task, tid: &str, out: &mut Vec<CheckWarning>)
    ensures
        warns_view(final(out)@) == warns_view(old(out)@) + note_warns(t@.metadata, tid@, t@),
{
    let ghost tv = t@;
    let ghost w7 = warns_view(out@);
    let ghost mv = metas_v(t.metadata@);
    let mut k: usize = 0;
    while k < t.metadata.len()
        invariant
            k <= t.metadata@.len(),
            mv == metas_v(t.metadata@),
            tv == t@,
            mv == tv.metadata,
            warns_view(out@) == w7 + note_warns(mv.take(k as int), tid@, tv),
        decreases t.metadata.len() - k,
    {
        assert(mv.take(k + 1).drop_last() =~= mv.take(k as int));
        if let Metadata::Note(n) = &t.metadata[k] {
            match unclosed_fence(n.as_str()) {
                Some(f) => push_warn(out, CheckWarning::UnclosedNoteFence {
                    track_id: String::from_str(tid),
                    task_id: opt_clone(&t.id),
                    title: t.title.clone(),
                    fence: f,
                }),
                None => {},
            }
        }
        k += 1;
        assert(warns_view(out@) =~= w7 + note_warns(mv.take(k as int), tid@, tv));
    }
    assert(mv.take(k as int) =~= mv);
}

fn push_path_errs(xs: &Vec<String>, tid: &str, id: &String, dep: bool, out: &mut Vec<CheckError>)
    ensures
        errs_view(final(out)@) == errs_view(old(out)@) + path_errs(strs_v(xs@), tid@, id@, dep),
{
    let ghost xv = strs_v(xs@);
    let ghost o0 = errs_view(out@);
    let mut j: usize = 0;
    while j < xs.len()
        invariant
            j <= xs@.len(),
            xv == strs_v(xs@),
            errs_view(out@) == o0 + path_errs(xv.take(j as int), tid@, id@, dep),
        decreases xs.len() - j,
    {
        let e = if dep {
            CheckError::DanglingDep { track_id: String::from_str(tid), task_id: id.clone(), dep_id: xs[j].clone() }
        } else {
            CheckError::BrokenRef { track_id: String::from_str(tid), task_id: id.clone(), path: xs[j].clone() }
        };
        push_err(out, e);
        assert(xv.take(j + 1) =~= xv.take(j as int).push(xv[j as int]));
        j += 1;
        assert(errs_view(out@) =~= o0 + path_errs(xv.take(j as int), tid@, id@, dep));
    }
    assert(xv.take(j as int) =~= xv);
}

fn push_meta_errs(t: &Task, tid: &str, all: &Vec<String>, missing: &Vec<String>, out: &mut Vec<CheckError>)
    ensures
        errs_view(final(out)@) == errs_view(old(out)@)
            + meta_errs(t@.metadata, tid@, id_or_empty(t@), strs_v(all@), strs_v(missing@)),
{
    let ghost tv = t@;
    let ghost mv = metas_v(t.metadata@);
    let ghost o0 = errs_view(out@);
    let id = id_str(t);
    let mut k: usize = 0;
    while k < t.metadata.len()
        invariant
            k <= t.metadata@.len(),
            mv == metas_v(t.metadata@),
            tv == t@,
            mv == tv.metadata,
            id@ == id_or_empty(tv),
            errs_view(out@) == o0 + meta_errs(mv.take(k as int), tid@, id@, strs_v(all@), strs_v(missing@)),
        decreases t.metadata.len() - k,
    {
        assert(mv.take(k + 1).drop_last() =~= mv.take(k as int));
        let ghost ob = errs_view(out@);
        match &t.metadata[k] {
            Metadata::Dep(l) => {
                let miss = crate::clean::keep(l, all, false);
                push_path_errs(&miss, tid, &id, true, out);
            },
            Metadata::Ref(l) => {
                let miss = crate::clean::keep(l, missing, true);
                push_path_errs(&miss, tid, &id, false, out);
            },
            Metadata::Spec(x) => {
                if string_in(missing, x.as_str()) {
                    push_err(out, CheckError::BrokenSpec { track_id: String::from_str(tid), task_id: id.clone(), path: x.clone() });
                }
            },
            _ => {},
        }
        k += 1;
        assert(errs_view(out@) =~= o0 + meta_errs(mv.take(k as int), tid@, id@, strs_v(all@), strs_v(missing@)));
    }
    assert(mv.take(k as int) =~= mv);
}

fn push_conflict(t: &Task, tid: &str, out: &mut Vec<CheckError>)
    ensures
        errs_view(final(out)@) == errs_view(old(out)@) + match first_conflict(t@.metadata) {
            Some(d) => seq![ErrV::Conflict(tid@, id_or_empty(t@), d, false)],
            None => Seq::<ErrV>::empty(),
        },
{
    let ghost mv = metas_v(t.metadata@);
    assert(mv.subrange(0, mv.len() as int) =~= mv);
    let mut k: usize = 0;
    while k < t.metadata.len()
        invariant
            k <= t.metadata@.len(),
            mv == metas_v(t.metadata@),
            mv == t@.metadata,
            first_conflict(mv) == first_conflict(mv.subrange(k as int, mv.len() as int)),
            errs_view(out@) == errs_view(old(out)@),
        decreases t.metadata.len() - k,
    {
        assert(mv.subrange(k as int, mv.len() as int).drop_first() =~= mv.subrange(k + 1, mv.len() as int));
        if let Metadata::Conflict(d) = &t.metadata[k] {
            push_err(out, CheckError::UnresolvedMergeConflict {
                track_id: String::from_str(tid),
                task_id: id_str(t),
                detail: d.clone(),
                evidence: false,
            });
            return;
        }
        k += 1;
    }
    assert(mv.subrange(k as int, mv.len() as int) =~= Seq::<MetaV>::empty());
    assert(errs_view(out@) =~= errs_view(old(out)@) + Seq::<ErrV>::empty());
}

// ---------------------------------------------------------------------------
// Tasks, tracks, the inbox
// ---------------------------------------------------------------------------

/// The parent argument of the task rules: `None` at top level.
pub open spec fn parent_arg(top: bool, p: Option<Seq<char>>) -> Option<Option<Seq<char>>> {
    if top { None } else { Some(p) }
}

#[verifier::spinoff_prover]
#[verifier::rlimit(60)]
fn check_task(
    t: &Task,
    top: bool,
    parent_id: &Option<String>,
    tid: &str,
    section: SectionKind,
    all: &Vec<String>,
    missing: &Vec<String>,
    warns: &mut Vec<CheckWarning>,
    errs: &mut Vec<CheckError>,
)
    ensures
        warns_view(final(warns)@) == warns_view(old(warns)@) + warns_t(t@, tid@, section, parent_arg(top, os(*parent_id))),
        errs_view(final(errs)@) == errs_view(old(errs)@) + errs_t(t@, tid@, strs_v(all@), strs_v(missing@)),
    decreases t@, 1int,
{
    assert(tasks_v(t.subtasks@) =~= t@.subtasks);
    let ghost tv = t@;
    let ghost w0 = warns_view(warns@);
    let ghost e0 = errs_view(errs@);
    let ghost p = parent_arg(top, os(*parent_id));
    push_head_warns(t, tid, section, top, parent_id, warns);
    push_stranded_warns(t, tid, warns);
    push_mid_warns(t, tid, top, parent_id, warns);
    push_note_warns(t, tid, warns);
    assert(warns_view(warns@) =~= w0 + own_warns(tv, tid@, section, p));
    push_conflict(t, tid, errs);
    push_meta_errs(t, tid, all, missing, errs);
    assert(os(t.id) == tv.id);
    check_list(t.subtasks.as_slice(), false, &t.id, tid, section, all, missing, warns, errs);
    assert(warns_view(warns@) =~= w0 + warns_t(tv, tid@, section, p));
    assert(errs_view(errs@) =~= e0 + errs_t(tv, tid@, strs_v(all@), strs_v(missing@)));
}

fn check_list(
    tasks: &[Task],
    top: bool,
    parent_id: &Option<String>,
    tid: &str,
    section: SectionKind,
    all: &Vec<String>,
    missing: &Vec<String>,
    warns: &mut Vec<CheckWarning>,
    errs: &mut Vec<CheckError>,
)
    ensures
        warns_view(final(warns)@) == warns_view(old(warns)@)
            + warns_from(tasks_v(tasks@), 0, tid@, section, parent_arg(top, os(*parent_id))),
        errs_view(final(errs)@) == errs_view(old(errs)@) + errs_from(tasks_v(tasks@), 0, tid@, strs_v(all@), strs_v(missing@)),
    decreases tasks_v(tasks@),
{
    let ghost ts = tasks_v(tasks@);
    let ghost p = parent_arg(top, os(*parent_id));
    let ghost av = strs_v(all@);
    let ghost mv = strs_v(missing@);
    let ghost w0 = warns_view(warns@);
    let ghost e0 = errs_view(errs@);
    let mut i: usize = 0;
    while i < tasks.len()
        invariant
            i <= tasks@.len(),
            ts == tasks_v(tasks@),
            p == parent_arg(top, os(*parent_id)),
            av == strs_v(all@),
            mv == strs_v(missing@),
            warns_view(warns@) + warns_from(ts, i as int, tid@, section, p) == w0 + warns_from(ts, 0, tid@, section, p),
            errs_view(errs@) + errs_from(ts, i as int, tid@, av, mv) == e0 + errs_from(ts, 0, tid@, av, mv),
        decreases tasks@.len() - i,
    {
        let ghost wb = warns_view(warns@);
        let ghost eb = errs_view(errs@);
        assert(tasks[i as int]@ == ts[i as int]);
        proof {
            assert(decreases_to!(ts => ts[i as int]));
        }
        check_task(&tasks[i], top, parent_id, tid, section, all, missing, warns, errs);
        proof {
            assert(warns_view(warns@) + warns_from(ts, i + 1, tid@, section, p) =~= wb + warns_from(ts, i as int, tid@, section, p));
            assert(errs_view(errs@) + errs_from(ts, i + 1, tid@, av, mv) =~= eb + errs_from(ts, i as int, tid@, av, mv));
        }
        i += 1;
    }
    assert(warns_view(warns@) =~= warns_view(warns@) + warns_from(ts, i as int, tid@, section, p));
    assert(errs_view(errs@) =~= errs_view(errs@) + errs_from(ts, i as int, tid@, av, mv));
}

/// The warnings of a track's sections from node `i` on.
pub open spec fn warns_nodes(nodes: Seq<NodeV>, i: int, tid: Seq<char>) -> Seq<WarnV>
    decreases nodes.len() - i,
{
    if i < 0 || i >= nodes.len() {
        Seq::empty()
    } else {
        (match nodes[i] {
            NodeV::Section { kind, tasks, .. } => warns_from(tasks, 0, tid, kind, None),
            NodeV::Literal(_) => Seq::empty(),
        }) + warns_nodes(nodes, i + 1, tid)
    }
}

/// The errors of a track's sections from node `i` on.
pub open spec fn errs_nodes(nodes: Seq<NodeV>, i: int, tid: Seq<char>, all: Seq<Seq<char>>, missing: Seq<Seq<char>>) -> Seq<ErrV>
    decreases nodes.len() - i,
{
    if i < 0 || i >= nodes.len() {
        Seq::empty()
    } else {
        errs_from(node_tasks(nodes[i]), 0, tid, all, missing) + errs_nodes(nodes, i + 1, tid, all, missing)
    }
}

fn check_track(
    track: &Track,
    tid: &str,
    all: &Vec<String>,
    missing: &Vec<String>,
    warns: &mut Vec<CheckWarning>,
    errs: &mut Vec<CheckError>,
)
    ensures
        warns_view(final(warns)@) == warns_view(old(warns)@) + warns_nodes(track@, 0, tid@),
        errs_view(final(errs)@) == errs_view(old(errs)@) + errs_nodes(track@, 0, tid@, strs_v(all@), strs_v(missing@)),
{
    let ghost av = strs_v(all@);
    let ghost mv = strs_v(missing@);
    let ghost w0 = warns_view(warns@);
    let ghost e0 = errs_view(errs@);
    let none: Option<String> = None;
    let mut i: usize = 0;
    while i < track.nodes.len()
        invariant
            i <= track.nodes@.len(),
            none is None,
            av == strs_v(all@),
            mv == strs_v(missing@),
            warns_view(warns@) + warns_nodes(track@, i as int, tid@) == w0 + warns_nodes(track@, 0, tid@),
            errs_view(errs@) + errs_nodes(track@, i as int, tid@, av, mv) == e0 + errs_nodes(track@, 0, tid@, av, mv),
        decreases track.nodes.len() - i,
    {
        let ghost wb = warns_view(warns@);
        let ghost eb = errs_view(errs@);
        match &track.nodes[i] {
            TrackNode::Section { kind, tasks, .. } => {
                check_list(tasks.as_slice(), true, &none, tid, *kind, all, missing, warns, errs);
            },
            TrackNode::Literal(_) => {
                assert(errs_from(node_tasks(track@[i as int]), 0, tid@, av, mv) =~= Seq::empty());
            },
        }
        proof {
            assert(warns_view(warns@) + warns_nodes(track@, i + 1, tid@) =~= wb + warns_nodes(track@, i as int, tid@));
            assert(errs_view(errs@) + errs_nodes(track@, i + 1, tid@, av, mv) =~= eb + errs_nodes(track@, i as int, tid@, av, mv));
        }
        i += 1;
    }
    assert(warns_view(warns@) =~= warns_view(warns@) + warns_nodes(track@, i as int, tid@));
    assert(errs_view(errs@) =~= errs_view(errs@) + errs_nodes(track@, i as int, tid@, av, mv));
}

/// The warnings of the inbox items `items[..n]` whose body leaves a fence
/// open; items count from one.
pub open spec fn inbox_warns(items: Seq<ItemV>, n: int) -> Seq<WarnV>
    decreases n,
{
    if n <= 0 {
        Seq::empty()
    } else {
        inbox_warns(items, n - 1) + match items[n - 1].body {
            Some(b) => match unclosed_fence_v(b) {
                Some(f) => seq![WarnV::UnclosedInbox(n as nat, items[n - 1].title, f)],
                None => Seq::empty(),
            },
            None => Seq::empty(),
        }
    }
}

/// Warns of each inbox item whose body leaves a code fence open.
pub fn check_inbox(inbox: &Inbox, out: &mut Vec<CheckWarning>)
    ensures
        warns_view(final(out)@) == warns_view(old(out)@) + inbox_warns(items_v(inbox.items@), inbox.items@.len() as int),
{
    let ghost iv = items_v(inbox.items@);
    let ghost o0 = warns_view(out@);
    let mut i: usize = 0;
    while i < inbox.items.len()
        invariant
            i <= inbox.items@.len(),
            iv == items_v(inbox.items@),
            warns_view(out@) == o0 + inbox_warns(iv, i as int),
        decreases inbox.items.len() - i,
    {
        assert(iv[i as int] == item_v(inbox.items@[i as int]));
        if let Some(body) = &inbox.items[i].body {
            if let Some(f) = unclosed_fence(body.as_str()) {
                push_warn(out, CheckWarning::UnclosedInboxFence { index: i + 1, title: inbox.items[i].title.clone(), fence: f });
            }
        }
        i += 1;
        assert(warns_view(out@) =~= o0 + inbox_warns(iv, i as int));
    }
}

// ---------------------------------------------------------------------------
// Duplicate IDs and the whole project
// ---------------------------------------------------------------------------

/// Every task ID of the tracks from `i` on, each with its track's ID, in
/// track and file order.
pub open spec fn locs_tracks(tracks: Seq<(Seq<char>, Seq<NodeV>)>, i: int) -> Seq<(Seq<char>, Seq<char>)>
    decreases tracks.len() - i,
{
    if i < 0 || i >= tracks.len() {
        Seq::empty()
    } else {
        crate::clean::ids_in_nodes(tracks[i].1, 0).map_values(|x: Seq<char>| (x, tracks[i].0))
            + locs_tracks(tracks, i + 1)
    }
}

/// The tracks holding `x`, once per occurrence, in order.
pub open spec fn holders(occ: Seq<(Seq<char>, Seq<char>)>, x: Seq<char>) -> Seq<Seq<char>>
    decreases occ.len(),
{
    if occ.len() == 0 {
        Seq::empty()
    } else {
        holders(occ.drop_last(), x) + if occ.last().0 == x { seq![occ.last().1] } else { Seq::<Seq<char>>::empty() }
    }
}

/// One error per ID held more than once, at the first of the occurrences
/// `occ[..n]`, naming every holder.
pub open spec fn dup_groups(occ: Seq<(Seq<char>, Seq<char>)>, n: int) -> Seq<ErrV>
    decreases n,
{
    if n <= 0 {
        Seq::empty()
    } else {
        let x = occ[n - 1].0;
        dup_groups(occ, n - 1) + if holders(occ.take(n - 1), x).len() == 0 && holders(occ, x).len() > 1 {
            seq![ErrV::Duplicate(x, holders(occ, x))]
        } else {
            Seq::<ErrV>::empty()
        }
    }
}

fn id_locations(tracks: &Vec<(String, Track)>) -> (r: Vec<(String, String)>)
    ensures
        crate::project::pairs_view(r@) == locs_tracks(crate::project::tracks_view(tracks@), 0),
{
    let ghost tv = crate::project::tracks_view(tracks@);
    let mut out: Vec<(String, String)> = Vec::new();
    let mut i: usize = 0;
    while i < tracks.len()
        invariant
            i <= tracks@.len(),
            tv == crate::project::tracks_view(tracks@),
            crate::project::pairs_view(out@) + locs_tracks(tv, i as int) == locs_tracks(tv, 0),
        decreases tracks.len() - i,
    {
        let ghost ob = crate::project::pairs_view(out@);
        let mut ids: Vec<String> = Vec::new();
        crate::clean::collect_ids_track(&tracks[i].1, &mut ids);
        let ghost iv = strs_v(ids@);
        assert(iv =~= crate::clean::ids_in_nodes(tv[i as int].1, 0));
        let ghost tname = tv[i as int].0;
        let mut j: usize = 0;
        while j < ids.len()
            invariant
                j <= ids@.len(),
                iv == strs_v(ids@),
                tname == tracks@[i as int].0@,
                i < tracks@.len(),
                crate::project::pairs_view(out@) == ob + iv.take(j as int).map_values(|x: Seq<char>| (x, tname)),
            decreases ids.len() - j,
        {
            let ghost pb = out@;
            let pr = (ids[j].clone(), tracks[i].0.clone());
            out.push(pr);
            assert(out@ == pb.push(pr));
            assert(pr.0@ == iv[j as int] && pr.1@ == tname);
            assert(crate::project::pairs_view(out@) =~= crate::project::pairs_view(pb).push((iv[j as int], tname)));
            assert(iv.take(j + 1) =~= iv.take(j as int).push(iv[j as int]));
            j += 1;
            assert(crate::project::pairs_view(out@) =~= ob + iv.take(j as int).map_values(|x: Seq<char>| (x, tname)));
        }
        assert(iv.take(j as int) =~= iv);
        proof {
            assert(crate::project::pairs_view(out@) + locs_tracks(tv, i + 1) =~= ob + locs_tracks(tv, i as int));
        }
        i += 1;
    }
    assert(crate::project::pairs_view(out@) =~= crate::project::pairs_view(out@) + locs_tracks(tv, i as int));
    out
}

fn holders_of(occ: &Vec<(String, String)>, n: usize, x: &str) -> (r: Vec<String>)
    requires
        n <= occ@.len(),
    ensures
        strs_v(r@) == holders(crate::project::pairs_view(occ@).take(n as int), x@),
{
    let ghost ov = crate::project::pairs_view(occ@);
    let mut out: Vec<String> = Vec::new();
    let mut i: usize = 0;
    while i < n
        invariant
            i <= n,
            n <= occ@.len(),
            ov == crate::project::pairs_view(occ@),
            strs_v(out@) == holders(ov.take(i as int), x@),
        decreases n - i,
    {
        assert(ov.take(i + 1).drop_last() =~= ov.take(i as int));
        assert(ov.take(i + 1).last() == ov[i as int]);
        if crate::text::str_eq(occ[i].0.as_str(), x) {
            let ghost b = out@;
            let h = occ[i].1.clone();
            out.push(h);
            assert(out@ == b.push(h));
        }
        i += 1;
        assert(strs_v(out@) =~= holders(ov.take(i as int), x@));
    }
    out
}

fn push_duplicates(occ: &Vec<(String, String)>, out: &mut Vec<CheckError>)
    ensures
        errs_view(final(out)@) == errs_view(old(out)@)
            + dup_groups(crate::project::pairs_view(occ@), occ@.len() as int),
{
    let ghost ov = crate::project::pairs_view(occ@);
    let ghost o0 = errs_view(out@);
    assert(ov.take(ov.len() as int) =~= ov);
    let mut n: usize = 0;
    while n < occ.len()
        invariant
            n <= occ@.len(),
            ov == crate::project::pairs_view(occ@),
            ov.take(ov.len() as int) == ov,
            errs_view(out@) == o0 + dup_groups(ov, n as int),
        decreases occ.len() - n,
    {
        let x = &occ[n].0;
        assert(ov[n as int].0 == x@);
        let before = holders_of(occ, n, x.as_str());
        if before.len() == 0 {
            let every = holders_of(occ, occ.len(), x.as_str());
            if every.len() > 1 {
                push_err(out, CheckError::DuplicateId { task_id: x.clone(), track_ids: every });
            }
        }
        n += 1;
        assert(errs_view(out@) =~= o0 + dup_groups(ov, n as int));
    }
}

/// Each done archive of a project as a file: `<track>.md` and its text.
pub open spec fn archive_files(archives: Seq<(Seq<char>, Seq<char>)>) -> Seq<(Seq<char>, Seq<char>)> {
    archives.map_values(|a: (Seq<char>, Seq<char>)| (a.0 + ".md"@, a.1))
}

fn archive_files_exec(archives: &Vec<(String, String)>) -> (r: Vec<(String, String)>)
    ensures
        crate::project::pairs_view(r@) == archive_files(crate::project::pairs_view(archives@)),
{
    let ghost av = archive_files(crate::project::pairs_view(archives@));
    let mut out: Vec<(String, String)> = Vec::new();
    let mut i: usize = 0;
    while i < archives.len()
        invariant
            i <= archives@.len(),
            av == archive_files(crate::project::pairs_view(archives@)),
            crate::project::pairs_view(out@) == av.take(i as int),
        decreases archives.len() - i,
    {
        let mut name = String::from_str(archives[i].0.as_str());
        push_str(&mut name, ".md");
        let text = String::from_str(archives[i].1.as_str());
        let ghost ob = crate::project::pairs_view(out@);
        out.push((name, text));
        assert(crate::project::pairs_view(out@) =~= ob.push(av[i as int]));
        assert(av.take(i + 1) =~= av.take(i as int).push(av[i as int]));
        i += 1;
    }
    assert(av.take(i as int) =~= av);
    out
}

/// The findings of a project's model, in the order they are found: its
/// duplicate IDs, then each track's tasks and subtasks, then its heading
/// errors (repeated sections and headings frame does not know, in the
/// tracks, the inbox header and the done archives); then each reference
/// that will not travel with the project, each ID an archive holds again or
/// twice, and each inbox item whose body leaves a fence open. It is valid
/// when nothing is an error.
pub fn check_project(project: &Project) -> (r: CheckResult)
    ensures
        errs_view(r.errors@) == dup_groups(
            locs_tracks(crate::project::tracks_view(project.tracks@), 0),
            locs_tracks(crate::project::tracks_view(project.tracks@), 0).len() as int,
        ) + errs_tracks(
            crate::project::tracks_view(project.tracks@),
            0,
            crate::clean::ids_in_tracks(crate::project::tracks_view(project.tracks@), 0),
            strs_v(project.missing_paths@),
        ) + heading_errs_v(crate::project::tracks_view(project.tracks@), Seq::empty(),
            inbox_header_v(project.inbox), archive_files(crate::project::pairs_view(project.archives@))),
        warns_view(r.warnings@) == warns_tracks(crate::project::tracks_view(project.tracks@), 0)
            + outside_tracks(crate::project::tracks_view(project.tracks@), project.tracks@.len() as int)
            + archived_id_warns(crate::project::tracks_view(project.tracks@), crate::project::pairs_view(project.archives@))
            + match project.inbox {
            Some(ib) => inbox_warns(items_v(ib.items@), ib.items@.len() as int),
            None => Seq::<WarnV>::empty(),
        },
        r.info@.len() == 0,
        r.valid == (r.errors@.len() == 0),
{
    let ghost tv = crate::project::tracks_view(project.tracks@);
    let all = crate::clean::collect_all_task_ids(&project.tracks);
    let occ = id_locations(&project.tracks);
    let mut errors: Vec<CheckError> = Vec::new();
    let mut warnings: Vec<CheckWarning> = Vec::new();
    assert(errs_view(errors@) =~= Seq::<ErrV>::empty());
    assert(warns_view(warnings@) =~= Seq::<WarnV>::empty());
    push_duplicates(&occ, &mut errors);
    let ghost e1 = errs_view(errors@);
    let mut i: usize = 0;
    while i < project.tracks.len()
        invariant
            i <= project.tracks@.len(),
            tv == crate::project::tracks_view(project.tracks@),
            strs_v(all@) == crate::clean::ids_in_tracks(tv, 0),
            errs_view(errors@) + errs_tracks(tv, i as int, strs_v(all@), strs_v(project.missing_paths@))
                == e1 + errs_tracks(tv, 0, strs_v(all@), strs_v(project.missing_paths@)),
            warns_view(warnings@) + warns_tracks(tv, i as int) == warns_tracks(tv, 0),
        decreases project.tracks.len() - i,
    {
        let ghost wb = warns_view(warnings@);
        let ghost eb = errs_view(errors@);
        check_track(&project.tracks[i].1, project.tracks[i].0.as_str(), &all, &project.missing_paths, &mut warnings, &mut errors);
        proof {
            let mv = strs_v(project.missing_paths@);
            assert(tv[i as int] == (project.tracks@[i as int].0@, project.tracks@[i as int].1@));
            assert(warns_view(warnings@) + warns_tracks(tv, i + 1) =~= wb + warns_tracks(tv, i as int));
            assert(errs_view(errors@) + errs_tracks(tv, i + 1, strs_v(all@), mv) =~= eb + errs_tracks(tv, i as int, strs_v(all@), mv));
        }
        i += 1;
    }
    assert(errs_view(errors@) =~= errs_view(errors@) + errs_tracks(tv, i as int, strs_v(all@), strs_v(project.missing_paths@)));
    assert(warns_view(warnings@) =~= warns_view(warnings@) + warns_tracks(tv, i as int));
    let files = archive_files_exec(&project.archives);
    let none: Vec<(String, String)> = Vec::new();
    assert(crate::project::pairs_view(none@) =~= Seq::<(Seq<char>, Seq<char>)>::empty());
    let ghost eb = errs_view(errors@);
    let mut heads = heading_errors(&project.tracks, &none, &project.inbox, &files);
    let ghost hv = errs_view(heads@);
    errors.append(&mut heads);
    assert(errs_view(errors@) =~= eb + hv);
    check_ref_portability(&project.tracks, &mut warnings);
    check_archived_id_collisions(&project.tracks, &project.archives, &mut warnings);
    let ghost w2 = warns_view(warnings@);
    match &project.inbox {
        Some(ib) => check_inbox(ib, &mut warnings),
        None => {
            assert(warns_view(warnings@) =~= w2 + Seq::<WarnV>::empty());
        },
    }
    let valid = errors.len() == 0;
    CheckResult { valid, errors, warnings, info: Vec::new() }
}

/// The warnings of the tracks from `i` on.
pub open spec fn warns_tracks(tracks: Seq<(Seq<char>, Seq<NodeV>)>, i: int) -> Seq<WarnV>
    decreases tracks.len() - i,
{
    if i < 0 || i >= tracks.len() {
        Seq::empty()
    } else {
        warns_nodes(tracks[i].1, 0, tracks[i].0) + warns_tracks(tracks, i + 1)
    }
}

/// The errors of the tracks from `i` on.
pub open spec fn errs_tracks(tracks: Seq<(Seq<char>, Seq<NodeV>)>, i: int, all: Seq<Seq<char>>, missing: Seq<Seq<char>>) -> Seq<ErrV>
    decreases tracks.len() - i,
{
    if i < 0 || i >= tracks.len() {
        Seq::empty()
    } else {
        errs_nodes(tracks[i].1, 0, tracks[i].0, all, missing) + errs_tracks(tracks, i + 1, all, missing)
    }
}

// ---------------------------------------------------------------------------
// Headings
// ---------------------------------------------------------------------------

/// `a + b`, held at the largest `usize`.
pub open spec fn capped_sum(a: nat, b: nat) -> nat {
    if a + b > usize::MAX { usize::MAX as nat } else { a + b }
}

/// How many sections of `kind` the first `n` nodes hold, and how many
/// top-level tasks the copies after the first hold (tasks no operation sees,
/// since operations use the first).
pub open spec fn kind_count(nodes: Seq<NodeV>, kind: SectionKind, n: int) -> (nat, nat)
    decreases n,
{
    if n <= 0 {
        (0, 0)
    } else {
        let (c, h) = kind_count(nodes, kind, n - 1);
        match nodes[n - 1] {
            NodeV::Section { kind: k, tasks, .. } => if k == kind {
                (c + 1, if c >= 1 { capped_sum(h, tasks.len()) } else { h })
            } else {
                (c, h)
            },
            NodeV::Literal(_) => (c, h),
        }
    }
}

/// The duplicate-section error of one kind, if the track repeats it.
pub open spec fn dup_kind_err(tid: Seq<char>, nodes: Seq<NodeV>, kind: SectionKind) -> Seq<ErrV> {
    let (c, h) = kind_count(nodes, kind, nodes.len() as int);
    if c >= 2 { seq![ErrV::DupSection(tid, kind, c as usize, h as usize)] } else { Seq::empty() }
}

/// Whether a line is a `## ` heading.
pub open spec fn heading_line(l: Seq<char>) -> bool {
    crate::text::starts_with(l, "## "@)
}

/// The text of a heading line after its `## `, trimmed.
pub open spec fn heading_text(l: Seq<char>) -> Seq<char> {
    trim_v(l.skip(3))
}

/// How many top-level task lines follow from line `i` up to the next
/// heading: the tasks an unknown heading strands outside every section.
pub open spec fn stranded_after(ls: Seq<Seq<char>>, i: int) -> nat
    decreases ls.len() - i,
{
    if i < 0 || i >= ls.len() || heading_line(ls[i]) {
        0
    } else {
        (if crate::parse::task_line_at_v(ls[i], 0) { 1nat } else { 0nat }) + stranded_after(ls, i + 1)
    }
}

/// The unknown headings among the first `n` lines of a block outside any
/// section, each with the tasks it strands.
pub open spec fn unknown_in_lines(tid: Seq<char>, ls: Seq<Seq<char>>, n: int) -> Seq<ErrV>
    decreases n,
{
    if n <= 0 {
        Seq::empty()
    } else {
        unknown_in_lines(tid, ls, n - 1) + if heading_line(ls[n - 1]) && crate::parse::heading_v(ls[n - 1]) is None {
            seq![ErrV::Unknown(tid, heading_text(ls[n - 1]), stranded_after(ls, n) as usize)]
        } else {
            Seq::empty()
        }
    }
}

/// The unknown headings in the first `n` nodes of a track.
pub open spec fn unknown_in_nodes(tid: Seq<char>, nodes: Seq<NodeV>, n: int) -> Seq<ErrV>
    decreases n,
{
    if n <= 0 {
        Seq::empty()
    } else {
        unknown_in_nodes(tid, nodes, n - 1) + match nodes[n - 1] {
            NodeV::Literal(ls) => unknown_in_lines(tid, ls, ls.len() as int),
            NodeV::Section { .. } => Seq::empty(),
        }
    }
}

/// The heading errors of one track: its repeated sections (backlog, parked,
/// done), then its unknown headings.
pub open spec fn track_heading_errs(tid: Seq<char>, nodes: Seq<NodeV>) -> Seq<ErrV> {
    dup_kind_err(tid, nodes, SectionKind::Backlog) + dup_kind_err(tid, nodes, SectionKind::Parked)
        + dup_kind_err(tid, nodes, SectionKind::Done) + unknown_in_nodes(tid, nodes, nodes.len() as int)
}

/// The heading errors of the first `n` tracks.
pub open spec fn tracks_heading_errs(tracks: Seq<(Seq<char>, Seq<NodeV>)>, n: int) -> Seq<ErrV>
    decreases n,
{
    if n <= 0 {
        Seq::empty()
    } else {
        tracks_heading_errs(tracks, n - 1) + track_heading_errs(tracks[n - 1].0, tracks[n - 1].1)
    }
}

/// The `## ` lines of a file without sections, each an unknown heading
/// that strands nothing.
pub open spec fn flagged(file: Seq<char>, ls: Seq<Seq<char>>, n: int) -> Seq<ErrV>
    decreases n,
{
    if n <= 0 {
        Seq::empty()
    } else {
        flagged(file, ls, n - 1) + if heading_line(ls[n - 1]) {
            seq![ErrV::Unknown(file, heading_text(ls[n - 1]), 0)]
        } else {
            Seq::empty()
        }
    }
}

/// The headings flagged in the first `n` done-archive texts: in each one's
/// header, then after its task list.
pub open spec fn archives_flagged(archives: Seq<(Seq<char>, Seq<char>)>, n: int) -> Seq<ErrV>
    decreases n,
{
    if n <= 0 {
        Seq::empty()
    } else {
        let (name, text) = archives[n - 1];
        let h = crate::parse::archive_header(text);
        let t = crate::parse::archive_trailing(text);
        archives_flagged(archives, n - 1) + flagged(name, h, h.len() as int) + flagged(name, t, t.len() as int)
    }
}

/// Archived whole-track texts read as tracks.
pub open spec fn as_tracks(files: Seq<(Seq<char>, Seq<char>)>) -> Seq<(Seq<char>, Seq<NodeV>)> {
    files.map_values(|f: (Seq<char>, Seq<char>)| (f.0, crate::parse::track_nodes(lines_v(f.1), 0, 0)))
}

/// Every heading error of a project: the tracks' repeated sections and
/// unknown headings, then those of the archived whole-track files, then any
/// `## ` line in the inbox's header and in each done archive outside its
/// task list.
pub open spec fn heading_errs_v(
    tracks: Seq<(Seq<char>, Seq<NodeV>)>,
    archived: Seq<(Seq<char>, Seq<char>)>,
    inbox_header: Option<Seq<Seq<char>>>,
    archives: Seq<(Seq<char>, Seq<char>)>,
) -> Seq<ErrV> {
    tracks_heading_errs(tracks, tracks.len() as int)
        + tracks_heading_errs(as_tracks(archived), archived.len() as int)
        + match inbox_header {
            Some(h) => flagged("inbox.md"@, h, h.len() as int),
            None => Seq::empty(),
        }
        + archives_flagged(archives, archives.len() as int)
}

fn is_heading_line(l: &Vec<char>) -> (r: bool)
    ensures
        r == heading_line(l@),
{
    let p = chars_of("## ");
    crate::text::seq_starts_with(l, &p)
}

fn heading_text_exec(l: &Vec<char>) -> (r: String)
    requires
        l@.len() >= 3,
    ensures
        r@ == heading_text(l@),
{
    let sub = substring(l, 3, l.len());
    let rest = chars_of(sub.as_str());
    let t = trim_chars(&rest);
    assert(rest@ =~= l@.skip(3));
    string_of(&t)
}

fn stranded_after_exec(ls: &Vec<Vec<char>>, i: usize) -> (r: usize)
    requires
        i <= ls@.len(),
    ensures
        r as nat == stranded_after(ls@.map_values(|x: Vec<char>| x@), i as int),
{
    let ghost lv = ls@.map_values(|x: Vec<char>| x@);
    let mut n: usize = 0;
    let mut j = i;
    while j < ls.len() && !is_heading_line(&ls[j])
        invariant
            i <= j <= ls@.len(),
            lv == ls@.map_values(|x: Vec<char>| x@),
            n <= j - i,
            stranded_after(lv, i as int) == n + stranded_after(lv, j as int),
        decreases ls.len() - j,
    {
        assert(lv[j as int] == ls@[j as int]@);
        if crate::parse::is_task_line_at(&ls[j], 0) {
            n += 1;
        }
        j += 1;
    }
    proof {
        if j < ls@.len() {
            assert(lv[j as int] == ls@[j as int]@);
        }
    }
    n
}

fn lines_chars(ls: &Vec<String>) -> (r: Vec<Vec<char>>)
    ensures
        r@.map_values(|x: Vec<char>| x@) == strs_v(ls@),
{
    let mut out: Vec<Vec<char>> = Vec::new();
    let mut i: usize = 0;
    while i < ls.len()
        invariant
            i <= ls@.len(),
            out@.map_values(|x: Vec<char>| x@) == strs_v(ls@).take(i as int),
        decreases ls.len() - i,
    {
        let ghost ob = out@.map_values(|x: Vec<char>| x@);
        out.push(chars_of(ls[i].as_str()));
        assert(out@.map_values(|x: Vec<char>| x@) =~= ob.push(ls@[i as int]@));
        assert(strs_v(ls@).take(i + 1) =~= strs_v(ls@).take(i as int).push(ls@[i as int]@));
        i += 1;
    }
    assert(strs_v(ls@).take(i as int) =~= strs_v(ls@));
    out
}

/// Push each `## ` line of `ls`, as a heading of `file` that strands
/// nothing (or, with `sections`, each heading frame does not know with the
/// tasks it strands).
fn flag_lines(file: &str, ls: &Vec<String>, sections: bool, out: &mut Vec<CheckError>)
    ensures
        errs_view(final(out)@) == errs_view(old(out)@) + if sections {
            unknown_in_lines(file@, strs_v(ls@), ls@.len() as int)
        } else {
            flagged(file@, strs_v(ls@), ls@.len() as int)
        },
{
    let cs = lines_chars(ls);
    let ghost lv = strs_v(ls@);
    assert(cs@.map_values(|x: Vec<char>| x@).len() == cs@.len());
    let ghost o0 = errs_view(out@);
    proof { reveal_strlit("## "); }
    let mut i: usize = 0;
    while i < cs.len()
        invariant
            i <= cs@.len(),
            cs@.len() == ls@.len(),
            lv == strs_v(ls@),
            cs@.map_values(|x: Vec<char>| x@) == lv,
            errs_view(out@) == o0 + if sections { unknown_in_lines(file@, lv, i as int) } else { flagged(file@, lv, i as int) },
            "## "@.len() == 3,
        decreases cs.len() - i,
    {
        assert(lv[i as int] == cs@[i as int]@);
        let ghost ob = errs_view(out@);
        if is_heading_line(&cs[i]) {
            let name = heading_text_exec(&cs[i]);
            if sections {
                if crate::parse::heading_kind(&cs[i]).is_none() {
                    let n = stranded_after_exec(&cs, i + 1);
                    push_err(out, CheckError::UnknownSectionHeading { track_id: String::from_str(file), heading: name, stranded_tasks: n });
                }
            } else {
                push_err(out, CheckError::UnknownSectionHeading { track_id: String::from_str(file), heading: name, stranded_tasks: 0 });
            }
        }
        assert(errs_view(out@) =~= o0 + if sections { unknown_in_lines(file@, lv, i + 1) } else { flagged(file@, lv, i + 1) });
        i += 1;
    }
}

fn kind_count_exec(track: &Track, kind: SectionKind) -> (r: (usize, usize))
    ensures
        (r.0 as nat, r.1 as nat) == kind_count(track@, kind, track@.len() as int),
{
    let mut c: usize = 0;
    let mut h: usize = 0;
    let mut i: usize = 0;
    while i < track.nodes.len()
        invariant
            i <= track.nodes@.len(),
            track@.len() == track.nodes@.len(),
            (c as nat, h as nat) == kind_count(track@, kind, i as int),
            c <= i,
            h <= usize::MAX,
        decreases track.nodes.len() - i,
    {
        match &track.nodes[i] {
            TrackNode::Section { kind: k, tasks, .. } => {
                if *k == kind {
                    if c >= 1 {
                        h = if h <= usize::MAX - tasks.len() { h + tasks.len() } else { usize::MAX };
                    }
                    c += 1;
                }
            },
            TrackNode::Literal(_) => {},
        }
        i += 1;
    }
    (c, h)
}

fn push_dup_kind(track: &Track, tid: &str, kind: SectionKind, out: &mut Vec<CheckError>)
    ensures
        errs_view(final(out)@) == errs_view(old(out)@) + dup_kind_err(tid@, track@, kind),
{
    let (c, h) = kind_count_exec(track, kind);
    if c >= 2 {
        push_err(out, CheckError::DuplicateSection { track_id: String::from_str(tid), section: kind, count: c, hidden_tasks: h });
    }
    assert(errs_view(out@) =~= errs_view(old(out)@) + dup_kind_err(tid@, track@, kind));
}

fn track_headings(track: &Track, tid: &str, out: &mut Vec<CheckError>)
    ensures
        errs_view(final(out)@) == errs_view(old(out)@) + track_heading_errs(tid@, track@),
{
    let ghost o0 = errs_view(out@);
    push_dup_kind(track, tid, SectionKind::Backlog, out);
    push_dup_kind(track, tid, SectionKind::Parked, out);
    push_dup_kind(track, tid, SectionKind::Done, out);
    let ghost o1 = errs_view(out@);
    let mut i: usize = 0;
    while i < track.nodes.len()
        invariant
            i <= track.nodes@.len(),
            track@.len() == track.nodes@.len(),
            errs_view(out@) == o1 + unknown_in_nodes(tid@, track@, i as int),
        decreases track.nodes.len() - i,
    {
        let ghost ob = errs_view(out@);
        match &track.nodes[i] {
            TrackNode::Literal(lines) => flag_lines(tid, lines, true, out),
            TrackNode::Section { .. } => {},
        }
        assert(errs_view(out@) =~= o1 + unknown_in_nodes(tid@, track@, i + 1));
        i += 1;
    }
    assert(errs_view(out@) =~= errs_view(old(out)@) + track_heading_errs(tid@, track@));
}

pub open spec fn inbox_header_v(inbox: Option<Inbox>) -> Option<Seq<Seq<char>>> {
    match inbox {
        Some(ib) => Some(strs_v(ib.header_lines@)),
        None => None,
    }
}

/// Every heading error of a project's files: repeated sections and headings
/// frame does not know in the tracks, then in the archived whole-track
/// files (each a file name and its text), then any `## ` line in the
/// inbox's header and in each done archive (a file name and its text)
/// outside its task list.
pub fn heading_errors(
    tracks: &Vec<(String, Track)>,
    archived_tracks: &Vec<(String, String)>,
    inbox: &Option<Inbox>,
    archives: &Vec<(String, String)>,
) -> (r: Vec<CheckError>)
    ensures
        errs_view(r@) == heading_errs_v(crate::project::tracks_view(tracks@), crate::project::pairs_view(archived_tracks@),
            inbox_header_v(*inbox), crate::project::pairs_view(archives@)),
{
    let mut out: Vec<CheckError> = Vec::new();
    let ghost tv = crate::project::tracks_view(tracks@);
    assert(errs_view(out@) =~= Seq::<ErrV>::empty());
    let mut i: usize = 0;
    while i < tracks.len()
        invariant
            i <= tracks@.len(),
            tv == crate::project::tracks_view(tracks@),
            errs_view(out@) == tracks_heading_errs(tv, i as int),
        decreases tracks.len() - i,
    {
        assert(tv[i as int] == (tracks@[i as int].0@, tracks@[i as int].1@));
        track_headings(&tracks[i].1, tracks[i].0.as_str(), &mut out);
        i += 1;
    }
    let ghost e1 = errs_view(out@);
    let ghost av = as_tracks(crate::project::pairs_view(archived_tracks@));
    let mut j: usize = 0;
    while j < archived_tracks.len()
        invariant
            j <= archived_tracks@.len(),
            av == as_tracks(crate::project::pairs_view(archived_tracks@)),
            errs_view(out@) == e1 + tracks_heading_errs(av, j as int),
        decreases archived_tracks.len() - j,
    {
        let t = crate::parse::parse_track(archived_tracks[j].1.as_str());
        assert(av[j as int] == (archived_tracks@[j as int].0@, t@));
        track_headings(&t, archived_tracks[j].0.as_str(), &mut out);
        j += 1;
    }
    let ghost e2 = errs_view(out@);
    match inbox {
        Some(ib) => flag_lines("inbox.md", &ib.header_lines, false, &mut out),
        None => {},
    }
    let ghost e3 = errs_view(out@);
    let ghost pv = crate::project::pairs_view(archives@);
    let mut k: usize = 0;
    while k < archives.len()
        invariant
            k <= archives@.len(),
            pv == crate::project::pairs_view(archives@),
            errs_view(out@) == e3 + archives_flagged(pv, k as int),
        decreases archives.len() - k,
    {
        let a = crate::parse::parse_archive(archives[k].1.as_str());
        assert(pv[k as int] == (archives@[k as int].0@, archives@[k as int].1@));
        let ghost ob = errs_view(out@);
        flag_lines(archives[k].0.as_str(), &a.header_lines, false, &mut out);
        flag_lines(archives[k].0.as_str(), &a.trailing_lines, false, &mut out);
        assert(errs_view(out@) =~= e3 + archives_flagged(pv, k + 1));
        k += 1;
    }
    assert(errs_view(out@) =~= heading_errs_v(tv, crate::project::pairs_view(archived_tracks@),
        inbox_header_v(*inbox), pv));
    out
}

// ---------------------------------------------------------------------------
// References that will not travel
// ---------------------------------------------------------------------------

/// The clause a warning gives for a rejected reference.
pub open spec fn rejection_reason(r: crate::refs::PathRejection) -> Seq<char> {
    match r {
        crate::refs::PathRejection::Absolute =>
            "is absolute \u{2014} a ref is relative to the project root, so this one means nothing on another machine"@,
        crate::refs::PathRejection::Escapes =>
            "leaves the project root \u{2014} nothing outside it travels with the project"@,
    }
}

/// The warning for a `field` value of task `id` in track `tid`, when the
/// value is absolute or leaves the project root.
pub open spec fn outside_warn(tid: Seq<char>, id: Seq<char>, field: Seq<char>, v: Seq<char>) -> Seq<WarnV> {
    match crate::refs::containment_v(v) {
        Some(r) => seq![WarnV::RefOutside(tid, id, field, v, rejection_reason(r))],
        None => Seq::empty(),
    }
}

/// The warnings for the first `n` values of a `ref:` line.
pub open spec fn outside_refs(tid: Seq<char>, id: Seq<char>, vs: Seq<Seq<char>>, n: int) -> Seq<WarnV>
    decreases n,
{
    if n <= 0 {
        Seq::empty()
    } else {
        outside_refs(tid, id, vs, n - 1) + outside_warn(tid, id, "ref"@, vs[n - 1])
    }
}

/// The warnings for the first `n` fields of a task.
pub open spec fn outside_metas(tid: Seq<char>, id: Seq<char>, ms: Seq<MetaV>, n: int) -> Seq<WarnV>
    decreases n,
{
    if n <= 0 {
        Seq::empty()
    } else {
        outside_metas(tid, id, ms, n - 1) + match ms[n - 1] {
            MetaV::Ref(vs) => outside_refs(tid, id, vs, vs.len() as int),
            MetaV::Spec(v) => outside_warn(tid, id, "spec"@, v),
            _ => Seq::empty(),
        }
    }
}

/// The warnings for a task and its subtasks, in file order.
pub open spec fn outside_task(tid: Seq<char>, t: TaskV) -> Seq<WarnV>
    decreases t, 0int,
{
    outside_metas(tid, id_or_empty(t), t.metadata, t.metadata.len() as int) + outside_from(tid, t.subtasks, 0)
}

pub open spec fn outside_from(tid: Seq<char>, ts: Seq<TaskV>, i: int) -> Seq<WarnV>
    decreases ts, ts.len() - i,
{
    if i < 0 || i >= ts.len() {
        Seq::empty()
    } else {
        outside_task(tid, ts[i]) + outside_from(tid, ts, i + 1)
    }
}

/// The warnings for the first `n` nodes of a track.
pub open spec fn outside_nodes(tid: Seq<char>, nodes: Seq<NodeV>, n: int) -> Seq<WarnV>
    decreases n,
{
    if n <= 0 {
        Seq::empty()
    } else {
        outside_nodes(tid, nodes, n - 1) + outside_from(tid, node_tasks(nodes[n - 1]), 0)
    }
}

/// The warnings for the first `n` tracks.
pub open spec fn outside_tracks(tracks: Seq<(Seq<char>, Seq<NodeV>)>, n: int) -> Seq<WarnV>
    decreases n,
{
    if n <= 0 {
        Seq::empty()
    } else {
        outside_tracks(tracks, n - 1) + outside_nodes(tracks[n - 1].0, tracks[n - 1].1, tracks[n - 1].1.len() as int)
    }
}

fn push_outside(tid: &str, id: &String, field: &str, v: &String, out: &mut Vec<CheckWarning>)
    ensures
        warns_view(final(out)@) == warns_view(old(out)@) + outside_warn(tid@, id@, field@, v@),
{
    match crate::refs::containment(v.as_str()) {
        Some(r) => {
            let reason = String::from_str(r.reason());
            assert(reason@ == rejection_reason(r));
            push_warn(out, CheckWarning::RefOutsideProject {
                track_id: String::from_str(tid),
                task_id: String::from_str(id.as_str()),
                field: String::from_str(field),
                path: String::from_str(v.as_str()),
                reason,
            });
        },
        None => {},
    }
    assert(warns_view(out@) =~= warns_view(old(out)@) + outside_warn(tid@, id@, field@, v@));
}

fn outside_in_task(t: &Task, tid: &str, out: &mut Vec<CheckWarning>)
    ensures
        warns_view(final(out)@) == warns_view(old(out)@) + outside_task(tid@, t@),
    decreases t@, 1int,
{
    let id = match &t.id {
        Some(x) => String::from_str(x.as_str()),
        None => String::new(),
    };
    assert(id@ == id_or_empty(t@));
    let ghost mv = t@.metadata;
    assert(mv == metas_v(t.metadata@));
    let ghost o0 = warns_view(out@);
    let mut k: usize = 0;
    while k < t.metadata.len()
        invariant
            k <= t.metadata@.len(),
            mv == metas_v(t.metadata@),
            id@ == id_or_empty(t@),
            warns_view(out@) == o0 + outside_metas(tid@, id@, mv, k as int),
        decreases t.metadata.len() - k,
    {
        assert(mv[k as int] == crate::model::meta_v(t.metadata@[k as int]));
        let ghost ob = warns_view(out@);
        match &t.metadata[k] {
            Metadata::Ref(vs) => {
                let ghost vv = strs_v(vs@);
                let mut j: usize = 0;
                while j < vs.len()
                    invariant
                        j <= vs@.len(),
                        vv == strs_v(vs@),
                        warns_view(out@) == ob + outside_refs(tid@, id@, vv, j as int),
                    decreases vs.len() - j,
                {
                    assert(vv[j as int] == vs@[j as int]@);
                    push_outside(tid, &id, "ref", &vs[j], out);
                    assert(warns_view(out@) =~= ob + outside_refs(tid@, id@, vv, j + 1));
                    j += 1;
                }
            },
            Metadata::Spec(v) => push_outside(tid, &id, "spec", v, out),
            _ => {},
        }
        assert(warns_view(out@) =~= o0 + outside_metas(tid@, id@, mv, k + 1));
        k += 1;
    }
    let ghost o1 = warns_view(out@);
    assert(tasks_v(t.subtasks@) =~= t@.subtasks);
    outside_in_list(&t.subtasks, tid, out);
    assert(warns_view(out@) =~= warns_view(old(out)@) + outside_task(tid@, t@));
}

fn outside_in_list(ts: &Vec<Task>, tid: &str, out: &mut Vec<CheckWarning>)
    ensures
        warns_view(final(out)@) == warns_view(old(out)@) + outside_from(tid@, tasks_v(ts@), 0),
    decreases tasks_v(ts@),
{
    let ghost tv = tasks_v(ts@);
    let ghost o0 = warns_view(out@);
    let mut i: usize = 0;
    while i < ts.len()
        invariant
            i <= ts@.len(),
            tv == tasks_v(ts@),
            warns_view(out@) + outside_from(tid@, tv, i as int) == o0 + outside_from(tid@, tv, 0),
        decreases ts.len() - i,
    {
        let ghost ob = warns_view(out@);
        assert(tv[i as int] == ts@[i as int]@);
        proof {
            assert(decreases_to!(tv => tv[i as int]));
        }
        outside_in_task(&ts[i], tid, out);
        assert(warns_view(out@) + outside_from(tid@, tv, i + 1) =~= ob + outside_from(tid@, tv, i as int));
        i += 1;
    }
    assert(warns_view(out@) =~= warns_view(out@) + outside_from(tid@, tv, i as int));
}

/// Warn on each `ref:`/`spec:` value, in every track, that is absolute or
/// leaves the project root: it resolves here and nowhere else.
pub fn check_ref_portability(tracks: &Vec<(String, Track)>, out: &mut Vec<CheckWarning>)
    ensures
        warns_view(final(out)@) == warns_view(old(out)@) + outside_tracks(crate::project::tracks_view(tracks@), tracks@.len() as int),
{
    let ghost tv = crate::project::tracks_view(tracks@);
    let ghost o0 = warns_view(out@);
    let mut i: usize = 0;
    while i < tracks.len()
        invariant
            i <= tracks@.len(),
            tv == crate::project::tracks_view(tracks@),
            warns_view(out@) == o0 + outside_tracks(tv, i as int),
        decreases tracks.len() - i,
    {
        assert(tv[i as int] == (tracks@[i as int].0@, tracks@[i as int].1@));
        let track = &tracks[i].1;
        let tid = tracks[i].0.as_str();
        let ghost o1 = warns_view(out@);
        let mut j: usize = 0;
        while j < track.nodes.len()
            invariant
                j <= track.nodes@.len(),
                track@.len() == track.nodes@.len(),
                warns_view(out@) == o1 + outside_nodes(tid@, track@, j as int),
            decreases track.nodes.len() - j,
        {
            let ghost ob = warns_view(out@);
            match &track.nodes[j] {
                TrackNode::Section { tasks, .. } => outside_in_list(tasks, tid, out),
                TrackNode::Literal(_) => {
                    assert(outside_from(tid@, node_tasks(track@[j as int]), 0) =~= Seq::<WarnV>::empty());
                },
            }
            assert(warns_view(out@) =~= o1 + outside_nodes(tid@, track@, j + 1));
            j += 1;
        }
        assert(warns_view(out@) =~= o0 + outside_tracks(tv, i + 1));
        i += 1;
    }
}

// ---------------------------------------------------------------------------
// IDs an archive holds
// ---------------------------------------------------------------------------

/// The distinct strings of `xs` in character order.
pub open spec fn sorted_set(xs: Seq<Seq<char>>) -> Seq<Seq<char>> {
    choose|l: Seq<Seq<char>>| crate::fix::strictly_sorted(l) && forall|y: Seq<char>| #[trigger] l.contains(y) <==> xs.contains(y)
}

fn sorted_set_exec(xs: &Vec<String>) -> (r: Vec<String>)
    ensures
        strs_v(r@) == sorted_set(strs_v(xs@)),
{
    let ghost xv = strs_v(xs@);
    let mut out: Vec<String> = Vec::new();
    assert(strs_v(out@) =~= Seq::<Seq<char>>::empty());
    let mut i: usize = 0;
    while i < xs.len()
        invariant
            i <= xs@.len(),
            xv == strs_v(xs@),
            crate::fix::strictly_sorted(strs_v(out@)),
            forall|y: Seq<char>| #[trigger] strs_v(out@).contains(y) <==> xv.take(i as int).contains(y),
        decreases xs.len() - i,
    {
        let ghost ob = strs_v(out@);
        let x = String::from_str(xs[i].as_str());
        assert(x@ == xv[i as int]);
        crate::fix::insert_sorted(&mut out, x);
        assert(xv.take(i + 1) =~= xv.take(i as int).push(xv[i as int]));
        assert forall|y: Seq<char>| #[trigger] strs_v(out@).contains(y) <==> xv.take(i + 1).contains(y) by {
            let p = xv.take(i + 1);
            let q = xv.take(i as int);
            if p.contains(y) {
                let k = choose|k: int| 0 <= k < p.len() && #[trigger] p[k] == y;
                if k < i {
                    assert(q[k] == y);
                }
            }
            if q.contains(y) {
                let k = choose|k: int| 0 <= k < q.len() && #[trigger] q[k] == y;
                assert(p[k] == y);
            }
            if y == xv[i as int] {
                assert(xv.take(i + 1)[i as int] == y);
            }
        }
        i += 1;
    }
    assert(xv.take(i as int) =~= xv);
    proof {
        let l = strs_v(out@);
        assert(crate::fix::strictly_sorted(l) && forall|y: Seq<char>| #[trigger] l.contains(y) <==> xv.contains(y));
        let c = sorted_set(xv);
        crate::actor_merge::lemma_sorted_unique(l, c);
    }
    out
}

/// The label of a track's done archive.
pub open spec fn archive_label(tid: Seq<char>) -> Seq<char> {
    "archive/"@ + tid + ".md"@
}

/// Each ID the first `n` done archives hold, once per occurrence, with the
/// archive holding it.
pub open spec fn arch_locs(archives: Seq<(Seq<char>, Seq<char>)>, n: int) -> Seq<(Seq<char>, Seq<char>)>
    decreases n,
{
    if n <= 0 {
        Seq::empty()
    } else {
        arch_locs(archives, n - 1) + crate::clean::ids_in_from(crate::parse::archive_tasks(archives[n - 1].1), 0)
            .map_values(|x: Seq<char>| (x, archive_label(archives[n - 1].0)))
    }
}

/// The warnings for the first `n` of the archived IDs `ids`: a number a
/// live task holds again, or one task archived more than once.
pub open spec fn archive_warns(live: Seq<(Seq<char>, Seq<char>)>, arch: Seq<(Seq<char>, Seq<char>)>, ids: Seq<Seq<char>>, n: int) -> Seq<WarnV>
    decreases n,
{
    if n <= 0 {
        Seq::empty()
    } else {
        let id = ids[n - 1];
        let t = holders(live, id);
        let a = holders(arch, id);
        archive_warns(live, arch, ids, n - 1) + if t.len() > 0 {
            seq![WarnV::Reissued(id, t, sorted_set(a))]
        } else if a.len() > 1 {
            seq![WarnV::DupArchived(id, a.len(), sorted_set(a))]
        } else {
            Seq::empty()
        }
    }
}

/// The warnings for IDs an archive holds, in character order of the IDs.
pub open spec fn archived_id_warns(tracks: Seq<(Seq<char>, Seq<NodeV>)>, archives: Seq<(Seq<char>, Seq<char>)>) -> Seq<WarnV> {
    let arch = arch_locs(archives, archives.len() as int);
    let ids = sorted_set(arch.map_values(|p: (Seq<char>, Seq<char>)| p.0));
    archive_warns(locs_tracks(tracks, 0), arch, ids, ids.len() as int)
}

fn arch_locations(archives: &Vec<(String, String)>) -> (r: Vec<(String, String)>)
    ensures
        crate::project::pairs_view(r@) == arch_locs(crate::project::pairs_view(archives@), archives@.len() as int),
{
    let ghost av = crate::project::pairs_view(archives@);
    let mut out: Vec<(String, String)> = Vec::new();
    assert(crate::project::pairs_view(out@) =~= Seq::<(Seq<char>, Seq<char>)>::empty());
    let mut i: usize = 0;
    while i < archives.len()
        invariant
            i <= archives@.len(),
            av == crate::project::pairs_view(archives@),
            crate::project::pairs_view(out@) == arch_locs(av, i as int),
        decreases archives.len() - i,
    {
        assert(av[i as int] == (archives@[i as int].0@, archives@[i as int].1@));
        let a = crate::parse::parse_archive(archives[i].1.as_str());
        let mut ids: Vec<String> = Vec::new();
        crate::clean::collect_ids_list(a.tasks.as_slice(), &mut ids);
        assert(strs_v(ids@) =~= crate::clean::ids_in_from(crate::parse::archive_tasks(av[i as int].1), 0));
        let mut label = String::from_str("archive/");
        push_str(&mut label, archives[i].0.as_str());
        push_str(&mut label, ".md");
        let ghost iv = strs_v(ids@);
        let ghost base = crate::project::pairs_view(out@);
        let ghost f = |x: Seq<char>| (x, archive_label(av[i as int].0));
        let mut j: usize = 0;
        while j < ids.len()
            invariant
                j <= ids@.len(),
                iv == strs_v(ids@),
                label@ == archive_label(av[i as int].0),
                f == (|x: Seq<char>| (x, archive_label(av[i as int].0))),
                crate::project::pairs_view(out@) == base + iv.take(j as int).map_values(f),
            decreases ids.len() - j,
        {
            let ghost ob = crate::project::pairs_view(out@);
            let e = (String::from_str(ids[j].as_str()), String::from_str(label.as_str()));
            assert(iv[j as int] == ids@[j as int]@);
            assert((e.0@, e.1@) == f(iv[j as int]));
            out.push(e);
            assert(crate::project::pairs_view(out@) =~= ob.push((e.0@, e.1@)));
            assert(iv.take(j + 1).map_values(f) =~= iv.take(j as int).map_values(f).push(f(iv[j as int])));
            assert(crate::project::pairs_view(out@) =~= base + iv.take(j + 1).map_values(f));
            j += 1;
        }
        assert(iv.take(j as int) =~= iv);
        i += 1;
    }
    out
}

fn firsts(occ: &Vec<(String, String)>) -> (r: Vec<String>)
    ensures
        strs_v(r@) == crate::project::pairs_view(occ@).map_values(|p: (Seq<char>, Seq<char>)| p.0),
{
    let ghost ov = crate::project::pairs_view(occ@).map_values(|p: (Seq<char>, Seq<char>)| p.0);
    let mut out: Vec<String> = Vec::new();
    let mut i: usize = 0;
    while i < occ.len()
        invariant
            i <= occ@.len(),
            ov == crate::project::pairs_view(occ@).map_values(|p: (Seq<char>, Seq<char>)| p.0),
            strs_v(out@) == ov.take(i as int),
        decreases occ.len() - i,
    {
        let ghost ob = strs_v(out@);
        let e = String::from_str(occ[i].0.as_str());
        assert(ov[i as int] == crate::project::pairs_view(occ@)[i as int].0);
        assert(e@ == ov[i as int]);
        out.push(e);
        assert(strs_v(out@) =~= ob.push(e@));
        assert(ov.take(i + 1) =~= ov.take(i as int).push(ov[i as int]));
        assert(strs_v(out@) =~= ov.take(i + 1));
        i += 1;
    }
    assert(ov.take(i as int) =~= ov);
    out
}

/// Warn on IDs an archive holds: a number a live task holds again, or the
/// same task archived more than once. In character order of the IDs.
pub fn check_archived_id_collisions(tracks: &Vec<(String, Track)>, archives: &Vec<(String, String)>, out: &mut Vec<CheckWarning>)
    ensures
        warns_view(final(out)@) == warns_view(old(out)@) + archived_id_warns(crate::project::tracks_view(tracks@),
            crate::project::pairs_view(archives@)),
{
    let live = id_locations(tracks);
    let arch = arch_locations(archives);
    let all = firsts(&arch);
    let ids = sorted_set_exec(&all);
    let ghost lv = crate::project::pairs_view(live@);
    let ghost avv = crate::project::pairs_view(arch@);
    let ghost iv = strs_v(ids@);
    let ghost o0 = warns_view(out@);
    let mut i: usize = 0;
    while i < ids.len()
        invariant
            i <= ids@.len(),
            lv == crate::project::pairs_view(live@),
            avv == crate::project::pairs_view(arch@),
            iv == strs_v(ids@),
            warns_view(out@) == o0 + archive_warns(lv, avv, iv, i as int),
        decreases ids.len() - i,
    {
        let id = &ids[i];
        assert(iv[i as int] == id@);
        let t = holders_of(&live, live.len(), id.as_str());
        let a = holders_of(&arch, arch.len(), id.as_str());
        assert(lv.take(live@.len() as int) =~= lv);
        assert(avv.take(arch@.len() as int) =~= avv);
        let ghost ob = warns_view(out@);
        if t.len() > 0 {
            let archives_of = sorted_set_exec(&a);
            push_warn(out, CheckWarning::IdReissuedAfterArchive { task_id: String::from_str(id.as_str()), tracks: t, archives: archives_of });
        } else if a.len() > 1 {
            let total = a.len();
            let archives_of = sorted_set_exec(&a);
            push_warn(out, CheckWarning::DuplicateArchivedId { task_id: String::from_str(id.as_str()), total, archives: archives_of });
        }
        assert(warns_view(out@) =~= o0 + archive_warns(lv, avv, iv, i + 1));
        i += 1;
    }
}

} // verus!
