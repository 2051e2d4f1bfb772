//! Putting each task's fields in canonical order: every field but the notes
//! in the order it stands, then the notes. A `resolved:` written after a
//! note reads as part of it, or as missing; with the notes last it cannot.
//!
//! The pass reports each task it reorders, and each task it leaves alone
//! because moving its note last would make the note swallow the stray lines
//! that follow the task's fields.

use vstd::prelude::*;
use crate::model::{Metadata, MetaV, Task, TaskV, Track, TrackNode, NodeV, tasks_v, metas_v, meta_key,
    meta_v, node_tasks, with_tasks};
use crate::project::{Project, tracks_view};
use crate::clean::{nodes_mapped, nodes_found, tracks_mapped, tracks_found};

verus! {

// ---------------------------------------------------------------------------
// The canonical order
// ---------------------------------------------------------------------------

pub open spec fn is_note(m: MetaV) -> bool {
    m is Note
}

/// The fields of `ms` that are not notes, in order.
pub open spec fn others_v(ms: Seq<MetaV>) -> Seq<MetaV>
    decreases ms.len(),
{
    if ms.len() == 0 {
        Seq::empty()
    } else if is_note(ms.last()) {
        others_v(ms.drop_last())
    } else {
        others_v(ms.drop_last()).push(ms.last())
    }
}

/// The notes of `ms`, in order.
pub open spec fn notes_v(ms: Seq<MetaV>) -> Seq<MetaV>
    decreases ms.len(),
{
    if ms.len() == 0 {
        Seq::empty()
    } else if is_note(ms.last()) {
        notes_v(ms.drop_last()).push(ms.last())
    } else {
        notes_v(ms.drop_last())
    }
}

/// `ms` in canonical order.
pub open spec fn canonical_v(ms: Seq<MetaV>) -> Seq<MetaV> {
    others_v(ms) + notes_v(ms)
}

/// Whether no field follows a note.
pub open spec fn in_order(ms: Seq<MetaV>) -> bool {
    forall|i: int, j: int| 0 <= i < j < ms.len() && is_note(#[trigger] ms[i]) ==> is_note(#[trigger] ms[j])
}

/// The keys of `ms`, in order.
pub open spec fn keys_v(ms: Seq<MetaV>) -> Seq<Seq<char>> {
    ms.map_values(|m: MetaV| meta_key(m))
}

proof fn lemma_parts(ms: Seq<MetaV>)
    ensures
        forall|k: int| 0 <= k < others_v(ms).len() ==> !is_note(#[trigger] others_v(ms)[k]),
        forall|k: int| 0 <= k < notes_v(ms).len() ==> is_note(#[trigger] notes_v(ms)[k]),
        others_v(ms).len() + notes_v(ms).len() == ms.len(),
    decreases ms.len(),
{
    if ms.len() > 0 {
        lemma_parts(ms.drop_last());
        let o = others_v(ms.drop_last());
        let n = notes_v(ms.drop_last());
        assert forall|k: int| 0 <= k < others_v(ms).len() implies !is_note(#[trigger] others_v(ms)[k]) by {
            if k < o.len() {
                assert(others_v(ms)[k] == o[k]);
            }
        }
        assert forall|k: int| 0 <= k < notes_v(ms).len() implies is_note(#[trigger] notes_v(ms)[k]) by {
            if k < n.len() {
                assert(notes_v(ms)[k] == n[k]);
            }
        }
    }
}

proof fn lemma_split_concat(a: Seq<MetaV>, b: Seq<MetaV>)
    ensures
        others_v(a + b) == others_v(a) + others_v(b),
        notes_v(a + b) == notes_v(a) + notes_v(b),
    decreases b.len(),
{
    if b.len() == 0 {
        assert(a + b =~= a);
        assert(others_v(a) + others_v(b) =~= others_v(a));
        assert(notes_v(a) + notes_v(b) =~= notes_v(a));
    } else {
        lemma_split_concat(a, b.drop_last());
        assert((a + b).drop_last() =~= a + b.drop_last());
        assert((a + b).last() == b.last());
        assert(others_v(a) + others_v(b.drop_last()).push(b.last()) =~= (others_v(a) + others_v(b.drop_last())).push(b.last()));
        assert(notes_v(a) + notes_v(b.drop_last()).push(b.last()) =~= (notes_v(a) + notes_v(b.drop_last())).push(b.last()));
    }
}

proof fn lemma_pure(ms: Seq<MetaV>, notes: bool)
    requires
        forall|k: int| 0 <= k < ms.len() ==> is_note(#[trigger] ms[k]) == notes,
    ensures
        others_v(ms) == (if notes { Seq::empty() } else { ms }),
        notes_v(ms) == (if notes { ms } else { Seq::empty() }),
    decreases ms.len(),
{
    if ms.len() > 0 {
        lemma_pure(ms.drop_last(), notes);
        assert(ms.drop_last().push(ms.last()) =~= ms);
    }
}

/// A list in canonical order, and only such a list, is its own canonical
/// form; and the canonical form of any list is in canonical order.
pub proof fn lemma_canonical(ms: Seq<MetaV>)
    ensures
        in_order(canonical_v(ms)),
        canonical_v(canonical_v(ms)) == canonical_v(ms),
        in_order(ms) <==> canonical_v(ms) == ms,
        keys_v(canonical_v(ms)).len() == ms.len(),
    decreases ms.len(),
{
    lemma_parts(ms);
    let o = others_v(ms);
    let n = notes_v(ms);
    let c = canonical_v(ms);
    assert forall|i: int, j: int| 0 <= i < j < c.len() && is_note(#[trigger] c[i]) implies is_note(#[trigger] c[j]) by {
        if i < o.len() {
            assert(c[i] == o[i]);
        } else {
            assert(c[j] == n[j - o.len()]);
        }
    }
    lemma_split_concat(o, n);
    lemma_pure(o, false);
    lemma_pure(n, true);
    assert(others_v(c) =~= o);
    assert(notes_v(c) =~= n);
    if in_order(ms) {
        lemma_in_order(ms);
    }
}

proof fn lemma_in_order(ms: Seq<MetaV>)
    requires
        in_order(ms),
    ensures
        canonical_v(ms) == ms,
    decreases ms.len(),
{
    if ms.len() > 0 {
        let p = ms.drop_last();
        assert forall|i: int, j: int| 0 <= i < j < p.len() && is_note(#[trigger] p[i]) implies is_note(#[trigger] p[j]) by {
            assert(p[i] == ms[i] && p[j] == ms[j]);
        }
        lemma_in_order(p);
        if is_note(ms.last()) {
            assert(canonical_v(ms) =~= others_v(p) + notes_v(p).push(ms.last()));
            assert(others_v(p) + notes_v(p).push(ms.last()) =~= (others_v(p) + notes_v(p)).push(ms.last()));
            assert(p.push(ms.last()) =~= ms);
        } else {
            lemma_parts(p);
            if notes_v(p).len() > 0 {
                let k = others_v(p).len() as int;
                assert(canonical_v(p)[k] == notes_v(p)[0]);
                assert(is_note(p[k]));
                assert(is_note(ms[k]) && !is_note(ms[ms.len() - 1]));
                assert(false);
            }
            assert(notes_v(p) =~= Seq::<MetaV>::empty());
            assert(canonical_v(ms) =~= others_v(p).push(ms.last()));
            assert(others_v(p) =~= canonical_v(p));
            assert(p.push(ms.last()) =~= ms);
        }
    }
}

// ---------------------------------------------------------------------------
// Reports
// ---------------------------------------------------------------------------

/// One task whose fields are out of canonical order.
#[derive(Debug, Clone)]
pub struct Normalized {
    pub track_id: String,
    /// The task's ID, or its title when it has none.
    pub task: String,
    /// Field keys in the order the file holds them.
    pub was: Vec<&'static str>,
    /// Field keys in canonical order: what the task was rewritten to, or for
    /// a skipped task what it would have become.
    pub now: Vec<&'static str>,
}

/// What a normalize pass found.
#[derive(Debug)]
pub struct NormalizeResult {
    pub reordered: Vec<Normalized>,
    /// Tasks left alone because a note moved last would have swallowed their
    /// stray lines.
    pub skipped: Vec<Normalized>,
}

impl Default for NormalizeResult {
    fn default() -> (r: NormalizeResult)
        ensures
            r.reordered@.len() == 0,
            r.skipped@.len() == 0,
    {
        NormalizeResult { reordered: Vec::new(), skipped: Vec::new() }
    }
}

/// A report row: track, task, keys as they stand, keys in canonical order.
pub type RecV = (Seq<char>, Seq<char>, Seq<Seq<char>>, Seq<Seq<char>>);

pub open spec fn keys_of_strs(v: Seq<&'static str>) -> Seq<Seq<char>> {
    v.map_values(|s: &'static str| s@)
}

pub open spec fn rec_v(n: Normalized) -> RecV {
    (n.track_id@, n.task@, keys_of_strs(n.was@), keys_of_strs(n.now@))
}

pub open spec fn recs_v(v: Seq<Normalized>) -> Seq<RecV> {
    v.map_values(|n: Normalized| rec_v(n))
}

// ---------------------------------------------------------------------------
// The pass, as specified
// ---------------------------------------------------------------------------

/// A task's ID, or its title when it has none.
pub open spec fn name_of(t: TaskV) -> Seq<char> {
    match t.id {
        Some(i) => i,
        None => t.title,
    }
}

pub open spec fn record_v(tid: Seq<char>, t: TaskV) -> RecV {
    (tid, name_of(t), keys_v(t.metadata), keys_v(canonical_v(t.metadata)))
}

/// A note written as a block: empty on its key line, its body below.
pub open spec fn block_note(m: MetaV) -> bool {
    m matches MetaV::Note(s) && (s.len() == 0 || s.contains('\n'))
}

/// Whether the first of `lines` starts with at least `n` spaces.
pub open spec fn first_indented(lines: Seq<Seq<char>>, n: int) -> bool {
    lines.len() > 0 && lines[0].len() >= n && forall|k: int| 0 <= k < n ==> lines[0][k] == ' '
}

/// Whether the note of a task at `indent`, once last, would read the task's
/// stray lines as its own body.
pub open spec fn swallows(t: TaskV, indent: int) -> bool {
    let c = canonical_v(t.metadata);
    &&& c.len() > 0
    &&& block_note(c.last())
    &&& first_indented(t.extra_lines, indent + 4)
}

/// The indent of a task's subtasks.
pub open spec fn child_indent(indent: int) -> int {
    if indent < usize::MAX - 2 { indent + 2 } else { indent }
}

/// Whether the pass rewrites the task at `indent`.
pub open spec fn rewrites(t: TaskV, indent: int) -> bool {
    !in_order(t.metadata) && !swallows(t, indent)
}

/// The rows a pass reports for a task and its subtasks, in file order: the
/// reordered ones, or with `skipped` the ones left alone.
pub open spec fn found(tid: Seq<char>, t: TaskV, indent: int, skipped: bool) -> Seq<RecV>
    decreases t, 0int,
{
    let own: Seq<RecV> = if !in_order(t.metadata) && swallows(t, indent) == skipped {
        seq![record_v(tid, t)]
    } else {
        Seq::empty()
    };
    own + found_from(tid, t.subtasks, child_indent(indent), skipped, 0)
}

pub open spec fn found_from(tid: Seq<char>, ts: Seq<TaskV>, indent: int, skipped: bool, i: int) -> Seq<RecV>
    decreases ts, ts.len() - i,
{
    if i < 0 || i >= ts.len() {
        Seq::empty()
    } else {
        found(tid, ts[i], indent, skipped) + found_from(tid, ts, indent, skipped, i + 1)
    }
}

/// A task after the pass: its fields put in canonical order and the task
/// marked for rewriting when the pass rewrites it.
pub open spec fn normalized(t: TaskV, indent: int) -> TaskV
    decreases t, 0int,
{
    let subs = normalized_list(t.subtasks, child_indent(indent));
    if rewrites(t, indent) {
        TaskV { metadata: canonical_v(t.metadata), dirty: true, subtasks: subs, ..t }
    } else {
        TaskV { subtasks: subs, ..t }
    }
}

pub open spec fn normalized_list(ts: Seq<TaskV>, indent: int) -> Seq<TaskV>
    decreases ts, 1int,
{
    Seq::new(ts.len(), |i: int| if 0 <= i < ts.len() { normalized(ts[i], indent) } else { arbitrary() })
}

// ---------------------------------------------------------------------------
// Fields of one task
// ---------------------------------------------------------------------------

fn is_note_exec(m: &Metadata) -> (r: bool)
    ensures
        r == is_note(meta_v(*m)),
{
    match m {
        Metadata::Note(_) => true,
        _ => false,
    }
}

/// Whether no field of `ms` follows a note.
fn fields_in_order(ms: &Vec<Metadata>) -> (r: bool)
    ensures
        r == in_order(metas_v(ms@)),
{
    let ghost mv = metas_v(ms@);
    let mut seen: bool = false;
    let mut i: usize = 0;
    while i < ms.len()
        invariant
            i <= ms@.len(),
            mv == metas_v(ms@),
            seen == exists|k: int| 0 <= k < i && is_note(#[trigger] mv[k]),
            forall|a: int, b: int| 0 <= a < b < i && is_note(#[trigger] mv[a]) ==> is_note(#[trigger] mv[b]),
        decreases ms.len() - i,
    {
        let n = is_note_exec(&ms[i]);
        assert(mv[i as int] == meta_v(ms@[i as int]));
        if seen && !n {
            let ghost k = choose|k: int| 0 <= k < i && is_note(#[trigger] mv[k]);
            assert(is_note(mv[k]) && !is_note(mv[i as int]));
            return false;
        }
        if n {
            seen = true;
        }
        i += 1;
    }
    true
}

/// The keys of `ms`, in order.
fn keys_of(ms: &Vec<Metadata>) -> (r: Vec<&'static str>)
    ensures
        keys_of_strs(r@) == keys_v(metas_v(ms@)),
{
    let mut out: Vec<&'static str> = Vec::new();
    let mut i: usize = 0;
    while i < ms.len()
        invariant
            i <= ms@.len(),
            keys_of_strs(out@) == keys_v(metas_v(ms@.take(i as int))),
        decreases ms.len() - i,
    {
        let ghost before = out@;
        out.push(ms[i].key());
        assert(metas_v(ms@.take(i + 1)) =~= metas_v(ms@.take(i as int)).push(meta_v(ms@[i as int])));
        assert(keys_of_strs(out@) =~= keys_of_strs(before).push(meta_key(meta_v(ms@[i as int]))));
        i += 1;
    }
    assert(ms@.take(i as int) =~= ms@);
    out
}

/// The keys of `ms` in canonical order.
fn canonical_keys(ms: &Vec<Metadata>) -> (r: Vec<&'static str>)
    ensures
        keys_of_strs(r@) == keys_v(canonical_v(metas_v(ms@))),
{
    let ghost mv = metas_v(ms@);
    let mut out: Vec<&'static str> = Vec::new();
    let mut pass: usize = 0;
    while pass < 2
        invariant
            pass <= 2,
            mv == metas_v(ms@),
            keys_of_strs(out@) == (if pass == 0 { Seq::empty() } else if pass == 1 { keys_v(others_v(mv)) }
                else { keys_v(others_v(mv)) + keys_v(notes_v(mv)) }),
        decreases 2 - pass,
    {
        let want_notes = pass == 1;
        let ghost start = keys_of_strs(out@);
        let mut i: usize = 0;
        while i < ms.len()
            invariant
                i <= ms@.len(),
                mv == metas_v(ms@),
                keys_of_strs(out@) == start + keys_v(if want_notes { notes_v(mv.take(i as int)) } else { others_v(mv.take(i as int)) }),
            decreases ms.len() - i,
        {
            assert(mv.take(i + 1).drop_last() =~= mv.take(i as int));
            assert(mv.take(i + 1).last() == meta_v(ms@[i as int]));
            let ghost before = out@;
            if is_note_exec(&ms[i]) == want_notes {
                out.push(ms[i].key());
                assert(keys_of_strs(out@) =~= keys_of_strs(before).push(meta_key(meta_v(ms@[i as int]))));
            }
            proof {
                let part = if want_notes { notes_v(mv.take(i + 1)) } else { others_v(mv.take(i + 1)) };
                let prev = if want_notes { notes_v(mv.take(i as int)) } else { others_v(mv.take(i as int)) };
                if is_note(meta_v(ms@[i as int])) == want_notes {
                    assert(part == prev.push(meta_v(ms@[i as int])));
                    assert(keys_v(part) =~= keys_v(prev).push(meta_key(meta_v(ms@[i as int]))));
                } else {
                    assert(part == prev);
                }
                assert(keys_of_strs(out@) =~= start + keys_v(part));
            }
            i += 1;
        }
        assert(mv.take(i as int) =~= mv);
        proof {
            if pass == 1 {
                assert(keys_v(others_v(mv) + notes_v(mv)) =~= keys_v(others_v(mv)) + keys_v(notes_v(mv)));
            }
        }
        pass += 1;
    }
    assert(keys_v(canonical_v(mv)) =~= keys_v(others_v(mv)) + keys_v(notes_v(mv)));
    out
}

/// Put the fields of `ms` in canonical order.
fn sort_fields(ms: &mut Vec<Metadata>)
    ensures
        metas_v(final(ms)@) == canonical_v(metas_v(old(ms)@)),
{
    let ghost mv = metas_v(ms@);
    let mut others: Vec<Metadata> = Vec::new();
    let mut notes: Vec<Metadata> = Vec::new();
    let mut rest: Vec<Metadata> = Vec::new();
    std::mem::swap(&mut rest, ms);
    let _ = rest.len();
    let mut i: usize = 0;
    while rest.len() > 0
        invariant
            mv.len() <= usize::MAX,
            i + rest@.len() == mv.len(),
            metas_v(rest@) == mv.skip(i as int),
            metas_v(others@) == others_v(mv.take(i as int)),
            metas_v(notes@) == notes_v(mv.take(i as int)),
        decreases rest.len(),
    {
        let ghost rb = rest@;
        assert(metas_v(rb)[0] == mv.skip(i as int)[0]);
        let m = rest.remove(0);
        assert(rest@ =~= rb.subrange(1, rb.len() as int));
        assert(meta_v(m) == mv[i as int]);
        assert(mv.take(i + 1).drop_last() =~= mv.take(i as int));
        assert(mv.take(i + 1).last() == mv[i as int]);
        assert forall|k: int| 0 <= k < rest@.len() implies metas_v(rest@)[k] == mv.skip(i + 1)[k] by {
            assert(rest@[k] == rb[k + 1]);
            assert(metas_v(rb)[k + 1] == mv.skip(i as int)[k + 1]);
        }
        assert(metas_v(rest@) =~= mv.skip(i + 1));
        let ghost ob = metas_v(others@);
        let ghost nb = metas_v(notes@);
        if is_note_exec(&m) {
            notes.push(m);
            assert(metas_v(notes@) =~= nb.push(mv[i as int]));
        } else {
            others.push(m);
            assert(metas_v(others@) =~= ob.push(mv[i as int]));
        }
        i += 1;
    }
    assert(mv.take(i as int) =~= mv);
    let ghost ob = metas_v(others@);
    let ghost nb = metas_v(notes@);
    others.append(&mut notes);
    assert(metas_v(others@) =~= ob + nb);
    *ms = others;
}

/// Whether the first of `lines` starts with at least `indent + 4` spaces.
fn first_indented_exec(lines: &Vec<String>, indent: usize) -> (r: bool)
    ensures
        r == first_indented(crate::model::strs_v(lines@), indent + 4),
{
    if lines.len() == 0 {
        return false;
    }
    let cs = crate::text::chars_of(lines[0].as_str());
    let _ = cs.len();
    let ghost l = crate::model::strs_v(lines@)[0];
    assert(l == cs@);
    if indent > usize::MAX - 4 {
        return false;
    }
    let n = indent + 4;
    let w = crate::parse::indent_of(cs.as_slice());
    proof {
        if w < n && first_indented(crate::model::strs_v(lines@), n as int) {
            assert(l[w as int] == ' ');
        }
    }
    w >= n
}

proof fn lemma_last_note(ms: Seq<MetaV>, j: int)
    requires
        0 <= j < ms.len(),
        is_note(ms[j]),
        forall|k: int| j < k < ms.len() ==> !is_note(#[trigger] ms[k]),
    ensures
        notes_v(ms).len() > 0,
        notes_v(ms).last() == ms[j],
    decreases ms.len(),
{
    if j < ms.len() - 1 {
        let p = ms.drop_last();
        assert forall|k: int| j < k < p.len() implies !is_note(#[trigger] p[k]) by {
            assert(p[k] == ms[k]);
        }
        lemma_last_note(p, j);
    }
}

/// Whether moving the notes of `t` last would make its note swallow the
/// task's stray lines.
fn swallows_exec(t: &Task, indent: usize) -> (r: bool)
    ensures
        r == swallows(t@, indent as int),
{
    let ghost mv = t@.metadata;
    assert(mv == metas_v(t.metadata@));
    let mut j: usize = t.metadata.len();
    while j > 0 && !is_note_exec(&t.metadata[j - 1])
        invariant
            j <= t.metadata@.len(),
            mv == metas_v(t.metadata@),
            forall|k: int| j <= k < mv.len() ==> !is_note(#[trigger] mv[k]),
        decreases j,
    {
        assert(mv[j - 1] == meta_v(t.metadata@[j - 1]));
        j -= 1;
    }
    proof {
        lemma_parts(mv);
        let c = canonical_v(mv);
        if j > 0 {
            assert(mv[j - 1] == meta_v(t.metadata@[j - 1]));
            lemma_last_note(mv, j - 1);
            assert(c.last() == notes_v(mv).last());
        } else {
            lemma_pure(mv, false);
            if c.len() > 0 {
                assert(c =~= others_v(mv));
                assert(!is_note(c.last()));
            }
        }
    }
    if j == 0 {
        return false;
    }
    let block = match &t.metadata[j - 1] {
        Metadata::Note(s) => {
            let cs = crate::text::chars_of(s.as_str());
            cs.len() == 0 || crate::text::has_char(&cs, '\n')
        },
        _ => false,
    };
    block && first_indented_exec(&t.extra_lines, indent)
}

/// The report row of a task.
fn record(track_id: &str, t: &Task) -> (r: Normalized)
    ensures
        rec_v(r) == record_v(track_id@, t@),
{
    let task = match &t.id {
        Some(i) => i.clone(),
        None => t.title.clone(),
    };
    let was = keys_of(&t.metadata);
    let now = canonical_keys(&t.metadata);
    Normalized { track_id: String::from_str(track_id), task, was, now }
}

// ---------------------------------------------------------------------------
// Walking tasks
// ---------------------------------------------------------------------------

fn child_indent_exec(indent: usize) -> (r: usize)
    ensures
        r as int == child_indent(indent as int),
{
    if indent < usize::MAX - 2 { indent + 2 } else { indent }
}

fn push_rec(out: &mut Vec<Normalized>, r: Normalized)
    ensures
        recs_v(final(out)@) == recs_v(old(out)@).push(rec_v(r)),
{
    out.push(r);
    assert(recs_v(out@) =~= recs_v(old(out)@).push(rec_v(r)));
}

fn survey_task(t: &Task, tid: &str, indent: usize, reordered: &mut Vec<Normalized>, skipped: &mut Vec<Normalized>)
    ensures
        recs_v(final(reordered)@) == recs_v(old(reordered)@) + found(tid@, t@, indent as int, false),
        recs_v(final(skipped)@) == recs_v(old(skipped)@) + found(tid@, t@, indent as int, true),
    decreases t@, 1int,
{
    let ghost tv = t@;
    assert(tv.metadata == crate::model::metas_v(t.metadata@));
    if !fields_in_order(&t.metadata) {
        let rec = record(tid, t);
        if swallows_exec(t, indent) {
            push_rec(skipped, rec);
        } else {
            push_rec(reordered, rec);
        }
    }
    let ghost r1 = recs_v(reordered@);
    let ghost s1 = recs_v(skipped@);
    let ci = child_indent_exec(indent);
    assert(tasks_v(t.subtasks@) =~= tv.subtasks);
    survey_list(&t.subtasks, tid, ci, reordered, skipped);
    proof {
        let own_r: Seq<RecV> = if !in_order(tv.metadata) && swallows(tv, indent as int) == false { seq![record_v(tid@, tv)] } else { Seq::empty() };
        let own_s: Seq<RecV> = if !in_order(tv.metadata) && swallows(tv, indent as int) == true { seq![record_v(tid@, tv)] } else { Seq::empty() };
        assert(r1 =~= recs_v(old(reordered)@) + own_r);
        assert(s1 =~= recs_v(old(skipped)@) + own_s);
        assert(recs_v(reordered@) =~= recs_v(old(reordered)@) + found(tid@, tv, indent as int, false));
        assert(recs_v(skipped@) =~= recs_v(old(skipped)@) + found(tid@, tv, indent as int, true));
    }
}

fn survey_list(ts: &Vec<Task>, tid: &str, indent: usize, reordered: &mut Vec<Normalized>, skipped: &mut Vec<Normalized>)
    ensures
        recs_v(final(reordered)@) == recs_v(old(reordered)@) + found_from(tid@, tasks_v(ts@), indent as int, false, 0),
        recs_v(final(skipped)@) == recs_v(old(skipped)@) + found_from(tid@, tasks_v(ts@), indent as int, true, 0),
    decreases tasks_v(ts@),
{
    let ghost tsv = tasks_v(ts@);
    let ghost r0 = recs_v(reordered@);
    let ghost s0 = recs_v(skipped@);
    let mut i: usize = 0;
    while i < ts.len()
        invariant
            i <= ts@.len(),
            tsv == tasks_v(ts@),
            recs_v(reordered@) + found_from(tid@, tsv, indent as int, false, i as int) == r0 + found_from(tid@, tsv, indent as int, false, 0),
            recs_v(skipped@) + found_from(tid@, tsv, indent as int, true, i as int) == s0 + found_from(tid@, tsv, indent as int, true, 0),
        decreases ts.len() - i,
    {
        let ghost rb = recs_v(reordered@);
        let ghost sb = recs_v(skipped@);
        assert(ts@[i as int]@ == tsv[i as int]);
        proof {
            assert(decreases_to!(tsv => tsv[i as int]));
        }
        survey_task(&ts[i], tid, indent, reordered, skipped);
        assert(recs_v(reordered@) + found_from(tid@, tsv, indent as int, false, i + 1)
            =~= rb + found_from(tid@, tsv, indent as int, false, i as int));
        assert(recs_v(skipped@) + found_from(tid@, tsv, indent as int, true, i + 1)
            =~= sb + found_from(tid@, tsv, indent as int, true, i as int));
        i += 1;
    }
    assert(recs_v(reordered@) =~= recs_v(reordered@) + found_from(tid@, tsv, indent as int, false, i as int));
    assert(recs_v(skipped@) =~= recs_v(skipped@) + found_from(tid@, tsv, indent as int, true, i as int));
}

fn normalize_task(t: &mut Task, tid: &str, indent: usize, reordered: &mut Vec<Normalized>, skipped: &mut Vec<Normalized>)
    ensures
        final(t)@ == normalized(old(t)@, indent as int),
        recs_v(final(reordered)@) == recs_v(old(reordered)@) + found(tid@, old(t)@, indent as int, false),
        recs_v(final(skipped)@) == recs_v(old(skipped)@) + found(tid@, old(t)@, indent as int, true),
    decreases old(t)@, 1int,
{
    let ghost tv = t@;
    assert(tv.metadata == crate::model::metas_v(t.metadata@));
    if !fields_in_order(&t.metadata) {
        let rec = record(tid, t);
        if swallows_exec(t, indent) {
            push_rec(skipped, rec);
        } else {
            push_rec(reordered, rec);
            sort_fields(&mut t.metadata);
            t.dirty = true;
        }
    }
    let ghost r1 = recs_v(reordered@);
    let ghost s1 = recs_v(skipped@);
    let ci = child_indent_exec(indent);
    assert(tasks_v(t.subtasks@) =~= tv.subtasks);
    normalize_list(&mut t.subtasks, tid, ci, reordered, skipped);
    assert(t@.subtasks =~= tasks_v(t.subtasks@));
    proof {
        let own_r: Seq<RecV> = if !in_order(tv.metadata) && swallows(tv, indent as int) == false { seq![record_v(tid@, tv)] } else { Seq::empty() };
        let own_s: Seq<RecV> = if !in_order(tv.metadata) && swallows(tv, indent as int) == true { seq![record_v(tid@, tv)] } else { Seq::empty() };
        assert(r1 =~= recs_v(old(reordered)@) + own_r);
        assert(s1 =~= recs_v(old(skipped)@) + own_s);
        assert(recs_v(reordered@) =~= recs_v(old(reordered)@) + found(tid@, tv, indent as int, false));
        assert(recs_v(skipped@) =~= recs_v(old(skipped)@) + found(tid@, tv, indent as int, true));
    }
}

fn normalize_list(ts: &mut Vec<Task>, tid: &str, indent: usize, reordered: &mut Vec<Normalized>, skipped: &mut Vec<Normalized>)
    ensures
        tasks_v(final(ts)@) == normalized_list(tasks_v(old(ts)@), indent as int),
        recs_v(final(reordered)@) == recs_v(old(reordered)@) + found_from(tid@, tasks_v(old(ts)@), indent as int, false, 0),
        recs_v(final(skipped)@) == recs_v(old(skipped)@) + found_from(tid@, tasks_v(old(ts)@), indent as int, true, 0),
    decreases tasks_v(old(ts)@),
{
    let ghost tsv = tasks_v(ts@);
    let ghost r0 = recs_v(reordered@);
    let ghost s0 = recs_v(skipped@);
    let mut i: usize = 0;
    while i < ts.len()
        invariant
            i <= ts@.len(),
            ts@.len() == tsv.len(),
            tsv == tasks_v(old(ts)@),
            forall|k: int| i <= k < tsv.len() ==> tasks_v(ts@)[k] == tsv[k],
            forall|k: int| 0 <= k < i ==> tasks_v(ts@)[k] == normalized_list(tsv, indent as int)[k],
            recs_v(reordered@) + found_from(tid@, tsv, indent as int, false, i as int) == r0 + found_from(tid@, tsv, indent as int, false, 0),
            recs_v(skipped@) + found_from(tid@, tsv, indent as int, true, i as int) == s0 + found_from(tid@, tsv, indent as int, true, 0),
        decreases ts.len() - i,
    {
        let ghost before = ts@;
        let ghost rb = recs_v(reordered@);
        let ghost sb = recs_v(skipped@);
        let mut t = ts.remove(i);
        assert(t@ == tsv[i as int]);
        proof {
            assert(decreases_to!(tsv => tsv[i as int]));
        }
        normalize_task(&mut t, tid, indent, reordered, skipped);
        ts.insert(i, t);
        proof {
            assert(ts@ =~= before.update(i as int, t));
            assert forall|k: int| 0 <= k < i + 1 implies tasks_v(ts@)[k] == normalized_list(tsv, indent as int)[k] by {
                if k < i {
                    assert(tasks_v(ts@)[k] == tasks_v(before)[k]);
                }
            }
            assert forall|k: int| i + 1 <= k < tsv.len() implies tasks_v(ts@)[k] == tsv[k] by {
                assert(tasks_v(ts@)[k] == tasks_v(before)[k]);
            }
        }
        assert(recs_v(reordered@) + found_from(tid@, tsv, indent as int, false, i + 1)
            =~= rb + found_from(tid@, tsv, indent as int, false, i as int));
        assert(recs_v(skipped@) + found_from(tid@, tsv, indent as int, true, i + 1)
            =~= sb + found_from(tid@, tsv, indent as int, true, i as int));
        i += 1;
    }
    assert(tasks_v(ts@) =~= normalized_list(tsv, indent as int));
    assert(recs_v(reordered@) =~= recs_v(reordered@) + found_from(tid@, tsv, indent as int, false, i as int));
    assert(recs_v(skipped@) =~= recs_v(skipped@) + found_from(tid@, tsv, indent as int, true, i as int));
}

// ---------------------------------------------------------------------------
// Tracks and projects
// ---------------------------------------------------------------------------

/// The rows a pass reports for a track: reordered tasks, or with `skipped`
/// the tasks left alone.
pub open spec fn found_in_track(tid: Seq<char>, nodes: Seq<NodeV>, skipped: bool) -> Seq<RecV> {
    nodes_found(nodes, 0, |ts: Seq<TaskV>| found_from(tid, ts, 0, skipped, 0))
}

/// The rows a pass reports for a project, track by track.
pub open spec fn found_in_project(tracks: Seq<(Seq<char>, Seq<NodeV>)>, skipped: bool) -> Seq<RecV> {
    tracks_found(tracks, 0, |tid: Seq<char>, nodes: Seq<NodeV>| found_in_track(tid, nodes, skipped))
}

/// A project's tracks after a pass.
pub open spec fn normalized_tracks(tracks: Seq<(Seq<char>, Seq<NodeV>)>) -> Seq<(Seq<char>, Seq<NodeV>)> {
    tracks_mapped(tracks, |tid: Seq<char>, nodes: Seq<NodeV>| nodes_mapped(nodes, |ts: Seq<TaskV>| normalized_list(ts, 0)))
}

fn survey_track(track: &Track, tid: &str, reordered: &mut Vec<Normalized>, skipped: &mut Vec<Normalized>)
    ensures
        recs_v(final(reordered)@) == recs_v(old(reordered)@) + found_in_track(tid@, track@, false),
        recs_v(final(skipped)@) == recs_v(old(skipped)@) + found_in_track(tid@, track@, true),
{
    let ghost gr = |ts: Seq<TaskV>| found_from(tid@, ts, 0, false, 0);
    let ghost gs = |ts: Seq<TaskV>| found_from(tid@, ts, 0, true, 0);
    let ghost r0 = recs_v(reordered@);
    let ghost s0 = recs_v(skipped@);
    let mut i: usize = 0;
    while i < track.nodes.len()
        invariant
            i <= track.nodes@.len(),
            gr == (|ts: Seq<TaskV>| found_from(tid@, ts, 0, false, 0)),
            gs == (|ts: Seq<TaskV>| found_from(tid@, ts, 0, true, 0)),
            recs_v(reordered@) + nodes_found(track@, i as int, gr) == r0 + nodes_found(track@, 0, gr),
            recs_v(skipped@) + nodes_found(track@, i as int, gs) == s0 + nodes_found(track@, 0, gs),
        decreases track.nodes.len() - i,
    {
        let ghost rb = recs_v(reordered@);
        let ghost sb = recs_v(skipped@);
        match &track.nodes[i] {
            TrackNode::Section { tasks, .. } => survey_list(tasks, tid, 0, reordered, skipped),
            TrackNode::Literal(_) => {
                assert(found_from(tid@, node_tasks(track@[i as int]), 0, false, 0) =~= Seq::empty());
                assert(found_from(tid@, node_tasks(track@[i as int]), 0, true, 0) =~= Seq::empty());
            },
        }
        assert(recs_v(reordered@) + nodes_found(track@, i + 1, gr) =~= rb + nodes_found(track@, i as int, gr));
        assert(recs_v(skipped@) + nodes_found(track@, i + 1, gs) =~= sb + nodes_found(track@, i as int, gs));
        i += 1;
    }
    assert(recs_v(reordered@) =~= recs_v(reordered@) + nodes_found(track@, i as int, gr));
    assert(recs_v(skipped@) =~= recs_v(skipped@) + nodes_found(track@, i as int, gs));
}

fn normalize_track(track: &mut Track, tid: &str, reordered: &mut Vec<Normalized>, skipped: &mut Vec<Normalized>)
    ensures
        final(track)@ == nodes_mapped(old(track)@, |ts: Seq<TaskV>| normalized_list(ts, 0)),
        recs_v(final(reordered)@) == recs_v(old(reordered)@) + found_in_track(tid@, old(track)@, false),
        recs_v(final(skipped)@) == recs_v(old(skipped)@) + found_in_track(tid@, old(track)@, true),
{
    let ghost nv = track@;
    let ghost f = |ts: Seq<TaskV>| normalized_list(ts, 0);
    let ghost gr = |ts: Seq<TaskV>| found_from(tid@, ts, 0, false, 0);
    let ghost gs = |ts: Seq<TaskV>| found_from(tid@, ts, 0, true, 0);
    let ghost r0 = recs_v(reordered@);
    let ghost s0 = recs_v(skipped@);
    let mut i: usize = 0;
    while i < track.nodes.len()
        invariant
            i <= track.nodes@.len(),
            track@.len() == nv.len(),
            track.nodes@.len() == nv.len(),
            nv == old(track)@,
            f == (|ts: Seq<TaskV>| normalized_list(ts, 0)),
            gr == (|ts: Seq<TaskV>| found_from(tid@, ts, 0, false, 0)),
            gs == (|ts: Seq<TaskV>| found_from(tid@, ts, 0, true, 0)),
            forall|k: int| i <= k < nv.len() ==> track@[k] == nv[k],
            forall|k: int| 0 <= k < i ==> track@[k] == nodes_mapped(nv, f)[k],
            recs_v(reordered@) + nodes_found(nv, i as int, gr) == r0 + nodes_found(nv, 0, gr),
            recs_v(skipped@) + nodes_found(nv, i as int, gs) == s0 + nodes_found(nv, 0, gs),
        decreases track.nodes.len() - i,
    {
        let ghost before = track@;
        let ghost rb = recs_v(reordered@);
        let ghost sb = recs_v(skipped@);
        let is_section = match &track.nodes[i] {
            TrackNode::Section { .. } => true,
            TrackNode::Literal(_) => false,
        };
        if is_section {
            let mut tasks = track.swap_section_tasks(i, Vec::new());
            normalize_list(&mut tasks, tid, 0, reordered, skipped);
            assert(track@.len() == track.nodes@.len());
            let _ = track.swap_section_tasks(i, tasks);
            proof {
                let nd = nv[i as int];
                assert(with_tasks(with_tasks(nd, Seq::empty()), tasks_v(tasks@)) == with_tasks(nd, tasks_v(tasks@)));
                assert(track@ =~= before.update(i as int, with_tasks(nd, tasks_v(tasks@))));
            }
        } else {
            proof {
                assert(found_from(tid@, node_tasks(nv[i as int]), 0, false, 0) =~= Seq::empty());
                assert(found_from(tid@, node_tasks(nv[i as int]), 0, true, 0) =~= Seq::empty());
                assert(normalized_list(node_tasks(nv[i as int]), 0) =~= Seq::empty());
            }
        }
        proof {
            assert(recs_v(reordered@) + nodes_found(nv, i + 1, gr) =~= rb + nodes_found(nv, i as int, gr));
            assert(recs_v(skipped@) + nodes_found(nv, i + 1, gs) =~= sb + nodes_found(nv, i as int, gs));
            assert forall|k: int| i + 1 <= k < nv.len() implies track@[k] == nv[k] by {
                assert(track@[k] == before[k]);
            }
            assert forall|k: int| 0 <= k < i + 1 implies track@[k] == nodes_mapped(nv, f)[k] by {
                if k < i {
                    assert(track@[k] == before[k]);
                }
            }
        }
        i += 1;
    }
    assert(track@ =~= nodes_mapped(nv, f));
    assert(recs_v(reordered@) =~= recs_v(reordered@) + nodes_found(nv, i as int, gr));
    assert(recs_v(skipped@) =~= recs_v(skipped@) + nodes_found(nv, i as int, gs));
}

/// Rewrite every task whose fields are out of canonical order, and report
/// it; report, and leave alone, every task whose note would swallow stray
/// lines once last. A task already in order is not touched, so a second
/// pass finds nothing.
pub fn normalize_project(project: &mut Project) -> (r: NormalizeResult)
    ensures
        tracks_view(final(project).tracks@) == normalized_tracks(tracks_view(old(project).tracks@)),
        recs_v(r.reordered@) == found_in_project(tracks_view(old(project).tracks@), false),
        recs_v(r.skipped@) == found_in_project(tracks_view(old(project).tracks@), true),
        final(project).track_order == old(project).track_order,
        final(project).track_states == old(project).track_states,
        final(project).prefixes == old(project).prefixes,
        final(project).inbox == old(project).inbox,
        final(project).id_floors == old(project).id_floors,
        final(project).archives == old(project).archives,
        final(project).missing_paths == old(project).missing_paths,
        final(project).clean == old(project).clean,
{
    let mut result = NormalizeResult::default();
    let ghost tv = tracks_view(project.tracks@);
    let ghost f = |tid: Seq<char>, nodes: Seq<NodeV>| nodes_mapped(nodes, |ts: Seq<TaskV>| normalized_list(ts, 0));
    let ghost gr = |tid: Seq<char>, nodes: Seq<NodeV>| found_in_track(tid, nodes, false);
    let ghost gs = |tid: Seq<char>, nodes: Seq<NodeV>| found_in_track(tid, nodes, true);
    assert(recs_v(result.reordered@) =~= Seq::empty());
    assert(recs_v(result.skipped@) =~= Seq::empty());
    let mut i: usize = 0;
    while i < project.tracks.len()
        invariant
            i <= project.tracks@.len(),
            project.tracks@.len() == tv.len(),
            tv == tracks_view(old(project).tracks@),
            f == (|tid: Seq<char>, nodes: Seq<NodeV>| nodes_mapped(nodes, |ts: Seq<TaskV>| normalized_list(ts, 0))),
            gr == (|tid: Seq<char>, nodes: Seq<NodeV>| found_in_track(tid, nodes, false)),
            gs == (|tid: Seq<char>, nodes: Seq<NodeV>| found_in_track(tid, nodes, true)),
            forall|k: int| i <= k < tv.len() ==> tracks_view(project.tracks@)[k] == tv[k],
            forall|k: int| 0 <= k < i ==> tracks_view(project.tracks@)[k] == tracks_mapped(tv, f)[k],
            recs_v(result.reordered@) + tracks_found(tv, i as int, gr) == tracks_found(tv, 0, gr),
            recs_v(result.skipped@) + tracks_found(tv, i as int, gs) == tracks_found(tv, 0, gs),
            project.track_order == old(project).track_order,
            project.track_states == old(project).track_states,
            project.prefixes == old(project).prefixes,
            project.inbox == old(project).inbox,
            project.id_floors == old(project).id_floors,
            project.archives == old(project).archives,
            project.missing_paths == old(project).missing_paths,
            project.clean == old(project).clean,
        decreases project.tracks.len() - i,
    {
        let ghost before = project.tracks@;
        let ghost rb = recs_v(result.reordered@);
        let ghost sb = recs_v(result.skipped@);
        let (tid, mut tr) = project.tracks.remove(i);
        assert((tid@, tr@) == tv[i as int]);
        normalize_track(&mut tr, tid.as_str(), &mut result.reordered, &mut result.skipped);
        project.tracks.insert(i, (tid, tr));
        proof {
            assert(project.tracks@ =~= before.update(i as int, project.tracks@[i as int]));
            assert forall|k: int| i + 1 <= k < tv.len() implies tracks_view(project.tracks@)[k] == tv[k] by {
                assert(project.tracks@[k] == before[k]);
            }
            assert forall|k: int| 0 <= k < i + 1 implies tracks_view(project.tracks@)[k] == tracks_mapped(tv, f)[k] by {
                if k < i {
                    assert(project.tracks@[k] == before[k]);
                }
            }
            assert(recs_v(result.reordered@) + tracks_found(tv, i + 1, gr) =~= rb + tracks_found(tv, i as int, gr));
            assert(recs_v(result.skipped@) + tracks_found(tv, i + 1, gs) =~= sb + tracks_found(tv, i as int, gs));
        }
        i += 1;
    }
    assert(tracks_view(project.tracks@) =~= tracks_mapped(tv, f));
    assert(recs_v(result.reordered@) =~= recs_v(result.reordered@) + tracks_found(tv, i as int, gr));
    assert(recs_v(result.skipped@) =~= recs_v(result.skipped@) + tracks_found(tv, i as int, gs));
    result
}

/// The same survey as [`normalize_project`], without touching anything.
pub fn scan_field_order(project: &Project) -> (r: NormalizeResult)
    ensures
        recs_v(r.reordered@) == found_in_project(tracks_view(project.tracks@), false),
        recs_v(r.skipped@) == found_in_project(tracks_view(project.tracks@), true),
{
    let mut result = NormalizeResult::default();
    let ghost tv = tracks_view(project.tracks@);
    let ghost gr = |tid: Seq<char>, nodes: Seq<NodeV>| found_in_track(tid, nodes, false);
    let ghost gs = |tid: Seq<char>, nodes: Seq<NodeV>| found_in_track(tid, nodes, true);
    assert(recs_v(result.reordered@) =~= Seq::empty());
    assert(recs_v(result.skipped@) =~= Seq::empty());
    let mut i: usize = 0;
    while i < project.tracks.len()
        invariant
            i <= project.tracks@.len(),
            tv == tracks_view(project.tracks@),
            gr == (|tid: Seq<char>, nodes: Seq<NodeV>| found_in_track(tid, nodes, false)),
            gs == (|tid: Seq<char>, nodes: Seq<NodeV>| found_in_track(tid, nodes, true)),
            recs_v(result.reordered@) + tracks_found(tv, i as int, gr) == tracks_found(tv, 0, gr),
            recs_v(result.skipped@) + tracks_found(tv, i as int, gs) == tracks_found(tv, 0, gs),
        decreases project.tracks.len() - i,
    {
        let ghost rb = recs_v(result.reordered@);
        let ghost sb = recs_v(result.skipped@);
        assert(tv[i as int] == (project.tracks@[i as int].0@, project.tracks@[i as int].1@));
        survey_track(&project.tracks[i].1, project.tracks[i].0.as_str(), &mut result.reordered, &mut result.skipped);
        assert(recs_v(result.reordered@) + tracks_found(tv, i + 1, gr) =~= rb + tracks_found(tv, i as int, gr));
        assert(recs_v(result.skipped@) + tracks_found(tv, i + 1, gs) =~= sb + tracks_found(tv, i as int, gs));
        i += 1;
    }
    assert(recs_v(result.reordered@) =~= recs_v(result.reordered@) + tracks_found(tv, i as int, gr));
    assert(recs_v(result.skipped@) =~= recs_v(result.skipped@) + tracks_found(tv, i as int, gs));
    result
}

// ---------------------------------------------------------------------------
// A second pass
// ---------------------------------------------------------------------------

/// After a pass a task and its subtasks need no reordering, report the same
/// skipped tasks, and a further pass leaves them as they are.
pub proof fn lemma_pass_settles(tid: Seq<char>, t: TaskV, indent: int)
    ensures
        found(tid, normalized(t, indent), indent, false) == Seq::<RecV>::empty(),
        found(tid, normalized(t, indent), indent, true) == found(tid, t, indent, true),
        normalized(normalized(t, indent), indent) == normalized(t, indent),
    decreases t, 0int,
{
    let n = normalized(t, indent);
    let ci = child_indent(indent);
    lemma_canonical(t.metadata);
    assert(decreases_to!(t => t.subtasks));
    lemma_list_settles(tid, t.subtasks, ci, 0);
    assert(n.subtasks == normalized_list(t.subtasks, ci));
    if rewrites(t, indent) {
        assert(in_order(n.metadata));
    } else {
        assert(n.metadata == t.metadata && n.extra_lines == t.extra_lines);
        assert(swallows(n, indent) == swallows(t, indent));
        assert(record_v(tid, n) == record_v(tid, t));
    }
    assert(found(tid, n, indent, false) =~= Seq::<RecV>::empty());
    assert(found(tid, n, indent, true) =~= found(tid, t, indent, true));
    assert(normalized_list(n.subtasks, ci) =~= n.subtasks);
}

pub proof fn lemma_list_settles(tid: Seq<char>, ts: Seq<TaskV>, indent: int, i: int)
    ensures
        found_from(tid, normalized_list(ts, indent), indent, false, i) == Seq::<RecV>::empty(),
        found_from(tid, normalized_list(ts, indent), indent, true, i) == found_from(tid, ts, indent, true, i),
        normalized_list(normalized_list(ts, indent), indent) == normalized_list(ts, indent),
    decreases ts, ts.len() - i,
{
    let nl = normalized_list(ts, indent);
    if 0 <= i < ts.len() {
        assert(decreases_to!(ts => ts[i]));
        lemma_pass_settles(tid, ts[i], indent);
        lemma_list_settles(tid, ts, indent, i + 1);
        assert(nl[i] == normalized(ts[i], indent));
        assert(found_from(tid, nl, indent, false, i) =~= Seq::<RecV>::empty());
    }
    assert forall|k: int| 0 <= k < ts.len() implies normalized_list(nl, indent)[k] == nl[k] by {
        assert(decreases_to!(ts => ts[k]));
        lemma_pass_settles(tid, ts[k], indent);
    }
    assert(normalized_list(nl, indent) =~= nl);
}

proof fn lemma_nodes_settle(tid: Seq<char>, nodes: Seq<NodeV>, i: int)
    ensures
        ({
            let f = |ts: Seq<TaskV>| normalized_list(ts, 0);
            let m = nodes_mapped(nodes, f);
            &&& nodes_found(m, i, |ts: Seq<TaskV>| found_from(tid, ts, 0, false, 0)) == Seq::<RecV>::empty()
            &&& nodes_found(m, i, |ts: Seq<TaskV>| found_from(tid, ts, 0, true, 0))
                == nodes_found(nodes, i, |ts: Seq<TaskV>| found_from(tid, ts, 0, true, 0))
            &&& nodes_mapped(m, f) == m
        }),
    decreases nodes.len() - i,
{
    let f = |ts: Seq<TaskV>| normalized_list(ts, 0);
    let m = nodes_mapped(nodes, f);
    assert forall|k: int| 0 <= k < nodes.len() implies node_tasks(#[trigger] m[k]) == normalized_list(node_tasks(nodes[k]), 0) by {
        if nodes[k] is Literal {
            assert(normalized_list(node_tasks(nodes[k]), 0) =~= Seq::<TaskV>::empty());
        }
    }
    if 0 <= i < nodes.len() {
        lemma_nodes_settle(tid, nodes, i + 1);
        lemma_list_settles(tid, node_tasks(nodes[i]), 0, 0);
    }
    assert forall|k: int| 0 <= k < nodes.len() implies nodes_mapped(m, f)[k] == m[k] by {
        lemma_list_settles(tid, node_tasks(nodes[k]), 0, 0);
    }
    assert(nodes_mapped(m, f) =~= m);
}

/// A second pass over a project's tracks reorders nothing, reports the
/// same skipped tasks as the first, and changes nothing.
pub proof fn lemma_project_settles(tracks: Seq<(Seq<char>, Seq<NodeV>)>, i: int)
    ensures
        tracks_found(normalized_tracks(tracks), i, |tid: Seq<char>, nodes: Seq<NodeV>| found_in_track(tid, nodes, false)) == Seq::<RecV>::empty(),
        tracks_found(normalized_tracks(tracks), i, |tid: Seq<char>, nodes: Seq<NodeV>| found_in_track(tid, nodes, true))
            == tracks_found(tracks, i, |tid: Seq<char>, nodes: Seq<NodeV>| found_in_track(tid, nodes, true)),
        normalized_tracks(normalized_tracks(tracks)) == normalized_tracks(tracks),
    decreases tracks.len() - i,
{
    let n = normalized_tracks(tracks);
    if 0 <= i < tracks.len() {
        lemma_project_settles(tracks, i + 1);
        lemma_nodes_settle(tracks[i].0, tracks[i].1, 0);
    }
    assert forall|k: int| 0 <= k < tracks.len() implies normalized_tracks(n)[k] == n[k] by {
        lemma_nodes_settle(tracks[k].0, tracks[k].1, 0);
    }
    assert(normalized_tracks(n) =~= n);
}

} // verus!
