//! Properties of the library that hold of every input, stated over the
//! spec functions the operations' contracts use, and proved.

use vstd::prelude::*;
use crate::model::{TaskState, TaskV, MetaV};
use crate::task_ops::{cycle_next, blocked_toggle, parked_toggle, set_state_v, add_tag_v};
use crate::refs::{normalize_v, strip_anchor_v};
use crate::text::{find_char_from, lemma_find_char_from};
use crate::clean::{dated, dated_list, has_added_v};
use crate::check::{ErrV, dup_groups, holders, meta_errs, path_errs, errs_t, errs_from, errs_nodes, errs_tracks, id_or_empty, first_conflict};
use crate::model::node_tasks;
use crate::fix::{plan_v, repair_for};
use crate::field_order::{found_in_project, normalized_tracks, lemma_project_settles, RecV};
use crate::model::NodeV;
use crate::text::trim_v;
use crate::task_ops::{find_in_track, edit_in_track, lemma_edit_track_twice};
use crate::git_setup::{planned_gitattributes_v, attribute_lines_v, mentioned, pattern_of};
use crate::parse::lines_v;
use crate::task_tree::{removal_nodes, insert_post};
use crate::task_ops::{set_section, TaskError};
use crate::model::section_tasks_v;
use crate::reconcile::{EntryV, Verdict, decide, ambiguous, lookup, track_step, list_step, list_entries, merged, task_of};
use crate::clean::{suggested, suggested_from};
use crate::task_ops::{edited, set_spec_v, remove_key, key_spec};
use crate::model::meta_key;
use crate::parse::{task_line_v, task_line_at_v, head_v, state_char, tags_text, spaces_v};
use crate::reconcile::{lists_from, list_keys_unique, ConflictV, entries_unique, one_section_per_kind, track_entries, track_merge, rebuilt};

verus! {

/// Cycling a task's state three times from todo, active or done comes back
/// to where it started: todo → active → done → todo.
pub proof fn law_cycle_returns(s: TaskState)
    requires
        s == TaskState::Todo || s == TaskState::Active || s == TaskState::Done,
    ensures
        cycle_next(cycle_next(cycle_next(s))) == s,
{
}

/// Blocked and parked are toggles: from todo, toggling twice is a no-op, and
/// likewise from the toggled state.
pub proof fn law_toggles_undo(s: TaskState)
    ensures
        (s == TaskState::Todo || s == TaskState::Blocked) ==> blocked_toggle(blocked_toggle(s)) == s,
        (s == TaskState::Todo || s == TaskState::Parked) ==> parked_toggle(parked_toggle(s)) == s,
{
}

/// Setting a state a second time changes nothing, whatever the date.
pub proof fn law_set_state_idempotent(t: TaskV, s: TaskState, d1: Seq<char>, d2: Seq<char>)
    ensures
        set_state_v(set_state_v(t, s, d1), s, d2) == set_state_v(t, s, d1),
{
}

/// Adding a tag twice is adding it once.
pub proof fn law_add_tag_idempotent(t: TaskV, tag: Seq<char>)
    ensures
        add_tag_v(add_tag_v(t, tag), tag) == add_tag_v(t, tag),
{
    if !t.tags.contains(tag) {
        assert(t.tags.push(tag)[t.tags.len() as int] == tag);
    }
}

/// Naming the same file is an equivalence: reflexive, symmetric and
/// transitive over every spelling of a path.
pub proof fn law_same_path_equivalence(a: Seq<char>, b: Seq<char>, c: Seq<char>)
    ensures
        normalize_v(a) == normalize_v(a),
        normalize_v(a) == normalize_v(b) ==> normalize_v(b) == normalize_v(a),
        normalize_v(a) == normalize_v(b) && normalize_v(b) == normalize_v(c) ==> normalize_v(a) == normalize_v(c),
{
}

/// Stripping an anchor twice is stripping it once.
pub proof fn law_strip_anchor_idempotent(s: Seq<char>)
    ensures
        strip_anchor_v(strip_anchor_v(s)) == strip_anchor_v(s),
{
    lemma_find_char_from(s, '#', 0);
    let t = strip_anchor_v(s);
    lemma_find_char_from(t, '#', 0);
    match find_char_from(s, '#', 0) {
        Some(j) => {
            assert forall|k: int| 0 <= k < t.len() implies t[k] != '#' by {
                assert(t[k] == s[k]);
            }
        },
        None => {},
    }
}

proof fn lemma_added_first(today: Seq<char>, ms: Seq<MetaV>)
    ensures
        has_added_v(seq![MetaV::Added(today)] + ms),
{
    assert((seq![MetaV::Added(today)] + ms)[0] is Added);
}

/// Dating missing `added:` lines twice with the same date is dating them
/// once: every task of the result already has one.
pub proof fn law_dated_idempotent(t: TaskV, today: Seq<char>)
    ensures
        dated(dated(t, today), today) == dated(t, today),
    decreases t, 0int,
{
    law_dated_list_idempotent(t.subtasks, today);
    if !has_added_v(t.metadata) {
        lemma_added_first(today, t.metadata);
    }
}

/// The same, for a list of tasks.
pub proof fn law_dated_list_idempotent(ts: Seq<TaskV>, today: Seq<char>)
    ensures
        dated_list(dated_list(ts, today), today) == dated_list(ts, today),
    decreases ts, 1int,
{
    let once = dated_list(ts, today);
    assert forall|i: int| 0 <= i < ts.len() implies #[trigger] dated_list(once, today)[i] == once[i] by {
        assert(decreases_to!(ts => ts[i]));
        law_dated_idempotent(ts[i], today);
    }
    assert(dated_list(once, today) =~= once);
}

/// Every ID a check reports as duplicated is held at least twice, and the
/// report names each holder.
pub proof fn law_duplicates_held_twice(occ: Seq<(Seq<char>, Seq<char>)>, n: int, k: int)
    requires
        0 <= k < dup_groups(occ, n).len(),
    ensures
        dup_groups(occ, n)[k] matches ErrV::Duplicate(x, hs) && hs == holders(occ, x) && hs.len() >= 2,
    decreases n,
{
    if n > 0 {
        let prev = dup_groups(occ, n - 1);
        if k < prev.len() {
            assert(dup_groups(occ, n)[k] == prev[k]);
            law_duplicates_held_twice(occ, n - 1, k);
        }
    }
}

/// A repair plan answers each warning with at most one repair.
pub proof fn law_plan_at_most_one_per_warning(ws: Seq<crate::check::WarnV>)
    ensures
        plan_v(ws).len() <= ws.len(),
    decreases ws.len(),
{
    if ws.len() > 0 {
        law_plan_at_most_one_per_warning(ws.drop_last());
        assert(repair_for(ws.last()).len() <= 1);
    }
}

/// Normalizing field order is idempotent: a second pass over what a pass
/// left reorders nothing, reports the same tasks as left alone, and changes
/// nothing.
pub proof fn law_field_order_idempotent(tracks: Seq<(Seq<char>, Seq<NodeV>)>)
    ensures
        found_in_project(normalized_tracks(tracks), false) == Seq::<RecV>::empty(),
        found_in_project(normalized_tracks(tracks), true) == found_in_project(tracks, true),
        normalized_tracks(normalized_tracks(tracks)) == normalized_tracks(tracks),
{
    lemma_project_settles(tracks, 0);
}

/// Normalizing a path twice is normalizing it once, for every value whose
/// normal spelling has no whitespace at either end (whitespace inside a
/// segment is part of the name, and only the whole value is trimmed).
pub proof fn law_path_normalize_idempotent(value: Seq<char>)
    requires
        trim_v(normalize_v(value)) == normalize_v(value),
    ensures
        normalize_v(normalize_v(value)) == normalize_v(value),
{
    crate::refs::lemma_normalize_settles(value);
}

/// Adding a tag a task already carries, through the track, succeeds again
/// and changes nothing: the task is still found, and the track after the
/// second call is the track after the first.
pub proof fn law_add_tag_on_track_idempotent(track: Seq<NodeV>, id: Seq<char>, tag: Seq<char>)
    ensures
        find_in_track(track, id) is Some
            ==> find_in_track(edit_in_track(track, id, |t: TaskV| add_tag_v(t, tag)), id) is Some,
        edit_in_track(edit_in_track(track, id, |t: TaskV| add_tag_v(t, tag)), id, |t: TaskV| add_tag_v(t, tag))
            == edit_in_track(track, id, |t: TaskV| add_tag_v(t, tag)),
{
    let f = |t: TaskV| add_tag_v(t, tag);
    assert forall|x: TaskV| (#[trigger] f(x)).id == x.id && f(f(x)) == f(x) by {
        law_add_tag_idempotent(x, tag);
    }
    lemma_edit_track_twice(track, 0, id, f);
}

/// A `.gitattributes` plan settles the file: there is nothing to plan
/// exactly when every routing pattern already begins some line; a plan only
/// appends to what the file held; and planning again over what a plan wrote
/// gives `None`. (For a frame directory whose path holds no line break.)
pub proof fn law_gitattributes_plan_settles(existing: Seq<char>, frame_rel: Seq<char>)
    requires
        !frame_rel.contains('\n'),
    ensures
        (planned_gitattributes_v(existing, frame_rel, None) is None) == (forall|k: int|
            0 <= k < attribute_lines_v(frame_rel).len()
                ==> mentioned(lines_v(existing), pattern_of(#[trigger] attribute_lines_v(frame_rel)[k]))),
        match planned_gitattributes_v(existing, frame_rel, None) {
            Some(p) => crate::text::starts_with(p.0, existing) && planned_gitattributes_v(p.0, frame_rel, None) is None,
            None => true,
        },
{
    crate::git_setup::lemma_attributes_settle(existing, frame_rel);
}

/// Merging a task list with itself on both sides changes nothing: when no
/// two sibling tasks share a key, at any depth, the merge gives the list
/// back as it was and reports no conflict.
pub proof fn law_identical_lists_merge_to_themselves(tasks: Seq<TaskV>, guard: bool)
    requires
        list_keys_unique(tasks),
    ensures
        lists_from(tasks, tasks, tasks, guard, 0) == (tasks, Seq::<ConflictV>::empty()),
{
    crate::reconcile::lemma_identical_lists(tasks, guard);
}

/// Merging a track with itself on both sides changes nothing: the merged
/// track is the track, no conflict is reported, nothing is taken from
/// theirs and nothing is deleted. (For a track whose top-level tasks have
/// distinct keys, with no two sibling tasks sharing a key under them, and in
/// which no section kind occurs twice.)
pub proof fn law_identical_tracks_merge_to_themselves(track: Seq<NodeV>)
    requires
        entries_unique(track_entries(track)),
        one_section_per_kind(track),
    ensures
        ({
            let es = track_entries(track);
            let m = track_merge(es, es, es);
            &&& rebuilt(track, track, m.0) == track
            &&& m.1 == Seq::<ConflictV>::empty()
            &&& m.2 == 0
            &&& m.3 == 0
        }),
{
    crate::reconcile::lemma_identical_tracks(track);
}

/// Taking a top-level task out of a track and putting it back where it was
/// restores the track: the insertion succeeds, and the only difference left
/// is that the task put back is marked as changed. (For a track in which no
/// section kind occurs twice, and a task found at the top level of its
/// section; `after` and `r` are what inserting the removed task at the
/// removed location gives.)
pub proof fn law_remove_then_insert_restores_top_level(
    track: Seq<NodeV>,
    id: Seq<char>,
    after: Seq<NodeV>,
    r: Result<(), TaskError>,
)
    requires
        one_section_per_kind(track),
        removal_nodes(track, 0, id) matches Some(y) && y.3 is None
            && insert_post(y.0, after, y.1, None, y.2, y.4, r),
    ensures
        removal_nodes(track, 0, id) matches Some(y) && r is Ok
            && after == set_section(track, y.2, section_tasks_v(track, y.2).update(y.4, TaskV { dirty: true, ..y.1 })),
{
    crate::task_tree::lemma_remove_insert_top(track, id, after, r);
}

// ---------------------------------------------------------------------------
// Merging: two sides that agree
// ---------------------------------------------------------------------------

/// Whether two entries hold the same task in the same section: state,
/// title, tags, metadata and ID alike.
pub open spec fn agree(o: EntryV, t: EntryV) -> bool {
    &&& o.0 == t.0
    &&& o.1.state == t.1.state
    &&& o.1.title == t.1.title
    &&& o.1.tags == t.1.tags
    &&& o.1.metadata == t.1.metadata
    &&& o.1.id == t.1.id
}

/// When ours and theirs made the same edit, whatever the base, the merge
/// takes it: the verdict is ours (which is theirs), never a conflict.
pub proof fn law_agreeing_sides_never_conflict(b: Option<EntryV>, o: EntryV, t: EntryV)
    requires
        agree(o, t),
    ensures
        decide(b, Some(o), Some(t)) == Verdict::Ours,
{
}

/// In a track merge, a key whose tasks ours and theirs hold alike (and that
/// no repeated title makes ambiguous) is placed once, with that content, in
/// that section; it takes nothing from theirs, deletes nothing, and its
/// only conflicts are those of merging its subtasks.
pub proof fn law_track_merge_takes_an_agreed_edit(b: Seq<EntryV>, o: Seq<EntryV>, t: Seq<EntryV>, k: Seq<char>)
    requires
        !ambiguous(k, b, o, t),
        lookup(o, k) matches Some(x) && lookup(t, k) matches Some(y) && agree(x, y),
    ensures
        ({
            let x = lookup(o, k)->0;
            let y = lookup(t, k)->0;
            let s = track_step(b, o, t, k);
            &&& s.0.len() == 1
            &&& s.0[0].0 == x.0
            &&& agree(s.0[0], x)
            &&& s.1 == merged(x.1, task_of(lookup(b, k)), Some(y.1)).1
            &&& s.2 == 0
            &&& s.3 == 0
        }),
{
    let x = lookup(o, k)->0;
    let y = lookup(t, k)->0;
    assert(decide(lookup(b, k), Some(x), Some(y)) == Verdict::Ours);
}

/// The same in a merge of sibling lists (subtasks, archived tasks): the key
/// contributes its task once, with ours' content, and only the conflicts of
/// merging its subtasks.
pub proof fn law_list_merge_takes_an_agreed_edit(bs: Seq<TaskV>, ws: Seq<TaskV>, xs: Seq<TaskV>, guard: bool, k: Seq<char>)
    requires
        !(guard && ambiguous(k, list_entries(bs), list_entries(ws), list_entries(xs))),
        lookup(list_entries(ws), k) matches Some(x) && lookup(list_entries(xs), k) matches Some(y) && agree(x, y),
    ensures
        ({
            let x = lookup(list_entries(ws), k)->0;
            let y = lookup(list_entries(xs), k)->0;
            let s = list_step(bs, ws, xs, guard, k);
            &&& s.0.len() == 1
            &&& agree((x.0, s.0[0]), x)
            &&& s.1 == merged(x.1, task_of(lookup(list_entries(bs), k)), Some(y.1)).1
        }),
{
    let x = lookup(list_entries(ws), k)->0;
    let y = lookup(list_entries(xs), k)->0;
    assert(decide(lookup(list_entries(bs), k), Some(x), Some(y)) == Verdict::Ours);
}

// ---------------------------------------------------------------------------
// Cleaning: the all-subtasks-done suggestion
// ---------------------------------------------------------------------------

/// A task is suggested for closing exactly when it is not done, has at
/// least one subtask, and every one of its subtasks is done: then its ID
/// heads its suggestions; otherwise they are only those of its subtrees.
pub proof fn law_suggested_only_when_every_subtask_is_done(t: TaskV)
    ensures
        (exists|k: int| 0 <= k < t.subtasks.len() && (#[trigger] t.subtasks[k]).state != TaskState::Done)
            ==> suggested(t) == suggested_from(t.subtasks, 0),
        t.state == TaskState::Done ==> suggested(t) == suggested_from(t.subtasks, 0),
        t.subtasks.len() == 0 ==> suggested(t) == Seq::<Seq<char>>::empty(),
        (t.state != TaskState::Done && t.subtasks.len() > 0
            && forall|k: int| 0 <= k < t.subtasks.len() ==> (#[trigger] t.subtasks[k]).state == TaskState::Done)
            ==> suggested(t) == seq![crate::clean::id_or_empty(t)] + suggested_from(t.subtasks, 0),
{
    if (exists|k: int| 0 <= k < t.subtasks.len() && (#[trigger] t.subtasks[k]).state != TaskState::Done) {
        assert(!crate::clean::all_subtasks_done(t));
        assert(suggested(t) =~= suggested_from(t.subtasks, 0));
    }
    if t.state == TaskState::Done {
        assert(suggested(t) =~= suggested_from(t.subtasks, 0));
    }
    if t.subtasks.len() == 0 {
        assert(suggested(t) =~= Seq::<Seq<char>>::empty());
    }
}

// ---------------------------------------------------------------------------
// Editing: setting the spec
// ---------------------------------------------------------------------------

/// The metadata lines other than `spec:` lines, in order.
pub open spec fn non_spec_lines(ms: Seq<MetaV>) -> Seq<MetaV>
    decreases ms.len(),
{
    if ms.len() == 0 {
        Seq::empty()
    } else if ms.last() is Spec {
        non_spec_lines(ms.drop_last())
    } else {
        non_spec_lines(ms.drop_last()).push(ms.last())
    }
}

proof fn lemma_without_spec(ms: Seq<MetaV>)
    ensures
        forall|i: int| 0 <= i < remove_key(ms, key_spec()).len() ==> !(#[trigger] remove_key(ms, key_spec())[i] is Spec),
        non_spec_lines(remove_key(ms, key_spec())) == non_spec_lines(ms),
    decreases ms.len(),
{
    if ms.len() > 0 {
        lemma_without_spec(ms.drop_last());
        let p = remove_key(ms.drop_last(), key_spec());
        let m = ms.last();
        assert((meta_key(m) == key_spec()) == (m is Spec)) by {
            match m {
                MetaV::Dep(_) => { assert(meta_key(m)[0] != key_spec()[0]); },
                MetaV::Ref(_) => { assert(meta_key(m).len() != key_spec().len()); },
                MetaV::Spec(_) => {},
                MetaV::Note(_) => { assert(meta_key(m)[0] != key_spec()[0]); },
                MetaV::Added(_) => { assert(meta_key(m).len() != key_spec().len()); },
                MetaV::Resolved(_) => { assert(meta_key(m).len() != key_spec().len()); },
                MetaV::Conflict(_) => { assert(meta_key(m).len() != key_spec().len()); },
            }
        }
        if !(m is Spec) {
            let r = remove_key(ms, key_spec());
            assert(r == p.push(m));
            assert(r.drop_last() =~= p);
        }
    }
}

/// Setting a task's spec replaces it: when the task is found, the edited
/// task holds exactly one `spec:` line, with the new value, and every other
/// metadata line is kept, in order.
pub proof fn law_set_spec_leaves_one_spec(
    old: Seq<NodeV>,
    new: Seq<NodeV>,
    id: Seq<char>,
    sp: Seq<char>,
    r: Result<(), TaskError>,
)
    requires
        edited(old, new, id, |t: TaskV| set_spec_v(t, sp), r),
        r is Ok,
    ensures
        find_in_track(old, id) matches Some(t1) && find_in_track(new, id) matches Some(t2) && ({
            let m = t2.metadata;
            &&& m.len() > 0 && m[m.len() - 1] == MetaV::Spec(sp)
            &&& forall|i: int| 0 <= i < m.len() - 1 ==> !(#[trigger] m[i] is Spec)
            &&& non_spec_lines(m) == non_spec_lines(t1.metadata)
        }),
{
    let f = |t: TaskV| set_spec_v(t, sp);
    crate::task_ops::lemma_find_after_track_edit(old, 0, id, f);
    let t1 = find_in_track(old, id)->0;
    lemma_without_spec(t1.metadata);
    let p = remove_key(t1.metadata, key_spec());
    let m = p.push(MetaV::Spec(sp));
    assert(f(t1).metadata == m);
    assert(m.drop_last() =~= p);
    assert forall|i: int| 0 <= i < m.len() - 1 implies !(#[trigger] m[i] is Spec) by {
        assert(m[i] == p[i]);
    }
}

// ---------------------------------------------------------------------------
// Writing: the checkbox keeps the state
// ---------------------------------------------------------------------------

proof fn lemma_tags_text_lead(tags: Seq<Seq<char>>)
    ensures
        tags_text(tags).len() > 0 ==> tags_text(tags)[0] == ' ',
        tags.len() > 0 ==> tags_text(tags).len() > 0,
    decreases tags.len(),
{
    reveal_strlit(" #");
    if tags.len() > 0 {
        lemma_tags_text_lead(tags.drop_last());
        let p = tags_text(tags.drop_last());
        assert(tags_text(tags) == p + " #"@ + tags.last());
        if p.len() == 0 {
            assert(tags_text(tags)[0] == " #"@[0]);
        } else {
            assert(tags_text(tags)[0] == p[0]);
        }
    }
}

/// The checkbox line written for a task reads back as a checkbox line at
/// the same indent, in the task's state: each of the five states is written
/// with a character of its own, so no state is saved as another.
pub proof fn law_task_line_keeps_state(t: TaskV, indent: nat, depth: usize)
    ensures
        task_line_at_v(task_line_v(t, indent), indent as int),
        head_v(task_line_v(t, indent), indent as int, depth).state == t.state,
{
    reveal_strlit("- [");
    reveal_strlit("]");
    reveal_strlit(" `");
    reveal_strlit("`");
    let l = task_line_v(t, indent);
    let c = state_char(t.state);
    let head = spaces_v(indent) + "- ["@ + seq![c] + "]"@;
    let idp = match t.id {
        Some(id) => " `"@ + id + "`"@,
        None => Seq::<char>::empty(),
    };
    let ti = if t.title.len() > 0 { seq![' '] + t.title } else { Seq::<char>::empty() };
    let rest = idp + ti + tags_text(t.tags);
    assert(l == head + rest);
    assert(head.len() == indent + 5);
    assert forall|k: int| 0 <= k < indent implies l[k] == ' ' by {
        assert(l[k] == head[k]);
        assert(head[k] == spaces_v(indent)[k]);
    }
    assert(l[indent as int] == '-');
    assert(l[indent + 1int] == ' ');
    assert(l[indent + 2int] == '[');
    assert(l[indent + 3int] == c);
    assert(l[indent + 4int] == ']');
    lemma_tags_text_lead(t.tags);
    if l.len() > indent + 5 {
        assert(rest.len() > 0);
        assert(l[indent + 5int] == rest[0]);
        if idp.len() > 0 {
            assert(rest[0] == idp[0]);
        } else if ti.len() > 0 {
            assert(rest[0] == ti[0]);
        } else {
            assert(rest[0] == tags_text(t.tags)[0]);
        }
    }
}

// ---------------------------------------------------------------------------
// Checking: every dangling dep is reported
// ---------------------------------------------------------------------------

/// Whether `t` is `u` or a task of its subtree.
pub open spec fn within(t: TaskV, u: TaskV) -> bool
    decreases u, 0int,
{
    t == u || within_from(t, u.subtasks, 0)
}

/// Whether `t` is one of `us[i..]` or a task of their subtrees.
pub open spec fn within_from(t: TaskV, us: Seq<TaskV>, i: int) -> bool
    decreases us, us.len() - i,
{
    if i < 0 || i >= us.len() {
        false
    } else {
        within(t, us[i]) || within_from(t, us, i + 1)
    }
}

proof fn lemma_kept_missing(l: Seq<Seq<char>>, all: Seq<Seq<char>>, d: Seq<char>)
    requires
        l.contains(d),
        !all.contains(d),
    ensures
        crate::clean::kept(l, all, false).contains(d),
    decreases l.len(),
{
    let k = crate::clean::kept(l, all, false);
    if l.last() == d {
        assert(k[k.len() - 1] == d);
    } else {
        let j = choose|j: int| 0 <= j < l.len() && l[j] == d;
        assert(l.drop_last()[j] == d);
        lemma_kept_missing(l.drop_last(), all, d);
        let p = crate::clean::kept(l.drop_last(), all, false);
        let q = choose|q: int| 0 <= q < p.len() && p[q] == d;
        assert(k[q] == p[q]);
    }
}

proof fn lemma_meta_dangling(ms: Seq<MetaV>, tid: Seq<char>, id: Seq<char>, all: Seq<Seq<char>>,
    missing: Seq<Seq<char>>, k: int, d: Seq<char>)
    requires
        0 <= k < ms.len(),
        ms[k] matches MetaV::Dep(l) && l.contains(d),
        !all.contains(d),
    ensures
        meta_errs(ms, tid, id, all, missing).contains(ErrV::Dangling(tid, id, d)),
    decreases ms.len(),
{
    let e = meta_errs(ms, tid, id, all, missing);
    let p = meta_errs(ms.drop_last(), tid, id, all, missing);
    if k == ms.len() - 1 {
        let l = ms[k]->Dep_0;
        lemma_kept_missing(l, all, d);
        let xs = crate::clean::kept(l, all, false);
        let q = choose|q: int| 0 <= q < xs.len() && xs[q] == d;
        let pe = path_errs(xs, tid, id, true);
        assert(pe[q] == ErrV::Dangling(tid, id, d));
        assert(e == p + pe);
        assert(e[p.len() + q] == pe[q]);
    } else {
        assert(ms.drop_last()[k] == ms[k]);
        lemma_meta_dangling(ms.drop_last(), tid, id, all, missing, k, d);
        let q = choose|q: int| 0 <= q < p.len() && p[q] == ErrV::Dangling(tid, id, d);
        assert(e[q] == p[q]);
    }
}

proof fn lemma_errs_within(t: TaskV, u: TaskV, tid: Seq<char>, all: Seq<Seq<char>>, missing: Seq<Seq<char>>, x: ErrV)
    requires
        within(t, u),
        errs_t(t, tid, all, missing).contains(x),
    ensures
        errs_t(u, tid, all, missing).contains(x),
    decreases u, 0int,
{
    if t != u {
        lemma_errs_within_from(t, u.subtasks, 0, tid, all, missing, x);
        let a = (match first_conflict(u.metadata) {
            Some(d) => seq![ErrV::Conflict(tid, id_or_empty(u), d, false)],
            None => Seq::empty(),
        }) + meta_errs(u.metadata, tid, id_or_empty(u), all, missing);
        let b = errs_from(u.subtasks, 0, tid, all, missing);
        assert(errs_t(u, tid, all, missing) == a + b);
        let q = choose|q: int| 0 <= q < b.len() && b[q] == x;
        assert((a + b)[a.len() + q] == x);
    }
}

proof fn lemma_errs_within_from(t: TaskV, us: Seq<TaskV>, i: int, tid: Seq<char>, all: Seq<Seq<char>>,
    missing: Seq<Seq<char>>, x: ErrV)
    requires
        within_from(t, us, i),
        errs_t(t, tid, all, missing).contains(x),
    ensures
        errs_from(us, i, tid, all, missing).contains(x),
    decreases us, us.len() - i,
{
    let a = errs_t(us[i], tid, all, missing);
    let b = errs_from(us, i + 1, tid, all, missing);
    assert(errs_from(us, i, tid, all, missing) == a + b);
    if within(t, us[i]) {
        assert(decreases_to!(us => us[i]));
        lemma_errs_within(t, us[i], tid, all, missing, x);
        let q = choose|q: int| 0 <= q < a.len() && a[q] == x;
        assert((a + b)[q] == x);
    } else {
        lemma_errs_within_from(t, us, i + 1, tid, all, missing, x);
        let q = choose|q: int| 0 <= q < b.len() && b[q] == x;
        assert((a + b)[a.len() + q] == x);
    }
}

proof fn lemma_errs_in_nodes(nodes: Seq<NodeV>, j: int, n: int, tid: Seq<char>, all: Seq<Seq<char>>,
    missing: Seq<Seq<char>>, x: ErrV)
    requires
        0 <= j <= n < nodes.len(),
        errs_from(node_tasks(nodes[n]), 0, tid, all, missing).contains(x),
    ensures
        errs_nodes(nodes, j, tid, all, missing).contains(x),
    decreases n - j,
{
    let a = errs_from(node_tasks(nodes[j]), 0, tid, all, missing);
    let b = errs_nodes(nodes, j + 1, tid, all, missing);
    assert(errs_nodes(nodes, j, tid, all, missing) == a + b);
    if j == n {
        let q = choose|q: int| 0 <= q < a.len() && a[q] == x;
        assert((a + b)[q] == x);
    } else {
        lemma_errs_in_nodes(nodes, j + 1, n, tid, all, missing, x);
        let q = choose|q: int| 0 <= q < b.len() && b[q] == x;
        assert((a + b)[a.len() + q] == x);
    }
}

proof fn lemma_errs_in_tracks(tracks: Seq<(Seq<char>, Seq<NodeV>)>, j: int, i: int, all: Seq<Seq<char>>,
    missing: Seq<Seq<char>>, x: ErrV)
    requires
        0 <= j <= i < tracks.len(),
        errs_nodes(tracks[i].1, 0, tracks[i].0, all, missing).contains(x),
    ensures
        errs_tracks(tracks, j, all, missing).contains(x),
    decreases i - j,
{
    let a = errs_nodes(tracks[j].1, 0, tracks[j].0, all, missing);
    let b = errs_tracks(tracks, j + 1, all, missing);
    assert(errs_tracks(tracks, j, all, missing) == a + b);
    if j == i {
        let q = choose|q: int| 0 <= q < a.len() && a[q] == x;
        assert((a + b)[q] == x);
    } else {
        lemma_errs_in_tracks(tracks, j + 1, i, all, missing, x);
        let q = choose|q: int| 0 <= q < b.len() && b[q] == x;
        assert((a + b)[a.len() + q] == x);
    }
}

/// Every dangling dep is reported: for a task anywhere in a section of a
/// track, and each entry `d` of any of its `dep:` lines that no task of the
/// project holds (`all` being the project's IDs), the check's errors name
/// that track, that task and `d`.
pub proof fn law_every_dangling_dep_is_reported(
    tracks: Seq<(Seq<char>, Seq<NodeV>)>,
    i: int,
    n: int,
    t: TaskV,
    k: int,
    d: Seq<char>,
    all: Seq<Seq<char>>,
    missing: Seq<Seq<char>>,
)
    requires
        0 <= i < tracks.len(),
        0 <= n < tracks[i].1.len(),
        within_from(t, node_tasks(tracks[i].1[n]), 0),
        0 <= k < t.metadata.len(),
        t.metadata[k] matches MetaV::Dep(l) && l.contains(d),
        !all.contains(d),
    ensures
        errs_tracks(tracks, 0, all, missing).contains(ErrV::Dangling(tracks[i].0, id_or_empty(t), d)),
{
    let tid = tracks[i].0;
    let x = ErrV::Dangling(tid, id_or_empty(t), d);
    lemma_meta_dangling(t.metadata, tid, id_or_empty(t), all, missing, k, d);
    let m = meta_errs(t.metadata, tid, id_or_empty(t), all, missing);
    let a = match first_conflict(t.metadata) {
        Some(c) => seq![ErrV::Conflict(tid, id_or_empty(t), c, false)],
        None => Seq::empty(),
    };
    let b = errs_from(t.subtasks, 0, tid, all, missing);
    assert(errs_t(t, tid, all, missing) == a + m + b);
    let q = choose|q: int| 0 <= q < m.len() && m[q] == x;
    assert((a + m + b)[a.len() + q] == x);
    lemma_errs_within_from(t, node_tasks(tracks[i].1[n]), 0, tid, all, missing, x);
    lemma_errs_in_nodes(tracks[i].1, 0, n, tid, all, missing, x);
    lemma_errs_in_tracks(tracks, 0, i, all, missing, x);
}

} // verus!
