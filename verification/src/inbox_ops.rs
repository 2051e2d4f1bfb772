//! Inbox operations: capturing an item, and triaging one into a track's
//! backlog as a new task.

use vstd::prelude::*;
use crate::model::{
    item_v, items_v, opt_str_v, section_pos, section_tasks_v, strs_v, tasks_v, Inbox, InboxItem,
    ItemV, MetaV, Metadata, SectionKind, Task, TaskState, TaskV, Track,
};
use crate::task_ops::{
    child_pos_from, child_position, dash, format_top_id, insert_at, insert_index, lemma_child_pos,
    max_num_track, next_id_number, set_section, str_msg, top_id, InsertPosition, TaskError,
};
use crate::task_tree::section_index_of;
use crate::text::push_str;

verus! {

/// Why an inbox operation could not be carried out.
#[derive(Debug)]
pub enum InboxError {
    IndexOutOfRange(usize),
    NoInbox,
    TaskError(TaskError),
}

impl InboxError {
    /// The message a user sees.
    pub fn message(&self) -> (r: String)
        ensures
            r@ == match *self {
                InboxError::IndexOutOfRange(i) => "inbox item index out of range: "@ + crate::text::dec_v(i as nat),
                InboxError::NoInbox => "no inbox loaded"@,
                InboxError::TaskError(e) => "task error: "@ + crate::task_ops::task_error_message(e),
            },
    {
        match self {
            InboxError::IndexOutOfRange(i) => {
                let mut s = String::from_str("inbox item index out of range: ");
                let d = crate::text::decimal(*i);
                let ds = crate::text::string_of(&d);
                push_str(&mut s, ds.as_str());
                s
            },
            InboxError::NoInbox => String::from_str("no inbox loaded"),
            InboxError::TaskError(e) => {
                let mut s = String::from_str("task error: ");
                let m = e.message();
                push_str(&mut s, m.as_str());
                s
            },
        }
    }
}

/// Add a new item to the end of the inbox.
pub fn add_inbox_item(inbox: &mut Inbox, title: String, tags: Vec<String>, body: Option<String>)
    ensures
        items_v(final(inbox).items@) == items_v(old(inbox).items@).push(
            ItemV { title: title@, tags: strs_v(tags@), body: opt_str_v(body) },
        ),
        final(inbox).header_lines == old(inbox).header_lines,
{
    let ghost tv = ItemV { title: title@, tags: strs_v(tags@), body: opt_str_v(body) };
    let mut item = InboxItem::new(title);
    item.tags = tags;
    item.body = body;
    assert(item_v(item) == tv);
    let ghost before = items_v(inbox.items@);
    inbox.items.push(item);
    assert(items_v(inbox.items@) =~= before.push(tv));
}

/// The task an inbox item becomes: todo, with the new ID, the item's title
/// and tags, an `added:` date, and the body (when not empty) as its note.
pub open spec fn triaged_task_v(item: ItemV, id: Seq<char>, today: Seq<char>) -> TaskV {
    let note = match item.body {
        Some(b) => if b.len() > 0 { seq![MetaV::Note(b)] } else { Seq::empty() },
        None => Seq::empty(),
    };
    TaskV {
        state: TaskState::Todo,
        id: Some(id),
        title: item.title,
        tags: item.tags,
        metadata: seq![MetaV::Added(today)] + note,
        subtasks: Seq::empty(),
        extra_lines: Seq::empty(),
        depth: 0,
        dirty: true,
    }
}

/// What [`triage`] does, for a given date. The destination is checked before
/// the inbox is touched, so on any error both stay as they were.
pub open spec fn triage_post(
    old_items: Seq<ItemV>,
    new_items: Seq<ItemV>,
    old_track: Seq<crate::model::NodeV>,
    new_track: Seq<crate::model::NodeV>,
    index: usize,
    pos: InsertPosition,
    prefix: Seq<char>,
    today: Seq<char>,
    r: Result<String, InboxError>,
) -> bool {
    let bl = section_tasks_v(old_track, SectionKind::Backlog);
    let unchanged = new_items == old_items && new_track == old_track;
    if index >= old_items.len() {
        r matches Err(InboxError::IndexOutOfRange(i)) && i == index && unchanged
    } else if section_pos(old_track, SectionKind::Backlog) is None {
        r matches Err(InboxError::TaskError(TaskError::InvalidPosition(_))) && unchanged
    } else {
        match insert_index(bl, pos) {
            None => r matches Err(InboxError::TaskError(TaskError::NotFound(_))) && unchanged,
            Some(k) => {
                let id = top_id(prefix, max_num_track(old_track, dash(prefix)) + 1);
                &&& r matches Ok(s) && s@ == id
                &&& new_items == old_items.remove(index as int)
                &&& new_track == set_section(
                    old_track,
                    SectionKind::Backlog,
                    bl.insert(k, triaged_task_v(old_items[index as int], id, today)),
                )
            },
        }
    }
}

fn task_from_item(item: InboxItem, id: String, today: &str) -> (r: Task)
    ensures
        r@ == triaged_task_v(item_v(item), id@, today@),
{
    let ghost iv = item_v(item);
    let mut task = Task::new(TaskState::Todo, Some(id), item.title);
    task.tags = item.tags;
    task.metadata.push(Metadata::Added(String::from_str(today)));
    match item.body {
        Some(b) => {
            if b.unicode_len() > 0 {
                task.metadata.push(Metadata::Note(b));
            }
        },
        None => {},
    }
    assert(task@.metadata =~= triaged_task_v(iv, task@.id->0, today@).metadata);
    assert(task@.subtasks =~= Seq::<TaskV>::empty());
    task
}

/// Remove an inbox item by index (0-based) and triage it into the track's
/// backlog, dated `today`. Returns the newly assigned task ID.
pub fn triage_dated(
    inbox: &mut Inbox,
    index: usize,
    track: &mut Track,
    position: InsertPosition,
    prefix: &str,
    today: &str,
) -> (r: Result<String, InboxError>)
    requires
        max_num_track(old(track)@, dash(prefix@)) < usize::MAX,
    ensures
        triage_post(
            items_v(old(inbox).items@), items_v(final(inbox).items@), old(track)@, final(track)@, index,
            position, prefix@, today@, r,
        ),
{
    if index >= inbox.items.len() {
        return Err(InboxError::IndexOutOfRange(index));
    }
    let bi = match section_index_of(track, SectionKind::Backlog) {
        Some(i) => i,
        None => {
            return Err(InboxError::TaskError(TaskError::InvalidPosition(String::from_str("no backlog section"))));
        },
    };
    let ghost bl = section_tasks_v(old(track)@, SectionKind::Backlog);
    match &position {
        InsertPosition::After(a) => {
            proof { lemma_child_pos(bl, a@, 0); }
            if child_position(track.section_tasks(SectionKind::Backlog), a.as_str()).is_none() {
                return Err(InboxError::TaskError(TaskError::NotFound(str_msg("after target ", a.as_str()))));
            }
        },
        _ => {},
    }
    let ghost before_items = items_v(inbox.items@);
    let item = inbox.items.remove(index);
    assert(items_v(inbox.items@) =~= before_items.remove(index as int));
    assert(item_v(item) == before_items[index as int]);
    let next_num = next_id_number(track, prefix);
    let id = format_top_id(prefix, next_num);
    let task = task_from_item(item, id.clone(), today);
    let ghost n = old(track)@[bi as int];
    let mut tasks = track.swap_section_tasks(bi, Vec::new());
    let res = insert_at(&mut tasks, task, &position);
    assert(track@.len() == track.nodes@.len());
    let _ = track.swap_section_tasks(bi, tasks);
    proof {
        assert(crate::model::with_tasks(crate::model::with_tasks(n, Seq::empty()), tasks_v(tasks@))
            == crate::model::with_tasks(n, tasks_v(tasks@)));
        assert(track@ =~= old(track)@.update(bi as int, crate::model::with_tasks(n, tasks_v(tasks@))));
    }
    match res {
        Ok(()) => Ok(id),
        Err(e) => {
            assert(false);
            Err(InboxError::TaskError(e))
        },
    }
}

/// Remove an inbox item by index (0-based) and triage it into the track's
/// backlog, dated today. Returns the newly assigned task ID.
pub fn triage(inbox: &mut Inbox, index: usize, track: &mut Track, position: InsertPosition, prefix: &str) -> (r:
    Result<String, InboxError>)
    requires
        max_num_track(old(track)@, dash(prefix@)) < usize::MAX,
    ensures
        exists|d: Seq<char>| #[trigger] triage_post(
            items_v(old(inbox).items@), items_v(final(inbox).items@), old(track)@, final(track)@, index,
            position, prefix@, d, r,
        ),
{
    let today = crate::clock::today_str();
    triage_dated(inbox, index, track, position, prefix, today.as_str())
}

} // verus!
