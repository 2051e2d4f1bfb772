//! The in-memory shape of a frame project: tasks, tracks, the inbox and the
//! done-task archive, each with a mathematical view that contracts speak of.

use vstd::prelude::*;

verus! {

/// A task's state, as its checkbox character shows it.
#[derive(Clone, Copy, Debug, PartialEq, Eq, Structural)]
pub enum TaskState {
    Todo,
    Active,
    Blocked,
    Done,
    Parked,
}

/// The three sections a track file may hold.
#[derive(Clone, Copy, Debug, PartialEq, Eq, Structural)]
pub enum SectionKind {
    Backlog,
    Parked,
    Done,
}

/// One `- key: value` line under a task.
#[derive(Debug, Clone)]
pub enum Metadata {
    Dep(Vec<String>),
    Ref(Vec<String>),
    Spec(String),
    Note(String),
    Added(String),
    Resolved(String),
    Conflict(String),
}

/// The mathematical value of a [`Metadata`] line.
pub enum MetaV {
    Dep(Seq<Seq<char>>),
    Ref(Seq<Seq<char>>),
    Spec(Seq<char>),
    Note(Seq<char>),
    Added(Seq<char>),
    Resolved(Seq<char>),
    Conflict(Seq<char>),
}

/// A task, its own fields and its subtasks.
#[derive(Debug)]
pub struct Task {
    pub state: TaskState,
    pub id: Option<String>,
    pub title: String,
    pub tags: Vec<String>,
    pub metadata: Vec<Metadata>,
    pub subtasks: Vec<Task>,
    /// Lines under the task that are neither metadata nor subtasks, kept as
    /// written.
    pub extra_lines: Vec<String>,
    /// 0 for a top-level task, 1 for a subtask, 2 for a sub-subtask.
    pub depth: usize,
    /// Whether the task changed since it was read.
    pub dirty: bool,
}

/// The mathematical value of a [`Task`].
pub struct TaskV {
    pub state: TaskState,
    pub id: Option<Seq<char>>,
    pub title: Seq<char>,
    pub tags: Seq<Seq<char>>,
    pub metadata: Seq<MetaV>,
    pub subtasks: Seq<TaskV>,
    pub extra_lines: Seq<Seq<char>>,
    pub depth: usize,
    pub dirty: bool,
}

pub open spec fn strs_v(v: Seq<String>) -> Seq<Seq<char>> {
    v.map_values(|s: String| s@)
}

pub open spec fn opt_str_v(o: Option<String>) -> Option<Seq<char>> {
    match o {
        Some(s) => Some(s@),
        None => None,
    }
}

pub open spec fn meta_v(m: Metadata) -> MetaV {
    match m {
        Metadata::Dep(v) => MetaV::Dep(strs_v(v@)),
        Metadata::Ref(v) => MetaV::Ref(strs_v(v@)),
        Metadata::Spec(s) => MetaV::Spec(s@),
        Metadata::Note(s) => MetaV::Note(s@),
        Metadata::Added(s) => MetaV::Added(s@),
        Metadata::Resolved(s) => MetaV::Resolved(s@),
        Metadata::Conflict(s) => MetaV::Conflict(s@),
    }
}

pub open spec fn metas_v(v: Seq<Metadata>) -> Seq<MetaV> {
    v.map_values(|m: Metadata| meta_v(m))
}

pub open spec fn task_v(t: Task) -> TaskV
    decreases t,
{
    TaskV {
        state: t.state,
        id: opt_str_v(t.id),
        title: t.title@,
        tags: strs_v(t.tags@),
        metadata: metas_v(t.metadata@),
        subtasks: Seq::new(
            t.subtasks@.len(),
            |i: int|
                if 0 <= i < t.subtasks@.len() {
                    task_v(t.subtasks@[i])
                } else {
                    arbitrary()
                },
        ),
        extra_lines: strs_v(t.extra_lines@),
        depth: t.depth,
        dirty: t.dirty,
    }
}

pub open spec fn tasks_v(v: Seq<Task>) -> Seq<TaskV> {
    v.map_values(|t: Task| task_v(t))
}

impl View for Task {
    type V = TaskV;

    open spec fn view(&self) -> TaskV {
        task_v(*self)
    }
}

/// The key a metadata line is written with.
pub open spec fn meta_key(m: MetaV) -> Seq<char> {
    match m {
        MetaV::Dep(_) => seq!['d', 'e', 'p'],
        MetaV::Ref(_) => seq!['r', 'e', 'f'],
        MetaV::Spec(_) => seq!['s', 'p', 'e', 'c'],
        MetaV::Note(_) => seq!['n', 'o', 't', 'e'],
        MetaV::Added(_) => seq!['a', 'd', 'd', 'e', 'd'],
        MetaV::Resolved(_) => seq!['r', 'e', 's', 'o', 'l', 'v', 'e', 'd'],
        MetaV::Conflict(_) => seq!['c', 'o', 'n', 'f', 'l', 'i', 'c', 't'],
    }
}

pub fn clone_strings(v: &Vec<String>) -> (r: Vec<String>)
    ensures
        strs_v(r@) == strs_v(v@),
{
    let mut out: Vec<String> = Vec::new();
    let mut i: usize = 0;
    while i < v.len()
        invariant
            i <= v.len(),
            out@.len() == i,
            forall|k: int| 0 <= k < i ==> #[trigger] out@[k]@ == v@[k]@,
        decreases v.len() - i,
    {
        out.push(v[i].clone());
        i += 1;
    }
    assert(strs_v(out@) =~= strs_v(v@));
    out
}

pub fn clone_opt_string(o: &Option<String>) -> (r: Option<String>)
    ensures
        opt_str_v(r) == opt_str_v(*o),
{
    match o {
        Some(s) => Some(s.clone()),
        None => None,
    }
}

impl Metadata {
    /// The key this line is written with: `dep`, `ref`, `spec`, `note`,
    /// `added`, `resolved` or `conflict`.
    pub fn key(&self) -> (r: &'static str)
        ensures
            r@ == meta_key(meta_v(*self)),
    {
        match self {
            Metadata::Dep(_) => {
                proof { reveal_strlit("dep"); }
                "dep"
            },
            Metadata::Ref(_) => {
                proof { reveal_strlit("ref"); }
                "ref"
            },
            Metadata::Spec(_) => {
                proof { reveal_strlit("spec"); }
                "spec"
            },
            Metadata::Note(_) => {
                proof { reveal_strlit("note"); }
                "note"
            },
            Metadata::Added(_) => {
                proof { reveal_strlit("added"); }
                "added"
            },
            Metadata::Resolved(_) => {
                proof { reveal_strlit("resolved"); }
                "resolved"
            },
            Metadata::Conflict(_) => {
                proof { reveal_strlit("conflict"); }
                "conflict"
            },
        }
    }

    /// An independent copy with the same value.
    pub fn duplicate(&self) -> (r: Metadata)
        ensures
            meta_v(r) == meta_v(*self),
    {
        match self {
            Metadata::Dep(v) => Metadata::Dep(clone_strings(v)),
            Metadata::Ref(v) => Metadata::Ref(clone_strings(v)),
            Metadata::Spec(s) => Metadata::Spec(s.clone()),
            Metadata::Note(s) => Metadata::Note(s.clone()),
            Metadata::Added(s) => Metadata::Added(s.clone()),
            Metadata::Resolved(s) => Metadata::Resolved(s.clone()),
            Metadata::Conflict(s) => Metadata::Conflict(s.clone()),
        }
    }
}

pub fn clone_metadata(v: &Vec<Metadata>) -> (r: Vec<Metadata>)
    ensures
        metas_v(r@) == metas_v(v@),
{
    let mut out: Vec<Metadata> = Vec::new();
    let mut i: usize = 0;
    while i < v.len()
        invariant
            i <= v.len(),
            out@.len() == i,
            forall|k: int| 0 <= k < i ==> meta_v(#[trigger] out@[k]) == meta_v(v@[k]),
        decreases v.len() - i,
    {
        out.push(v[i].duplicate());
        i += 1;
    }
    assert(metas_v(out@) =~= metas_v(v@));
    out
}

impl Task {
    /// A new task with no tags, metadata or subtasks, at depth 0, marked dirty
    /// so that it is written out.
    pub fn new(state: TaskState, id: Option<String>, title: String) -> (r: Task)
        ensures
            r@ == (TaskV {
                state,
                id: opt_str_v(id),
                title: title@,
                tags: Seq::empty(),
                metadata: Seq::empty(),
                subtasks: Seq::empty(),
                extra_lines: Seq::empty(),
                depth: 0,
                dirty: true,
            }),
    {
        let r = Task {
            state,
            id,
            title,
            tags: Vec::new(),
            metadata: Vec::new(),
            subtasks: Vec::new(),
            extra_lines: Vec::new(),
            depth: 0,
            dirty: true,
        };
        assert(r@.extra_lines =~= Seq::empty());
        assert(r@.tags =~= Seq::empty());
        assert(r@.metadata =~= Seq::empty());
        assert(r@.subtasks =~= Seq::empty());
        r
    }

    /// Record that the task changed, so that it is written out.
    pub fn mark_dirty(&mut self)
        ensures
            final(self)@ == (TaskV { dirty: true, ..old(self)@ }),
    {
        self.dirty = true;
        assert(self@.subtasks =~= old(self)@.subtasks);
    }

    /// An independent copy of the task and its whole subtree.
    pub fn duplicate(&self) -> (r: Task)
        ensures
            r@ == self@,
        decreases self,
    {
        let mut subs: Vec<Task> = Vec::new();
        let mut i: usize = 0;
        while i < self.subtasks.len()
            invariant
                i <= self.subtasks.len(),
                subs@.len() == i,
                forall|k: int| 0 <= k < i ==> #[trigger] subs@[k]@ == self.subtasks@[k]@,
            decreases self.subtasks.len() - i,
        {
            proof {
                assert(decreases_to!(self => self.subtasks@[i as int]));
            }
            let c = self.subtasks[i].duplicate();
            subs.push(c);
            i += 1;
        }
        let r = Task {
            state: self.state,
            id: clone_opt_string(&self.id),
            title: self.title.clone(),
            tags: clone_strings(&self.tags),
            metadata: clone_metadata(&self.metadata),
            subtasks: subs,
            extra_lines: clone_strings(&self.extra_lines),
            depth: self.depth,
            dirty: self.dirty,
        };
        assert forall|k: int| 0 <= k < r@.subtasks.len() implies r@.subtasks[k] == self@.subtasks[k] by {
            assert(subs@[k]@ == self.subtasks@[k]@);
        }
        assert(r@.subtasks =~= self@.subtasks);
        r
    }
}


/// One block of a track file: literal text kept as written, or a section of
/// tasks.
#[derive(Debug)]
pub enum TrackNode {
    Literal(Vec<String>),
    Section { kind: SectionKind, header_lines: Vec<String>, tasks: Vec<Task> },
}

/// The mathematical value of a [`TrackNode`].
pub enum NodeV {
    Literal(Seq<Seq<char>>),
    Section { kind: SectionKind, header_lines: Seq<Seq<char>>, tasks: Seq<TaskV> },
}

pub open spec fn node_v(n: TrackNode) -> NodeV {
    match n {
        TrackNode::Literal(lines) => NodeV::Literal(strs_v(lines@)),
        TrackNode::Section { kind, header_lines, tasks } => NodeV::Section {
            kind,
            header_lines: strs_v(header_lines@),
            tasks: tasks_v(tasks@),
        },
    }
}

pub open spec fn nodes_v(v: Seq<TrackNode>) -> Seq<NodeV> {
    v.map_values(|n: TrackNode| node_v(n))
}

/// A track file: literal blocks and task sections, in file order.
#[derive(Debug)]
pub struct Track {
    pub nodes: Vec<TrackNode>,
}

impl View for Track {
    type V = Seq<NodeV>;

    open spec fn view(&self) -> Seq<NodeV> {
        nodes_v(self.nodes@)
    }
}

/// Whether a node is the section of this kind.
pub open spec fn is_section_of(n: NodeV, kind: SectionKind) -> bool {
    n matches NodeV::Section { kind: k, .. } && k == kind
}

/// The position of the first section of this kind at or after `i`.
pub open spec fn section_from(nodes: Seq<NodeV>, kind: SectionKind, i: int) -> Option<int>
    decreases nodes.len() - i,
{
    if i < 0 || i >= nodes.len() {
        None
    } else if is_section_of(nodes[i], kind) {
        Some(i)
    } else {
        section_from(nodes, kind, i + 1)
    }
}

/// The position of the first section of this kind.
pub open spec fn section_pos(nodes: Seq<NodeV>, kind: SectionKind) -> Option<int> {
    section_from(nodes, kind, 0)
}

/// The tasks of the first section of this kind, empty when there is none.
pub open spec fn section_tasks_v(nodes: Seq<NodeV>, kind: SectionKind) -> Seq<TaskV> {
    match section_pos(nodes, kind) {
        Some(i) => match nodes[i] {
            NodeV::Section { tasks, .. } => tasks,
            NodeV::Literal(_) => Seq::empty(),
        },
        None => Seq::empty(),
    }
}

pub proof fn lemma_section_from(nodes: Seq<NodeV>, kind: SectionKind, i: int)
    requires
        0 <= i <= nodes.len(),
    ensures
        match section_from(nodes, kind, i) {
            Some(j) => i <= j < nodes.len() && is_section_of(nodes[j], kind) && forall|k: int|
                i <= k < j ==> !is_section_of(#[trigger] nodes[k], kind),
            None => forall|k: int| i <= k < nodes.len() ==> !is_section_of(#[trigger] nodes[k], kind),
        },
    decreases nodes.len() - i,
{
    if i < nodes.len() && !is_section_of(nodes[i], kind) {
        lemma_section_from(nodes, kind, i + 1);
    }
}

/// A section's heading as written in a file.
pub open spec fn section_heading(kind: SectionKind) -> Seq<char> {
    match kind {
        SectionKind::Backlog => seq!['#', '#', ' ', 'B', 'a', 'c', 'k', 'l', 'o', 'g'],
        SectionKind::Parked => seq!['#', '#', ' ', 'P', 'a', 'r', 'k', 'e', 'd'],
        SectionKind::Done => seq!['#', '#', ' ', 'D', 'o', 'n', 'e'],
    }
}

pub fn section_heading_str(kind: SectionKind) -> (r: &'static str)
    ensures
        r@ == section_heading(kind),
{
    match kind {
        SectionKind::Backlog => {
            proof { reveal_strlit("## Backlog"); }
            "## Backlog"
        },
        SectionKind::Parked => {
            proof { reveal_strlit("## Parked"); }
            "## Parked"
        },
        SectionKind::Done => {
            proof { reveal_strlit("## Done"); }
            "## Done"
        },
    }
}

impl Track {
    /// The position of the first section of this kind.
    pub fn section_index(&self, kind: SectionKind) -> (r: Option<usize>)
        ensures
            match r {
                Some(i) => section_pos(self@, kind) == Some(i as int),
                None => section_pos(self@, kind) is None,
            },
    {
        let mut i: usize = 0;
        while i < self.nodes.len()
            invariant
                i <= self.nodes.len(),
                section_pos(self@, kind) == section_from(self@, kind, i as int),
            decreases self.nodes.len() - i,
        {
            match &self.nodes[i] {
                TrackNode::Section { kind: k, .. } => {
                    if *k == kind {
                        return Some(i);
                    }
                },
                TrackNode::Literal(_) => {},
            }
            i += 1;
        }
        None
    }

    /// Whether the track has a section of this kind.
    pub fn has_section(&self, kind: SectionKind) -> (r: bool)
        ensures
            r == section_pos(self@, kind) is Some,
    {
        self.section_index(kind).is_some()
    }

    /// The tasks of the first section of this kind; empty when there is none.
    pub fn section_tasks(&self, kind: SectionKind) -> (r: &[Task])
        ensures
            tasks_v(r@) == section_tasks_v(self@, kind),
    {
        proof { lemma_section_from(self@, kind, 0); }
        match self.section_index(kind) {
            Some(i) => match &self.nodes[i] {
                TrackNode::Section { tasks, .. } => tasks.as_slice(),
                TrackNode::Literal(_) => {
                    assert(false);
                    &[]
                },
            },
            None => {
                let e: &[Task] = &[];
                assert(tasks_v(e@) =~= Seq::empty());
                e
            },
        }
    }

    /// The backlog's tasks.
    pub fn backlog(&self) -> (r: &[Task])
        ensures
            tasks_v(r@) == section_tasks_v(self@, SectionKind::Backlog),
    {
        self.section_tasks(SectionKind::Backlog)
    }

    /// The parked section's tasks.
    pub fn parked(&self) -> (r: &[Task])
        ensures
            tasks_v(r@) == section_tasks_v(self@, SectionKind::Parked),
    {
        self.section_tasks(SectionKind::Parked)
    }

    /// The done section's tasks.
    pub fn done(&self) -> (r: &[Task])
        ensures
            tasks_v(r@) == section_tasks_v(self@, SectionKind::Done),
    {
        self.section_tasks(SectionKind::Done)
    }
}


/// The value a section node takes when its tasks are replaced.
pub open spec fn with_tasks(n: NodeV, tasks: Seq<TaskV>) -> NodeV {
    match n {
        NodeV::Section { kind, header_lines, .. } => NodeV::Section { kind, header_lines, tasks },
        NodeV::Literal(l) => NodeV::Literal(l),
    }
}

pub open spec fn node_tasks(n: NodeV) -> Seq<TaskV> {
    match n {
        NodeV::Section { tasks, .. } => tasks,
        NodeV::Literal(_) => Seq::empty(),
    }
}

/// The place of a section kind in a track: backlog, parked, done.
pub open spec fn rank(k: SectionKind) -> int {
    match k {
        SectionKind::Backlog => 0,
        SectionKind::Parked => 1,
        SectionKind::Done => 2,
    }
}

/// The index of the first section at or after `i` whose kind comes after
/// `kind`, or the end.
pub open spec fn insert_pos_from(nodes: Seq<NodeV>, kind: SectionKind, i: int) -> int
    decreases nodes.len() - i,
{
    if i < 0 || i >= nodes.len() {
        nodes.len() as int
    } else if nodes[i] matches NodeV::Section { kind: k, .. } && rank(k) > rank(kind) {
        i
    } else {
        insert_pos_from(nodes, kind, i + 1)
    }
}

pub fn rank_of(k: SectionKind) -> (r: u8)
    ensures
        r as int == rank(k),
{
    match k {
        SectionKind::Backlog => 0,
        SectionKind::Parked => 1,
        SectionKind::Done => 2,
    }
}

pub open spec fn insert_pos_v(nodes: Seq<NodeV>, kind: SectionKind) -> int {
    insert_pos_from(nodes, kind, 0)
}

/// A track with an empty section of `kind` inserted where it belongs when it
/// has none.
pub open spec fn ensured_v(nodes: Seq<NodeV>, kind: SectionKind) -> Seq<NodeV> {
    if section_pos(nodes, kind) is Some {
        nodes
    } else {
        nodes.insert(insert_pos_v(nodes, kind), fresh_section(kind))
    }
}

/// The section this track grows when it lacks one of the kind.
pub open spec fn fresh_section(kind: SectionKind) -> NodeV {
    NodeV::Section { kind, header_lines: seq![section_heading(kind), Seq::empty()], tasks: Seq::empty() }
}

impl Track {
    /// Replace the tasks of the section at `i`, handing back the ones it held.
    pub fn swap_section_tasks(&mut self, i: usize, tasks: Vec<Task>) -> (r: Vec<Task>)
        requires
            i < old(self).nodes.len(),
            old(self)@[i as int] is Section,
        ensures
            final(self)@ == old(self)@.update(i as int, with_tasks(old(self)@[i as int], tasks_v(tasks@))),
            tasks_v(r@) == node_tasks(old(self)@[i as int]),
    {
        let node = self.nodes.remove(i);
        match node {
            TrackNode::Section { kind, header_lines, tasks: held } => {
                self.nodes.insert(i, TrackNode::Section { kind, header_lines, tasks });
                assert(self@ =~= old(self)@.update(i as int, with_tasks(old(self)@[i as int], tasks_v(tasks@))));
                held
            },
            TrackNode::Literal(l) => {
                assert(false);
                self.nodes.insert(i, TrackNode::Literal(l));
                Vec::new()
            },
        }
    }

    /// Make sure a section of this kind exists. A missing one is inserted
    /// empty where the order backlog, parked, done puts it: before the first
    /// section that comes after it, or at the end.
    pub fn ensure_section(&mut self, kind: SectionKind)
        ensures
            final(self)@ == ensured_v(old(self)@, kind),
            section_pos(final(self)@, kind) is Some,
    {
        proof { lemma_section_from(self@, kind, 0); }
        if !self.has_section(kind) {
            let pos = self.insert_pos(kind);
            let mut header: Vec<String> = Vec::new();
            header.push(String::from_str(section_heading_str(kind)));
            header.push(String::new());
            self.nodes.insert(pos, TrackNode::Section { kind, header_lines: header, tasks: Vec::new() });
            assert(strs_v(header@) =~= seq![section_heading(kind), Seq::<char>::empty()]);
            assert(tasks_v(Seq::<Task>::empty()) =~= Seq::empty());
            assert(self@ =~= old(self)@.insert(pos as int, fresh_section(kind)));
            proof {
                lemma_section_from(self@, kind, 0);
                assert(is_section_of(self@[pos as int], kind));
            }
        }
    }

    /// Where a missing section of this kind goes (see [`insert_pos_v`]).
    pub fn insert_pos(&self, kind: SectionKind) -> (r: usize)
        ensures
            r as int == insert_pos_v(self@, kind),
            r <= self.nodes@.len(),
    {
        let mut i: usize = 0;
        while i < self.nodes.len()
            invariant
                i <= self.nodes@.len(),
                insert_pos_v(self@, kind) == insert_pos_from(self@, kind, i as int),
            decreases self.nodes.len() - i,
        {
            match &self.nodes[i] {
                TrackNode::Section { kind: k, .. } => {
                    if rank_of(*k) > rank_of(kind) {
                        return i;
                    }
                },
                TrackNode::Literal(_) => {},
            }
            i += 1;
        }
        i
    }

}

/// One quick-capture item.
#[derive(Debug, Clone)]
pub struct InboxItem {
    pub title: String,
    pub tags: Vec<String>,
    pub body: Option<String>,
    pub dirty: bool,
}

/// The mathematical value of an [`InboxItem`].
pub struct ItemV {
    pub title: Seq<char>,
    pub tags: Seq<Seq<char>>,
    pub body: Option<Seq<char>>,
}

pub open spec fn item_v(i: InboxItem) -> ItemV {
    ItemV { title: i.title@, tags: strs_v(i.tags@), body: opt_str_v(i.body) }
}

pub open spec fn items_v(v: Seq<InboxItem>) -> Seq<ItemV> {
    v.map_values(|i: InboxItem| item_v(i))
}

impl InboxItem {
    /// A new item with no tags and no body.
    pub fn new(title: String) -> (r: InboxItem)
        ensures
            item_v(r) == (ItemV { title: title@, tags: Seq::empty(), body: None }),
            r.dirty,
    {
        let r = InboxItem { title, tags: Vec::new(), body: None, dirty: true };
        assert(strs_v(r.tags@) =~= Seq::empty());
        r
    }

    /// An independent copy with the same content.
    pub fn duplicate(&self) -> (r: InboxItem)
        ensures
            item_v(r) == item_v(*self),
            r.dirty == self.dirty,
    {
        InboxItem {
            title: self.title.clone(),
            tags: clone_strings(&self.tags),
            body: clone_opt_string(&self.body),
            dirty: self.dirty,
        }
    }
}

/// The inbox file: its header and its items.
#[derive(Debug, Clone)]
pub struct Inbox {
    pub header_lines: Vec<String>,
    pub items: Vec<InboxItem>,
}

/// A done-task archive: a header, a flat list of tasks, and whatever follows
/// the list.
#[derive(Debug)]
pub struct Archive {
    pub header_lines: Vec<String>,
    pub tasks: Vec<Task>,
    pub trailing_lines: Vec<String>,
    /// Whether the file's lines end in CR LF.
    pub crlf: bool,
}

impl Archive {
    /// An empty archive for a track: the heading `# Archive — <track>` and a
    /// blank line.
    pub fn new(track_id: &str) -> (r: Archive)
        ensures
            r.tasks@.len() == 0,
            r.header_lines@.len() == 2,
            r.header_lines@[0]@ == "# Archive \u{2014} "@ + track_id@,
            r.header_lines@[1]@.len() == 0,
            r.trailing_lines@.len() == 0,
            !r.crlf,
    {
        let mut head = String::from_str("# Archive \u{2014} ");
        crate::text::push_str(&mut head, track_id);
        let mut header_lines: Vec<String> = Vec::new();
        header_lines.push(head);
        header_lines.push(String::new());
        Archive { header_lines, tasks: Vec::new(), trailing_lines: Vec::new(), crlf: false }
    }
}

} // verus!
