//! Three-way merge of a track or the inbox against a concurrent write.
//!
//! Tracks merge by task identity: a task's key is its ID, or its title when
//! it has none; each key is decided from its base, our and their versions,
//! and subtasks merge in their own right. The inbox has no IDs and merges by
//! content, as a multiset: each item is held `ours + theirs - base` times,
//! never fewer than zero.

use vstd::prelude::*;
use crate::model::{
    clone_strings, insert_pos_v, item_v, items_v, meta_v, metas_v, opt_str_v, section_heading,
    section_pos, strs_v, tasks_v, Inbox, InboxItem, ItemV, Metadata, NodeV, SectionKind, Task,
    TaskV, Track, TrackNode, node_v, nodes_v, lemma_section_from, section_heading_str,
};
use crate::task_tree::{size, size_from};
use crate::refs::join_v;
use crate::text::{chars_of, push_str, str_eq};

verus! {

// ---------------------------------------------------------------------------
// Conflicts
// ---------------------------------------------------------------------------

/// Why the merge left a task undecided.
#[derive(Debug, Clone, Copy, PartialEq, Eq, Structural)]
pub enum ConflictReason {
    /// Both sides changed the same task, differently.
    BothEdited,
    /// We changed it; they removed it.
    EditedAndDeleted,
    /// We removed it; they changed it. Theirs is taken.
    DeletedAndEdited,
    /// Two tasks share a title and neither has an ID, so identity is ambiguous.
    AmbiguousTitle,
}

pub open spec fn slug_v(r: ConflictReason) -> Seq<char> {
    match r {
        ConflictReason::BothEdited => "both-edited"@,
        ConflictReason::EditedAndDeleted => "edited-and-deleted"@,
        ConflictReason::DeletedAndEdited => "deleted-and-edited"@,
        ConflictReason::AmbiguousTitle => "ambiguous-title"@,
    }
}

pub open spec fn describe_v(r: ConflictReason) -> Seq<char> {
    match r {
        ConflictReason::BothEdited => "both sides edited it differently; kept ours"@,
        ConflictReason::EditedAndDeleted => "we edited it, they removed it; kept ours"@,
        ConflictReason::DeletedAndEdited => "we removed it, they edited it; took theirs"@,
        ConflictReason::AmbiguousTitle => "two untitled-ID tasks share a title, so identity is ambiguous; kept ours"@,
    }
}

impl ConflictReason {
    /// A stable identifier for the reason, for the `conflict:` metadata a
    /// merge leaves in the file.
    pub fn slug(self) -> (r: &'static str)
        ensures
            r@ == slug_v(self),
    {
        match self {
            ConflictReason::BothEdited => "both-edited",
            ConflictReason::EditedAndDeleted => "edited-and-deleted",
            ConflictReason::DeletedAndEdited => "deleted-and-edited",
            ConflictReason::AmbiguousTitle => "ambiguous-title",
        }
    }

    /// A phrase for a human reading a conflict report: what happened and
    /// which side the merge kept.
    pub fn describe(self) -> (r: &'static str)
        ensures
            r@ == describe_v(self),
    {
        match self {
            ConflictReason::BothEdited => "both sides edited it differently; kept ours",
            ConflictReason::EditedAndDeleted => "we edited it, they removed it; kept ours",
            ConflictReason::DeletedAndEdited => "we removed it, they edited it; took theirs",
            ConflictReason::AmbiguousTitle => "two untitled-ID tasks share a title, so identity is ambiguous; kept ours",
        }
    }
}

/// A task the merge could not decide, kept as ours with theirs preserved.
#[derive(Debug)]
pub struct Conflict {
    /// The task's key (see [`task_key`]).
    pub key: String,
    pub reason: ConflictReason,
    /// Their version's own lines, for the recovery log; empty when they have
    /// none.
    pub theirs: Vec<String>,
}

/// A task's identity across sides: `#` and its ID, or `~` and its title when
/// it has none.
pub open spec fn key_of(t: TaskV) -> Seq<char> {
    match t.id {
        Some(id) => seq!['#'] + id,
        None => seq!['~'] + t.title,
    }
}

/// A task's identity across sides (see [`key_of`]).
pub fn task_key(task: &Task) -> (r: String)
    ensures
        r@ == key_of(task@),
{
    let mut s = String::new();
    match &task.id {
        Some(id) => {
            s.push('#');
            push_str(&mut s, id.as_str());
        },
        None => {
            s.push('~');
            push_str(&mut s, task.title.as_str());
        },
    }
    s
}

// ---------------------------------------------------------------------------
// Counting keys
// ---------------------------------------------------------------------------

/// How many times `k` occurs in `ks`.
pub open spec fn count_in(ks: Seq<Seq<char>>, k: Seq<char>) -> nat
    decreases ks.len(),
{
    if ks.len() == 0 {
        0
    } else {
        count_in(ks.drop_last(), k) + if ks.last() == k { 1nat } else { 0nat }
    }
}

pub proof fn lemma_count_concat(a: Seq<Seq<char>>, b: Seq<Seq<char>>, k: Seq<char>)
    ensures
        count_in(a + b, k) == count_in(a, k) + count_in(b, k),
    decreases b.len(),
{
    if b.len() > 0 {
        assert((a + b).drop_last() =~= a + b.drop_last());
        lemma_count_concat(a, b.drop_last(), k);
    } else {
        assert(a + b =~= a);
    }
}

/// Whether each of `ks` stays when at most `limit(k)` of each key may stay,
/// the earliest ones first.
pub open spec fn keep_flags(ks: Seq<Seq<char>>, limit: spec_fn(Seq<char>) -> nat) -> Seq<bool>
    decreases ks.len(),
{
    if ks.len() == 0 {
        Seq::empty()
    } else {
        keep_flags(ks.drop_last(), limit).push(count_in(ks.drop_last(), ks.last()) < limit(ks.last()))
    }
}

/// The items whose flag is set, in order.
pub open spec fn pick(items: Seq<ItemV>, flags: Seq<bool>) -> Seq<ItemV>
    decreases items.len(),
{
    if items.len() == 0 {
        Seq::empty()
    } else {
        let rest = pick(items.drop_last(), flags.drop_last());
        if flags.last() {
            rest.push(items.last())
        } else {
            rest
        }
    }
}

// ---------------------------------------------------------------------------
// Inbox
// ---------------------------------------------------------------------------

/// An inbox item's content as its identity: title, tags joined by commas
/// and body (empty when there is none), separated by U+0001.
pub open spec fn item_key_v(i: ItemV) -> Seq<char> {
    i.title + seq!['\u{1}'] + join_v(i.tags, ',') + seq!['\u{1}'] + match i.body {
        Some(b) => b,
        None => Seq::empty(),
    }
}

pub open spec fn keys_of(items: Seq<ItemV>) -> Seq<Seq<char>> {
    items.map_values(|i: ItemV| item_key_v(i))
}

/// How many of the item with key `k` the merged inbox holds: ours plus
/// theirs less the base, and never fewer than zero.
pub open spec fn wanted(b: Seq<Seq<char>>, o: Seq<Seq<char>>, t: Seq<Seq<char>>, k: Seq<char>) -> nat {
    let v = count_in(o, k) + count_in(t, k) - count_in(b, k);
    if v > 0 { v as nat } else { 0 }
}

pub open spec fn min_nat(a: nat, b: nat) -> nat {
    if a <= b { a } else { b }
}

/// The result of merging the inbox.
#[derive(Debug)]
pub struct ReconciledInbox {
    pub inbox: Inbox,
    /// Items that came from the other writer.
    pub took_theirs: usize,
    /// Our items dropped because the merge holds fewer of them.
    pub deleted: usize,
}

impl ReconciledInbox {
    /// Whether the merge took anything from them or dropped anything of ours.
    pub fn changed_anything(&self) -> (r: bool)
        ensures
            r == (self.took_theirs > 0 || self.deleted > 0),
    {
        self.took_theirs > 0 || self.deleted > 0
    }
}

/// What [`reconcile_inbox`] keeps of ours: each of our items while fewer than
/// [`wanted`] of its key are kept, earliest first.
pub open spec fn inbox_kept(b: Seq<ItemV>, o: Seq<ItemV>, t: Seq<ItemV>) -> Seq<ItemV> {
    let (bk, ok, tk) = (keys_of(b), keys_of(o), keys_of(t));
    pick(o, keep_flags(ok, |k: Seq<char>| wanted(bk, ok, tk, k)))
}

/// What [`reconcile_inbox`] takes of theirs: each of their items while the
/// count of its key, ours kept included, stays below [`wanted`].
pub open spec fn inbox_taken(b: Seq<ItemV>, o: Seq<ItemV>, t: Seq<ItemV>) -> Seq<ItemV> {
    let (bk, ok, tk) = (keys_of(b), keys_of(o), keys_of(t));
    pick(
        t,
        keep_flags(
            tk,
            |k: Seq<char>| (wanted(bk, ok, tk, k) - min_nat(count_in(ok, k), wanted(bk, ok, tk, k))) as nat,
        ),
    )
}

fn join_strings(v: &Vec<String>, c: char) -> (r: String)
    ensures
        r@ == join_v(strs_v(v@), c),
{
    let ghost sv = strs_v(v@);
    let mut out = String::new();
    let mut i: usize = 0;
    while i < v.len()
        invariant
            i <= v@.len(),
            sv == strs_v(v@),
            out@ == join_v(sv.take(i as int), c),
        decreases v.len() - i,
    {
        assert(sv.take(i + 1).drop_last() =~= sv.take(i as int));
        if i > 0 {
            out.push(c);
        }
        push_str(&mut out, v[i].as_str());
        proof {
            if i == 0 {
                assert(sv.take(1) =~= seq![sv[0]]);
                assert(out@ =~= sv[0]);
            } else {
                assert(out@ =~= join_v(sv.take(i as int), c) + seq![c] + sv[i as int]);
            }
        }
        i += 1;
    }
    assert(sv.take(v@.len() as int) =~= sv);
    out
}

fn item_key(item: &InboxItem) -> (r: String)
    ensures
        r@ == item_key_v(item_v(*item)),
{
    let mut s = item.title.clone();
    s.push('\u{1}');
    let tags = join_strings(&item.tags, ',');
    push_str(&mut s, tags.as_str());
    s.push('\u{1}');
    match &item.body {
        Some(b) => push_str(&mut s, b.as_str()),
        None => {},
    }
    s
}

fn item_keys(items: &Vec<InboxItem>) -> (r: Vec<String>)
    ensures
        strs_v(r@) == keys_of(items_v(items@)),
{
    let mut out: Vec<String> = Vec::new();
    let mut i: usize = 0;
    while i < items.len()
        invariant
            i <= items@.len(),
            strs_v(out@) == keys_of(items_v(items@)).take(i as int),
        decreases items.len() - i,
    {
        let k = item_key(&items[i]);
        let ghost before = strs_v(out@);
        assert(keys_of(items_v(items@))[i as int] == k@);
        out.push(k);
        assert(strs_v(out@) =~= before.push(keys_of(items_v(items@))[i as int]));
        assert(strs_v(out@) =~= keys_of(items_v(items@)).take(i + 1));
        i += 1;
    }
    assert(keys_of(items_v(items@)).take(items@.len() as int) =~= keys_of(items_v(items@)));
    out
}

/// How many of `keys[..upto]` equal `k`.
fn count_key(keys: &Vec<String>, upto: usize, k: &str) -> (r: usize)
    requires
        upto <= keys@.len(),
    ensures
        r as nat == count_in(strs_v(keys@).take(upto as int), k@),
{
    let ghost ks = strs_v(keys@);
    let mut n: usize = 0;
    let mut i: usize = 0;
    while i < upto
        invariant
            i <= upto <= keys@.len(),
            ks == strs_v(keys@),
            n as nat == count_in(ks.take(i as int), k@),
            n <= i,
        decreases upto - i,
    {
        assert(ks.take(i + 1).drop_last() =~= ks.take(i as int));
        if str_eq(keys[i].as_str(), k) {
            n += 1;
        }
        i += 1;
    }
    n
}

proof fn lemma_count_bound(ks: Seq<Seq<char>>, k: Seq<char>)
    ensures
        count_in(ks, k) <= ks.len(),
    decreases ks.len(),
{
    if ks.len() > 0 {
        lemma_count_bound(ks.drop_last(), k);
    }
}

/// Merge the inbox by content, as a multiset: each item is held
/// `ours + theirs - base` times (never fewer than zero). Ours come first, in
/// our order, then what is added from theirs, in their order. The header is
/// theirs when ours is the base's, ours otherwise.
pub fn reconcile_inbox(base: &Inbox, ours: &Inbox, theirs: &Inbox) -> (r: ReconciledInbox)
    ensures
        items_v(r.inbox.items@) == inbox_kept(items_v(base.items@), items_v(ours.items@), items_v(theirs.items@))
            + inbox_taken(items_v(base.items@), items_v(ours.items@), items_v(theirs.items@)),
        r.took_theirs == inbox_taken(items_v(base.items@), items_v(ours.items@), items_v(theirs.items@)).len(),
        r.deleted == ours.items@.len() - inbox_kept(items_v(base.items@), items_v(ours.items@), items_v(theirs.items@)).len(),
        strs_v(r.inbox.header_lines@) == if strs_v(ours.header_lines@) == strs_v(base.header_lines@) {
            strs_v(theirs.header_lines@)
        } else {
            strs_v(ours.header_lines@)
        },
{
    let bkeys = item_keys(&base.items);
    let okeys = item_keys(&ours.items);
    let tkeys = item_keys(&theirs.items);
    let ghost (bi, oi, ti) = (items_v(base.items@), items_v(ours.items@), items_v(theirs.items@));
    let ghost (bk, ok, tk) = (keys_of(bi), keys_of(oi), keys_of(ti));
    let ghost w = |k: Seq<char>| wanted(bk, ok, tk, k);
    let ghost rem = |k: Seq<char>| (wanted(bk, ok, tk, k) - min_nat(count_in(ok, k), wanted(bk, ok, tk, k))) as nat;
    assert(strs_v(okeys@).take(okeys@.len() as int) =~= ok);
    assert(strs_v(tkeys@).take(tkeys@.len() as int) =~= tk);
    assert(strs_v(bkeys@).take(bkeys@.len() as int) =~= bk);

    let mut items: Vec<InboxItem> = Vec::new();
    let mut deleted: usize = 0;
    let mut i: usize = 0;
    while i < ours.items.len()
        invariant
            i <= ours.items@.len(),
            okeys@.len() == ours.items@.len(),
            strs_v(okeys@) == ok,
            strs_v(tkeys@) == tk,
            strs_v(bkeys@) == bk,
            strs_v(okeys@).take(okeys@.len() as int) == ok,
            strs_v(tkeys@).take(tkeys@.len() as int) == tk,
            strs_v(bkeys@).take(bkeys@.len() as int) == bk,
            oi == items_v(ours.items@),
            ok == keys_of(oi),
            w == (|k: Seq<char>| wanted(bk, ok, tk, k)),
            items_v(items@) == pick(oi.take(i as int), keep_flags(ok.take(i as int), w)),
            deleted as nat + items@.len() == i,
        decreases ours.items.len() - i,
    {
        let k = okeys[i].as_str();
        let occ = count_key(&okeys, i, k);
        let co = count_key(&okeys, okeys.len(), k);
        let ct = count_key(&tkeys, tkeys.len(), k);
        let cb = count_key(&bkeys, bkeys.len(), k);
        let keep = (occ as u128) + (cb as u128) < (co as u128) + (ct as u128);
        proof {
            assert(ok[i as int] == k@);
            assert(strs_v(okeys@).take(i as int) =~= ok.take(i as int));
            assert(keep == (count_in(ok.take(i as int), ok[i as int]) < w(ok[i as int])));
            lemma_pick_step(oi, ok, w, i as int);
        }
        if keep {
            let ghost before = items_v(items@);
            items.push(ours.items[i].duplicate());
            assert(items_v(items@) =~= before.push(oi[i as int]));
        } else {
            deleted += 1;
        }
        i += 1;
    }
    assert(oi.take(oi.len() as int) =~= oi);
    assert(ok.take(ok.len() as int) =~= ok);
    let ghost kept_len = items@.len();

    let mut took: usize = 0;
    let mut j: usize = 0;
    while j < theirs.items.len()
        invariant
            j <= theirs.items@.len(),
            tkeys@.len() == theirs.items@.len(),
            strs_v(okeys@).take(okeys@.len() as int) == ok,
            strs_v(tkeys@).take(tkeys@.len() as int) == tk,
            strs_v(bkeys@).take(bkeys@.len() as int) == bk,
            strs_v(tkeys@) == tk,
            ti == items_v(theirs.items@),
            tk == keys_of(ti),
            rem == (|k: Seq<char>| (wanted(bk, ok, tk, k) - min_nat(count_in(ok, k), wanted(bk, ok, tk, k))) as nat),
            items_v(items@) == inbox_kept(bi, oi, ti) + pick(ti.take(j as int), keep_flags(tk.take(j as int), rem)),
            items@.len() == kept_len + took,
            took <= j,
            kept_len == inbox_kept(bi, oi, ti).len(),
        decreases theirs.items.len() - j,
    {
        let k = tkeys[j].as_str();
        let occ = count_key(&tkeys, j, k);
        let co = count_key(&okeys, okeys.len(), k);
        let ct = count_key(&tkeys, tkeys.len(), k);
        let cb = count_key(&bkeys, bkeys.len(), k);
        let sum = (co as u128) + (ct as u128);
        let wv: u128 = if sum > (cb as u128) { sum - (cb as u128) } else { 0 };
        let m: u128 = if (co as u128) < wv { co as u128 } else { wv };
        let keep = (occ as u128) + m < wv;
        proof {
            assert(tk[j as int] == k@);
            assert(strs_v(tkeys@).take(j as int) =~= tk.take(j as int));
            assert(keep == (count_in(tk.take(j as int), tk[j as int]) < rem(tk[j as int])));
            lemma_pick_step(ti, tk, rem, j as int);
        }
        if keep {
            let ghost before = items_v(items@);
            items.push(theirs.items[j].duplicate());
            assert(items_v(items@) =~= before.push(ti[j as int]));
            assert(inbox_kept(bi, oi, ti) + pick(ti.take(j + 1), keep_flags(tk.take(j + 1), rem))
                =~= (inbox_kept(bi, oi, ti) + pick(ti.take(j as int), keep_flags(tk.take(j as int), rem))).push(ti[j as int]));
            took += 1;
        }
        j += 1;
    }
    assert(ti.take(ti.len() as int) =~= ti);
    assert(tk.take(tk.len() as int) =~= tk);
    let header_lines = if strings_equal(&ours.header_lines, &base.header_lines) {
        clone_strings(&theirs.header_lines)
    } else {
        clone_strings(&ours.header_lines)
    };
    ReconciledInbox { inbox: Inbox { header_lines, items }, took_theirs: took, deleted }
}

/// Whether two string lists hold the same strings.
pub fn strings_equal(a: &Vec<String>, b: &Vec<String>) -> (r: bool)
    ensures
        r == (strs_v(a@) == strs_v(b@)),
{
    if a.len() != b.len() {
        assert(strs_v(a@).len() != strs_v(b@).len());
        return false;
    }
    let mut i: usize = 0;
    while i < a.len()
        invariant
            i <= a@.len(),
            a@.len() == b@.len(),
            forall|k: int| 0 <= k < i ==> a@[k]@ == b@[k]@,
        decreases a.len() - i,
    {
        if !str_eq(a[i].as_str(), b[i].as_str()) {
            assert(strs_v(a@)[i as int] != strs_v(b@)[i as int]);
            return false;
        }
        i += 1;
    }
    assert(strs_v(a@) =~= strs_v(b@));
    true
}

// ---------------------------------------------------------------------------
// The inbox law
// ---------------------------------------------------------------------------

proof fn lemma_pick_step(items: Seq<ItemV>, ks: Seq<Seq<char>>, limit: spec_fn(Seq<char>) -> nat, i: int)
    requires
        0 <= i < items.len(),
        ks.len() == items.len(),
    ensures
        pick(items.take(i + 1), keep_flags(ks.take(i + 1), limit)) == if count_in(ks.take(i), ks[i]) < limit(ks[i]) {
            pick(items.take(i), keep_flags(ks.take(i), limit)).push(items[i])
        } else {
            pick(items.take(i), keep_flags(ks.take(i), limit))
        },
{
    assert(items.take(i + 1).drop_last() =~= items.take(i));
    assert(ks.take(i + 1).drop_last() =~= ks.take(i));
    let f = keep_flags(ks.take(i + 1), limit);
    assert(f.drop_last() =~= keep_flags(ks.take(i), limit));
    assert(f.last() == (count_in(ks.take(i), ks[i]) < limit(ks[i])));
}

proof fn lemma_pick_count(items: Seq<ItemV>, limit: spec_fn(Seq<char>) -> nat, k: Seq<char>)
    ensures
        count_in(keys_of(pick(items, keep_flags(keys_of(items), limit))), k)
            == min_nat(count_in(keys_of(items), k), limit(k)),
        pick(items, keep_flags(keys_of(items), limit)).len() <= items.len(),
    decreases items.len(),
{
    if items.len() > 0 {
        let init = items.drop_last();
        assert(keys_of(items).drop_last() =~= keys_of(init));
        lemma_pick_count(init, limit, k);
        let flags = keep_flags(keys_of(items), limit);
        assert(flags.drop_last() =~= keep_flags(keys_of(init), limit));
        let rest = pick(init, keep_flags(keys_of(init), limit));
        assert(keys_of(items).last() == item_key_v(items.last()));
        assert(flags.last() == (count_in(keys_of(init), item_key_v(items.last())) < limit(item_key_v(items.last()))));
        assert(pick(items, flags) == if flags.last() { rest.push(items.last()) } else { rest });
        if flags.last() {
            assert(keys_of(rest.push(items.last())) =~= keys_of(rest).push(item_key_v(items.last())));
            assert(keys_of(rest.push(items.last())).drop_last() =~= keys_of(rest));
        }
    } else {
        assert(keys_of(pick(items, keep_flags(keys_of(items), limit))) =~= Seq::empty());
    }
}

/// The inbox merges as a multiset: every item's count in the merge is ours
/// plus theirs less the base's, floored at zero.
pub proof fn law_inbox_counts(base: Seq<ItemV>, ours: Seq<ItemV>, theirs: Seq<ItemV>, k: Seq<char>)
    ensures
        count_in(keys_of(inbox_kept(base, ours, theirs) + inbox_taken(base, ours, theirs)), k)
            == wanted(keys_of(base), keys_of(ours), keys_of(theirs), k),
{
    let (bk, ok, tk) = (keys_of(base), keys_of(ours), keys_of(theirs));
    let w = |x: Seq<char>| wanted(bk, ok, tk, x);
    let rem = |x: Seq<char>| (wanted(bk, ok, tk, x) - min_nat(count_in(ok, x), wanted(bk, ok, tk, x))) as nat;
    lemma_pick_count(ours, w, k);
    lemma_pick_count(theirs, rem, k);
    let kept = inbox_kept(base, ours, theirs);
    let taken = inbox_taken(base, ours, theirs);
    assert(keys_of(kept + taken) =~= keys_of(kept) + keys_of(taken));
    lemma_count_concat(keys_of(kept), keys_of(taken), k);
}


// ---------------------------------------------------------------------------
// Tracks: deciding one key
// ---------------------------------------------------------------------------

/// A task with the section it sits in.
pub type EntryV = (SectionKind, TaskV);

/// The key of each entry.
pub open spec fn entry_keys(es: Seq<EntryV>) -> Seq<Seq<char>> {
    es.map_values(|e: EntryV| key_of(e.1))
}

/// The last entry holding key `k`: a later task with a repeated key stands
/// for it.
pub open spec fn lookup(es: Seq<EntryV>, k: Seq<char>) -> Option<EntryV>
    decreases es.len(),
{
    if es.len() == 0 {
        None
    } else if key_of(es.last().1) == k {
        Some(es.last())
    } else {
        lookup(es.drop_last(), k)
    }
}

/// `ks` with repeats dropped, each key where it first occurs.
pub open spec fn dedup(ks: Seq<Seq<char>>) -> Seq<Seq<char>>
    decreases ks.len(),
{
    if ks.len() == 0 {
        Seq::empty()
    } else {
        let d = dedup(ks.drop_last());
        if d.contains(ks.last()) {
            d
        } else {
            d.push(ks.last())
        }
    }
}

/// Every key any side knows: ours first, in our order, then theirs, then
/// the base's.
pub open spec fn all_keys(b: Seq<EntryV>, o: Seq<EntryV>, t: Seq<EntryV>) -> Seq<Seq<char>> {
    dedup(entry_keys(o) + entry_keys(t) + entry_keys(b))
}

/// Whether two versions of a task have the same content: state, ID, title,
/// tags and metadata (subtasks and flags aside).
pub open spec fn same_content(a: TaskV, b: TaskV) -> bool {
    a.state == b.state && a.title == b.title && a.tags == b.tags && a.metadata == b.metadata && a.id == b.id
}

/// Whether two entries are the same task in the same place.
pub open spec fn same(a: EntryV, b: EntryV) -> bool {
    a.0 == b.0 && same_content(a.1, b.1)
}

/// What the merge does with one key.
#[derive(Debug, Clone, Copy, PartialEq, Eq, Structural)]
pub enum Verdict {
    Ours,
    Theirs,
    Delete,
    Conflict(ConflictReason),
}

/// The decision for one key from its base, our and their versions: an
/// addition by one side is taken; a removal is taken when the other side
/// left the task as it was; a change by one side is taken; changes by both
/// must agree. Everything else is a conflict.
pub open spec fn decide(b: Option<EntryV>, o: Option<EntryV>, t: Option<EntryV>) -> Verdict {
    match (b, o, t) {
        (_, None, None) => Verdict::Delete,
        (None, Some(_), None) => Verdict::Ours,
        (None, None, Some(_)) => Verdict::Theirs,
        (None, Some(o), Some(t)) => if same(o, t) {
            Verdict::Ours
        } else {
            Verdict::Conflict(ConflictReason::BothEdited)
        },
        (Some(b), Some(o), None) => if same(b, o) {
            Verdict::Delete
        } else {
            Verdict::Conflict(ConflictReason::EditedAndDeleted)
        },
        (Some(b), None, Some(t)) => if same(b, t) {
            Verdict::Delete
        } else {
            Verdict::Conflict(ConflictReason::DeletedAndEdited)
        },
        (Some(b), Some(o), Some(t)) => if !same(b, o) && !same(b, t) && !same(o, t) {
            Verdict::Conflict(ConflictReason::BothEdited)
        } else if same(b, o) && !same(b, t) {
            Verdict::Theirs
        } else {
            Verdict::Ours
        },
    }
}

/// Which section the task ends up in: theirs when only they moved it, else
/// ours, else theirs, else the base's.
pub open spec fn section_for(b: Option<EntryV>, o: Option<EntryV>, t: Option<EntryV>) -> SectionKind {
    match (b, o, t) {
        (Some(b), Some(o), Some(t)) => if o.0 == b.0 && t.0 != b.0 { t.0 } else { o.0 },
        (_, Some(o), _) => o.0,
        (_, None, Some(t)) => t.0,
        (Some(b), None, None) => b.0,
        (None, None, None) => SectionKind::Backlog,
    }
}

pub open spec fn task_of(e: Option<EntryV>) -> Option<TaskV> {
    match e {
        Some(x) => Some(x.1),
        None => None,
    }
}

/// The task of an entry that is there.
pub open spec fn the_task(e: Option<EntryV>) -> TaskV {
    match e {
        Some(x) => x.1,
        None => arbitrary(),
    }
}

pub open spec fn size_opt(t: Option<TaskV>) -> nat {
    match t {
        Some(x) => size(x),
        None => 0,
    }
}

/// A task list as entries of one section.
pub open spec fn list_entries(ts: Seq<TaskV>) -> Seq<EntryV> {
    ts.map_values(|t: TaskV| (SectionKind::Backlog, t))
}

/// Whether a key is a title that is not unique on some side: a task without
/// an ID cannot be matched across sides when its title repeats.
pub open spec fn ambiguous(k: Seq<char>, b: Seq<EntryV>, o: Seq<EntryV>, t: Seq<EntryV>) -> bool {
    &&& k.len() > 0 && k[0] == '~'
    &&& count_in(entry_keys(b), k) > 1 || count_in(entry_keys(o), k) > 1 || count_in(entry_keys(t), k) > 1
}

pub proof fn lemma_lookup_in(es: Seq<EntryV>, k: Seq<char>)
    ensures
        lookup(es, k) matches Some(e) ==> exists|i: int| 0 <= i < es.len() && es[i] == e,
    decreases es.len(),
{
    if es.len() > 0 && key_of(es.last().1) != k {
        lemma_lookup_in(es.drop_last(), k);
        if lookup(es.drop_last(), k) is Some {
            let i = choose|i: int| 0 <= i < es.len() - 1 && es.drop_last()[i] == lookup(es.drop_last(), k)->0;
            assert(es[i] == es.drop_last()[i]);
        }
    }
    if es.len() > 0 && key_of(es.last().1) == k {
        assert(es[es.len() - 1] == es.last());
    }
}

pub proof fn lemma_size_elem(ts: Seq<TaskV>, i: int, k: int)
    requires
        0 <= i <= k < ts.len(),
    ensures
        size(ts[k]) <= size_from(ts, i),
    decreases k - i,
{
    if i < k {
        lemma_size_elem(ts, i + 1, k);
    }
}

pub proof fn lemma_lookup_size(ts: Seq<TaskV>, k: Seq<char>)
    ensures
        size_opt(task_of(lookup(list_entries(ts), k))) <= size_from(ts, 0),
{
    lemma_lookup_in(list_entries(ts), k);
    if lookup(list_entries(ts), k) is Some {
        let i = choose|i: int| 0 <= i < list_entries(ts).len() && list_entries(ts)[i] == lookup(list_entries(ts), k)->0;
        lemma_size_elem(ts, 0, i);
    }
}

/// One conflict as the merge reports it: the key and the reason.
pub type ConflictV = (Seq<char>, ConflictReason);

/// The winning task with its subtasks merged against the other side's, and
/// the conflicts that merge reports. With no other side the winner stands
/// as it is.
pub open spec fn merged(w: TaskV, b: Option<TaskV>, x: Option<TaskV>) -> (TaskV, Seq<ConflictV>)
    decreases size(w) + size_opt(x), 0int, 0int,
{
    match x {
        None => (w, Seq::empty()),
        Some(xv) => {
            let bs = match b {
                Some(bv) => bv.subtasks,
                None => Seq::empty(),
            };
            let r = lists_from(bs, w.subtasks, xv.subtasks, false, 0);
            (TaskV { subtasks: r.0, ..w }, r.1)
        },
    }
}

/// The keys of a list merge.
pub open spec fn list_keys(bs: Seq<TaskV>, ws: Seq<TaskV>, xs: Seq<TaskV>) -> Seq<Seq<char>> {
    all_keys(list_entries(bs), list_entries(ws), list_entries(xs))
}

/// What one key contributes to a list merge: the tasks it puts in the list
/// and the conflicts it reports. With `guard`, a key whose title repeats is
/// declined: ours is kept as it is, and a conflict is reported when they
/// have it too.
pub open spec fn list_step(bs: Seq<TaskV>, ws: Seq<TaskV>, xs: Seq<TaskV>, guard: bool, k: Seq<char>) -> (
    Seq<TaskV>,
    Seq<ConflictV>,
)
    decreases size_from(ws, 0) + size_from(xs, 0), 1int, 0int,
{
    let (be, oe, te) = (list_entries(bs), list_entries(ws), list_entries(xs));
    let (b, o, t) = (lookup(be, k), lookup(oe, k), lookup(te, k));
    proof {
        lemma_lookup_size(ws, k);
        lemma_lookup_size(xs, k);
    }
    if guard && ambiguous(k, be, oe, te) {
        match o {
            Some(ov) => (seq![ov.1], if t is Some { seq![(k, ConflictReason::AmbiguousTitle)] } else { Seq::empty() }),
            None => (Seq::empty(), Seq::empty()),
        }
    } else {
        match decide(b, o, t) {
            Verdict::Delete => (Seq::empty(), Seq::empty()),
            Verdict::Ours => match o {
                Some(ov) => {
                    let m = merged(ov.1, task_of(b), task_of(t));
                    (seq![m.0], m.1)
                },
                None => (Seq::empty(), Seq::empty()),
            },
            Verdict::Theirs => match t {
                Some(tv) => {
                    let m = merged(tv.1, task_of(b), task_of(o));
                    (seq![m.0], m.1)
                },
                None => (Seq::empty(), Seq::empty()),
            },
            Verdict::Conflict(reason) => match o {
                Some(ov) => {
                    let m = merged(ov.1, task_of(b), task_of(t));
                    (seq![m.0], seq![(k, reason)] + m.1)
                },
                None => match t {
                    Some(tv) => (seq![tv.1], Seq::empty()),
                    None => (Seq::empty(), Seq::empty()),
                },
            },
        }
    }
}

/// The merge of three sibling lists from key `j` on.
pub open spec fn lists_from(bs: Seq<TaskV>, ws: Seq<TaskV>, xs: Seq<TaskV>, guard: bool, j: int) -> (
    Seq<TaskV>,
    Seq<ConflictV>,
)
    decreases size_from(ws, 0) + size_from(xs, 0), 2int, list_keys(bs, ws, xs).len() - j,
{
    let keys = list_keys(bs, ws, xs);
    if j < 0 || j >= keys.len() {
        (Seq::empty(), Seq::empty())
    } else {
        let here = list_step(bs, ws, xs, guard, keys[j]);
        let rest = lists_from(bs, ws, xs, guard, j + 1);
        (here.0 + rest.0, here.1 + rest.1)
    }
}


// ---------------------------------------------------------------------------
// Tracks: the whole merge
// ---------------------------------------------------------------------------

/// The top-level tasks of a node with their section.
pub open spec fn node_entries(n: NodeV) -> Seq<EntryV> {
    match n {
        NodeV::Section { kind, tasks, .. } => tasks.map_values(|t: TaskV| (kind, t)),
        NodeV::Literal(_) => Seq::empty(),
    }
}

pub open spec fn entries_upto(nodes: Seq<NodeV>, n: int) -> Seq<EntryV>
    decreases n,
{
    if n <= 0 {
        Seq::empty()
    } else {
        entries_upto(nodes, n - 1) + node_entries(nodes[n - 1])
    }
}

/// The top-level tasks of a track, in file order, with their sections.
pub open spec fn track_entries(nodes: Seq<NodeV>) -> Seq<EntryV> {
    entries_upto(nodes, nodes.len() as int)
}

/// What one key contributes to a track merge: the entries it places, the
/// conflicts it reports, and whether it took theirs or deleted.
pub open spec fn track_step(b: Seq<EntryV>, o: Seq<EntryV>, t: Seq<EntryV>, k: Seq<char>) -> (
    Seq<EntryV>,
    Seq<ConflictV>,
    nat,
    nat,
) {
    let (be, oe, te) = (lookup(b, k), lookup(o, k), lookup(t, k));
    if ambiguous(k, b, o, t) {
        (with_key(o, k), if oe is Some && te is Some { seq![(k, ConflictReason::AmbiguousTitle)] } else { Seq::empty() }, 0, 0)
    } else {
        decided_step(be, oe, te, k)
    }
}

/// Every entry of `es` holding key `k`, in order.
pub open spec fn with_key(es: Seq<EntryV>, k: Seq<char>) -> Seq<EntryV>
    decreases es.len(),
{
    if es.len() == 0 {
        Seq::empty()
    } else if key_of(es.last().1) == k {
        with_key(es.drop_last(), k).push(es.last())
    } else {
        with_key(es.drop_last(), k)
    }
}

pub proof fn lemma_with_key_lookup(es: Seq<EntryV>, k: Seq<char>)
    ensures
        (with_key(es, k).len() > 0) == (lookup(es, k) is Some),
    decreases es.len(),
{
    if es.len() > 0 {
        lemma_with_key_lookup(es.drop_last(), k);
    }
}

/// What one key that is not ambiguous contributes to a track merge.
pub open spec fn decided_step(be: Option<EntryV>, oe: Option<EntryV>, te: Option<EntryV>, k: Seq<char>) -> (
    Seq<EntryV>,
    Seq<ConflictV>,
    nat,
    nat,
) {
    match decide(be, oe, te) {
        Verdict::Delete => (Seq::empty(), Seq::empty(), 0, 1),
        Verdict::Ours => {
            let m = merged(the_task(oe), task_of(be), task_of(te));
            (seq![(section_for(be, oe, te), m.0)], m.1, 0, 0)
        },
        Verdict::Theirs => {
            let m = merged(the_task(te), task_of(be), task_of(oe));
            (seq![(section_for(be, oe, te), m.0)], m.1, 1, 0)
        },
        Verdict::Conflict(reason) => match (oe, te) {
            (Some(ov), Some(tv)) => {
                let m = merged(ov.1, task_of(be), Some(tv.1));
                (seq![(section_for(be, oe, te), m.0)], seq![(k, reason)] + m.1, 0, 0)
            },
            (Some(ov), None) => (seq![ov], seq![(k, reason)], 0, 0),
            (None, Some(tv)) => (seq![tv], Seq::empty(), 1, 0),
            (None, None) => (Seq::empty(), Seq::empty(), 0, 0),
        },
    }
}

/// The track merge over the first `n` keys.
pub open spec fn track_upto(b: Seq<EntryV>, o: Seq<EntryV>, t: Seq<EntryV>, keys: Seq<Seq<char>>, n: int) -> (
    Seq<EntryV>,
    Seq<ConflictV>,
    nat,
    nat,
)
    decreases n,
{
    if n <= 0 {
        (Seq::empty(), Seq::empty(), 0, 0)
    } else {
        let prev = track_upto(b, o, t, keys, n - 1);
        let s = track_step(b, o, t, keys[n - 1]);
        (prev.0 + s.0, prev.1 + s.1, prev.2 + s.2, prev.3 + s.3)
    }
}

/// Whether some resolved entry belongs in a section of `kind`.
pub open spec fn has_kind(es: Seq<EntryV>, kind: SectionKind) -> bool {
    exists|i: int| 0 <= i < es.len() && (#[trigger] es[i]).0 == kind
}

/// The resolved tasks of one section, in order.
pub open spec fn of_kind(es: Seq<EntryV>, kind: SectionKind) -> Seq<TaskV>
    decreases es.len(),
{
    if es.len() == 0 {
        Seq::empty()
    } else if es.last().0 == kind {
        of_kind(es.drop_last(), kind).push(es.last().1)
    } else {
        of_kind(es.drop_last(), kind)
    }
}

pub open spec fn header_of(n: NodeV) -> Seq<Seq<char>> {
    match n {
        NodeV::Section { header_lines, .. } => header_lines,
        NodeV::Literal(_) => Seq::empty(),
    }
}

/// Ours' nodes with a section of `kind` added, where it belongs, when a
/// resolved task needs one and ours lacks it; its header is theirs when
/// they have the section.
pub open spec fn with_missing(nodes: Seq<NodeV>, theirs: Seq<NodeV>, es: Seq<EntryV>, kind: SectionKind) -> Seq<NodeV> {
    if has_kind(es, kind) && section_pos(nodes, kind) is None {
        let header = match section_pos(theirs, kind) {
            Some(i) => header_of(theirs[i]),
            None => seq![section_heading(kind), Seq::<char>::empty()],
        };
        nodes.insert(insert_pos_v(nodes, kind), NodeV::Section { kind, header_lines: header, tasks: Seq::empty() })
    } else {
        nodes
    }
}

pub open spec fn grown(ours: Seq<NodeV>, theirs: Seq<NodeV>, es: Seq<EntryV>) -> Seq<NodeV> {
    with_missing(
        with_missing(with_missing(ours, theirs, es, SectionKind::Backlog), theirs, es, SectionKind::Parked),
        theirs,
        es,
        SectionKind::Done,
    )
}

/// The nodes with each section's tasks replaced: the first section of each
/// kind takes every resolved task of that kind, later ones none.
pub open spec fn filled(nodes: Seq<NodeV>, es: Seq<EntryV>) -> Seq<NodeV> {
    Seq::new(
        nodes.len(),
        |i: int|
            match nodes[i] {
                NodeV::Section { kind, header_lines, .. } => NodeV::Section {
                    kind,
                    header_lines,
                    tasks: if section_pos(nodes, kind) == Some(i) { of_kind(es, kind) } else { Seq::empty() },
                },
                NodeV::Literal(l) => NodeV::Literal(l),
            },
    )
}

/// The merged track: ours' structure (headers, literal text, section
/// order), holding the resolved tasks.
pub open spec fn rebuilt(ours: Seq<NodeV>, theirs: Seq<NodeV>, es: Seq<EntryV>) -> Seq<NodeV> {
    filled(grown(ours, theirs, es), es)
}

/// The result of merging one track.
#[derive(Debug)]
pub struct Reconciled {
    pub track: Track,
    pub conflicts: Vec<Conflict>,
    /// Tasks whose version came from the other writer.
    pub took_theirs: usize,
    /// Tasks removed because both sides agree they are gone.
    pub deleted: usize,
}

impl Reconciled {
    /// Whether the merge took anything from them, which is what makes the
    /// result differ from what we already had.
    pub fn changed_anything(&self) -> (r: bool)
        ensures
            r == (self.took_theirs > 0 || self.deleted > 0),
    {
        self.took_theirs > 0 || self.deleted > 0
    }
}

pub open spec fn conflicts_v(v: Seq<Conflict>) -> Seq<ConflictV> {
    v.map_values(|c: Conflict| (c.key@, c.reason))
}

pub open spec fn entries_v(v: Seq<(SectionKind, Task)>) -> Seq<EntryV> {
    v.map_values(|e: (SectionKind, Task)| (e.0, e.1@))
}

pub open spec fn opt_entry_v(e: Option<&(SectionKind, Task)>) -> Option<EntryV> {
    match e {
        Some(x) => Some((x.0, x.1@)),
        None => None,
    }
}

pub open spec fn opt_task_v(t: Option<&Task>) -> Option<TaskV> {
    match t {
        Some(x) => Some(x@),
        None => None,
    }
}

// --- exec helpers -------------------------------------------------------------

fn list_entries_exec(ts: &[Task]) -> (r: Vec<(SectionKind, Task)>)
    ensures
        entries_v(r@) == list_entries(tasks_v(ts@)),
{
    let mut out: Vec<(SectionKind, Task)> = Vec::new();
    let mut i: usize = 0;
    while i < ts.len()
        invariant
            i <= ts@.len(),
            entries_v(out@) == list_entries(tasks_v(ts@)).take(i as int),
        decreases ts.len() - i,
    {
        let ghost before = entries_v(out@);
        out.push((SectionKind::Backlog, ts[i].duplicate()));
        assert(tasks_v(ts@)[i as int] == ts@[i as int]@);
        assert(list_entries(tasks_v(ts@))[i as int] == (SectionKind::Backlog, ts@[i as int]@));
        assert(entries_v(out@) =~= before.push((SectionKind::Backlog, ts@[i as int]@)));
        assert(entries_v(out@) =~= list_entries(tasks_v(ts@)).take(i + 1));
        i += 1;
    }
    assert(list_entries(tasks_v(ts@)).take(ts@.len() as int) =~= list_entries(tasks_v(ts@)));
    out
}

fn track_entries_exec(track: &Track) -> (r: Vec<(SectionKind, Task)>)
    ensures
        entries_v(r@) == track_entries(track@),
{
    let mut out: Vec<(SectionKind, Task)> = Vec::new();
    let mut i: usize = 0;
    while i < track.nodes.len()
        invariant
            i <= track.nodes@.len(),
            entries_v(out@) == entries_upto(track@, i as int),
        decreases track.nodes.len() - i,
    {
        match &track.nodes[i] {
            TrackNode::Section { kind, tasks, .. } => {
                let ghost before = entries_v(out@);
                let ghost nv = track@[i as int];
                let mut k: usize = 0;
                while k < tasks.len()
                    invariant
                        k <= tasks@.len(),
                        i < track@.len(),
                        nv == track@[i as int],
                        nv == (NodeV::Section { kind: *kind, header_lines: node_header(nv), tasks: tasks_v(tasks@) }),
                        entries_v(out@) == before + node_entries(nv).take(k as int),
                    decreases tasks.len() - k,
                {
                    let ghost mid = entries_v(out@);
                    out.push((*kind, tasks[k].duplicate()));
                    assert(tasks_v(tasks@)[k as int] == tasks@[k as int]@);
                    assert(node_entries(nv)[k as int] == (*kind, tasks@[k as int]@));
                    assert(entries_v(out@) =~= mid.push((*kind, tasks@[k as int]@)));
                    assert(entries_v(out@) =~= before + node_entries(nv).take(k + 1));
                    k += 1;
                }
                assert(node_entries(nv).take(tasks@.len() as int) =~= node_entries(nv));
            },
            TrackNode::Literal(_) => {
                assert(node_entries(track@[i as int]) =~= Seq::empty());
                assert(entries_v(out@) =~= entries_v(out@) + node_entries(track@[i as int]));
            },
        }
        i += 1;
    }
    out
}

pub open spec fn node_header(n: NodeV) -> Seq<Seq<char>> {
    header_of(n)
}

fn entry_keys_exec(es: &Vec<(SectionKind, Task)>) -> (r: Vec<String>)
    ensures
        strs_v(r@) == entry_keys(entries_v(es@)),
{
    let mut out: Vec<String> = Vec::new();
    let mut i: usize = 0;
    while i < es.len()
        invariant
            i <= es@.len(),
            strs_v(out@) == entry_keys(entries_v(es@)).take(i as int),
        decreases es.len() - i,
    {
        let ghost before = strs_v(out@);
        out.push(task_key(&es[i].1));
        assert(entry_keys(entries_v(es@))[i as int] == key_of(es@[i as int].1@));
        assert(strs_v(out@) =~= before.push(key_of(es@[i as int].1@)));
        assert(strs_v(out@) =~= entry_keys(entries_v(es@)).take(i + 1));
        i += 1;
    }
    assert(entry_keys(entries_v(es@)).take(es@.len() as int) =~= entry_keys(entries_v(es@)));
    out
}

pub(crate) fn string_in(v: &Vec<String>, x: &str) -> (r: bool)
    ensures
        r == strs_v(v@).contains(x@),
{
    let mut i: usize = 0;
    while i < v.len()
        invariant
            i <= v@.len(),
            forall|k: int| 0 <= k < i ==> strs_v(v@)[k] != x@,
        decreases v.len() - i,
    {
        if str_eq(v[i].as_str(), x) {
            assert(strs_v(v@)[i as int] == x@);
            return true;
        }
        i += 1;
    }
    false
}

/// `out` grown by the keys of `src` it does not hold yet.
fn extend_dedup(out: &mut Vec<String>, src: &Vec<String>, Ghost(pre): Ghost<Seq<Seq<char>>>)
    requires
        strs_v(old(out)@) == dedup(pre),
    ensures
        strs_v(final(out)@) == dedup(pre + strs_v(src@)),
{
    let ghost sv = strs_v(src@);
    let mut i: usize = 0;
    while i < src.len()
        invariant
            i <= src@.len(),
            sv == strs_v(src@),
            strs_v(out@) == dedup(pre + sv.take(i as int)),
        decreases src.len() - i,
    {
        let k = src[i].as_str();
        assert(sv[i as int] == k@);
        assert((pre + sv.take(i + 1)).drop_last() =~= pre + sv.take(i as int));
        assert((pre + sv.take(i + 1)).last() == k@);
        if !string_in(out, k) {
            let ghost before = strs_v(out@);
            out.push(String::from_str(k));
            assert(strs_v(out@) =~= before.push(k@));
        }
        i += 1;
    }
    assert(sv.take(sv.len() as int) =~= sv);
}

/// The keys without repeats, each where it first occurs.
pub(crate) fn dedup_exec(ks: &Vec<String>) -> (r: Vec<String>)
    ensures
        strs_v(r@) == dedup(strs_v(ks@)),
{
    let mut out: Vec<String> = Vec::new();
    assert(strs_v(out@) =~= dedup(Seq::empty()));
    extend_dedup(&mut out, ks, Ghost(Seq::empty()));
    assert(Seq::<Seq<char>>::empty() + strs_v(ks@) =~= strs_v(ks@));
    out
}

/// Every key of the three lists, ours first, without repeats.
fn all_keys_exec(bk: &Vec<String>, ok: &Vec<String>, tk: &Vec<String>) -> (r: Vec<String>)
    ensures
        strs_v(r@) == dedup(strs_v(ok@) + strs_v(tk@) + strs_v(bk@)),
{
    let mut out: Vec<String> = Vec::new();
    assert(strs_v(out@) =~= dedup(Seq::empty()));
    extend_dedup(&mut out, ok, Ghost(Seq::empty()));
    assert(Seq::<Seq<char>>::empty() + strs_v(ok@) =~= strs_v(ok@));
    extend_dedup(&mut out, tk, Ghost(strs_v(ok@)));
    extend_dedup(&mut out, bk, Ghost(strs_v(ok@) + strs_v(tk@)));
    out
}

/// The index of the last entry holding key `k`.
fn lookup_exec(es: &Vec<(SectionKind, Task)>, keys: &Vec<String>, k: &str) -> (r: Option<usize>)
    requires
        strs_v(keys@) == entry_keys(entries_v(es@)),
    ensures
        match r {
            Some(i) => i < es@.len() && lookup(entries_v(es@), k@) == Some(entries_v(es@)[i as int]),
            None => lookup(entries_v(es@), k@) is None,
        },
{
    let ghost ev = entries_v(es@);
    assert(strs_v(keys@).len() == keys@.len());
    assert(entry_keys(ev).len() == ev.len());
    assert(keys@.len() == ev.len());
    let mut i = keys.len();
    assert(ev.take(i as int) =~= ev);
    while i > 0
        invariant
            i <= keys@.len() == ev.len(),
            ev == entries_v(es@),
            strs_v(keys@) == entry_keys(ev),
            lookup(ev, k@) == lookup(ev.take(i as int), k@),
        decreases i,
    {
        let j = i - 1;
        assert(ev.take(i as int).drop_last() =~= ev.take(j as int));
        assert(ev.take(i as int).last() == ev[j as int]);
        assert(strs_v(keys@)[j as int] == key_of(ev[j as int].1));
        if str_eq(keys[j].as_str(), k) {
            return Some(j);
        }
        i = j;
    }
    assert(ev.take(0) =~= Seq::<EntryV>::empty());
    None
}

fn metas_equal(a: &Vec<Metadata>, b: &Vec<Metadata>) -> (r: bool)
    ensures
        r == (metas_v(a@) == metas_v(b@)),
{
    if a.len() != b.len() {
        assert(metas_v(a@).len() != metas_v(b@).len());
        return false;
    }
    let mut i: usize = 0;
    while i < a.len()
        invariant
            i <= a@.len(),
            a@.len() == b@.len(),
            forall|k: int| 0 <= k < i ==> meta_v(a@[k]) == meta_v(b@[k]),
        decreases a.len() - i,
    {
        let same = match (&a[i], &b[i]) {
            (Metadata::Dep(x), Metadata::Dep(y)) => strings_equal(x, y),
            (Metadata::Ref(x), Metadata::Ref(y)) => strings_equal(x, y),
            (Metadata::Spec(x), Metadata::Spec(y)) => str_eq(x.as_str(), y.as_str()),
            (Metadata::Note(x), Metadata::Note(y)) => str_eq(x.as_str(), y.as_str()),
            (Metadata::Added(x), Metadata::Added(y)) => str_eq(x.as_str(), y.as_str()),
            (Metadata::Resolved(x), Metadata::Resolved(y)) => str_eq(x.as_str(), y.as_str()),
            (Metadata::Conflict(x), Metadata::Conflict(y)) => str_eq(x.as_str(), y.as_str()),
            _ => false,
        };
        if !same {
            assert(metas_v(a@)[i as int] != metas_v(b@)[i as int]);
            return false;
        }
        i += 1;
    }
    assert(metas_v(a@) =~= metas_v(b@));
    true
}

fn opt_strings_equal(a: &Option<String>, b: &Option<String>) -> (r: bool)
    ensures
        r == (opt_str_v(*a) == opt_str_v(*b)),
{
    match (a, b) {
        (Some(x), Some(y)) => str_eq(x.as_str(), y.as_str()),
        (None, None) => true,
        _ => false,
    }
}

fn same_exec(a: &(SectionKind, Task), b: &(SectionKind, Task)) -> (r: bool)
    ensures
        r == same((a.0, a.1@), (b.0, b.1@)),
{
    a.0 == b.0 && a.1.state == b.1.state && str_eq(a.1.title.as_str(), b.1.title.as_str())
        && strings_equal(&a.1.tags, &b.1.tags) && metas_equal(&a.1.metadata, &b.1.metadata)
        && opt_strings_equal(&a.1.id, &b.1.id)
}

fn decide_exec(b: Option<&(SectionKind, Task)>, o: Option<&(SectionKind, Task)>, t: Option<&(SectionKind, Task)>) -> (r: Verdict)
    ensures
        r == decide(opt_entry_v(b), opt_entry_v(o), opt_entry_v(t)),
{
    match (b, o, t) {
        (_, None, None) => Verdict::Delete,
        (None, Some(_), None) => Verdict::Ours,
        (None, None, Some(_)) => Verdict::Theirs,
        (None, Some(o), Some(t)) => if same_exec(o, t) {
            Verdict::Ours
        } else {
            Verdict::Conflict(ConflictReason::BothEdited)
        },
        (Some(b), Some(o), None) => if same_exec(b, o) {
            Verdict::Delete
        } else {
            Verdict::Conflict(ConflictReason::EditedAndDeleted)
        },
        (Some(b), None, Some(t)) => if same_exec(b, t) {
            Verdict::Delete
        } else {
            Verdict::Conflict(ConflictReason::DeletedAndEdited)
        },
        (Some(b), Some(o), Some(t)) => {
            let bo = same_exec(b, o);
            let bt = same_exec(b, t);
            if !bo && !bt {
                if same_exec(o, t) {
                    Verdict::Ours
                } else {
                    Verdict::Conflict(ConflictReason::BothEdited)
                }
            } else if bo && !bt {
                Verdict::Theirs
            } else {
                Verdict::Ours
            }
        },
    }
}

fn section_for_exec(b: Option<&(SectionKind, Task)>, o: Option<&(SectionKind, Task)>, t: Option<&(SectionKind, Task)>) -> (r: SectionKind)
    ensures
        r == section_for(opt_entry_v(b), opt_entry_v(o), opt_entry_v(t)),
{
    match (b, o, t) {
        (Some(b), Some(o), Some(t)) => if o.0 == b.0 && t.0 != b.0 { t.0 } else { o.0 },
        (_, Some(o), _) => o.0,
        (_, None, Some(t)) => t.0,
        (Some(b), None, None) => b.0,
        (None, None, None) => SectionKind::Backlog,
    }
}

/// A task's own lines, without its subtasks.
pub open spec fn own_lines_v(t: TaskV) -> Seq<Seq<char>> {
    crate::parse::task_lines_v(TaskV { subtasks: Seq::empty(), ..t }, 0)
}

/// A task's own lines, without its subtasks, for the recovery log.
fn own_lines(task: &Task) -> (r: Vec<String>)
    ensures
        crate::model::strs_v(r@) == own_lines_v(task@),
{
    let mut bare = task.duplicate();
    bare.subtasks = Vec::new();
    let ghost bv = bare@;
    assert(bv == TaskV { subtasks: Seq::empty(), ..task@ }) by {
        assert(bv.subtasks =~= Seq::<TaskV>::empty());
    }
    let v = vec![bare];
    let r = crate::parse::serialize_tasks(v.as_slice(), 0);
    proof {
        assert(tasks_v(v@) =~= seq![bv]);
        assert(crate::parse::tasks_lines_v(seq![bv], 0, 1) =~= Seq::<Seq<char>>::empty());
        assert(crate::parse::tasks_lines_v(seq![bv], 0, 0) =~= crate::parse::task_lines_v(bv, 0));
    }
    r
}

fn conflict_of(k: &str, reason: ConflictReason, theirs: Option<&Task>) -> (r: Conflict)
    ensures
        r.key@ == k@,
        r.reason == reason,
        crate::model::strs_v(r.theirs@) == match theirs {
            Some(t) => own_lines_v(t@),
            None => Seq::empty(),
        },
{
    let lines = match theirs {
        Some(t) => own_lines(t),
        None => Vec::new(),
    };
    assert(theirs is None ==> crate::model::strs_v(lines@) =~= Seq::<Seq<char>>::empty());
    Conflict { key: String::from_str(k), reason, theirs: lines }
}

fn entry_at(es: &Vec<(SectionKind, Task)>, i: Option<usize>) -> (r: Option<&(SectionKind, Task)>)
    requires
        i matches Some(j) ==> j < es@.len(),
    ensures
        opt_entry_v(r) == match i {
            Some(j) => Some(entries_v(es@)[j as int]),
            None => None,
        },
{
    match i {
        Some(j) => Some(&es[j]),
        None => None,
    }
}

fn task_at(e: Option<&(SectionKind, Task)>) -> (r: Option<&Task>)
    ensures
        opt_task_v(r) == task_of(opt_entry_v(e)),
{
    match e {
        Some(x) => Some(&x.1),
        None => None,
    }
}

/// Build the winning task, merging its subtasks against the other side's.
fn merged_task(w: &Task, b: Option<&Task>, x: Option<&Task>, conflicts: &mut Vec<Conflict>) -> (r: Task)
    ensures
        r@ == merged(w@, opt_task_v(b), opt_task_v(x)).0,
        conflicts_v(final(conflicts)@) == conflicts_v(old(conflicts)@) + merged(w@, opt_task_v(b), opt_task_v(x)).1,
    decreases size(w@) + size_opt(opt_task_v(x)), 0int, 0int,
{
    match x {
        None => {
            assert(conflicts_v(conflicts@) =~= conflicts_v(conflicts@) + Seq::<ConflictV>::empty());
            w.duplicate()
        },
        Some(xt) => {
            let empty: Vec<Task> = Vec::new();
            let bs: &[Task] = match b {
                Some(bt) => bt.subtasks.as_slice(),
                None => empty.as_slice(),
            };
            proof {
                assert(tasks_v(w.subtasks@) =~= w@.subtasks);
                assert(tasks_v(xt.subtasks@) =~= xt@.subtasks);
                match b {
                    Some(bt) => {
                        assert(tasks_v(bt.subtasks@) =~= bt@.subtasks);
                    },
                    None => {
                        assert(tasks_v(empty@) =~= Seq::<TaskV>::empty());
                    },
                }
            }
            let subs = lists_exec(bs, w.subtasks.as_slice(), xt.subtasks.as_slice(), false, conflicts);
            let mut out = w.duplicate();
            out.subtasks = subs;
            assert(out@ =~= (TaskV { subtasks: tasks_v(subs@), ..w@ })) by {
                assert(out@.subtasks =~= tasks_v(subs@));
            }
            out
        },
    }
}

/// The merge of three sibling lists (see [`lists_from`]).
fn lists_exec(bs: &[Task], ws: &[Task], xs: &[Task], guard: bool, conflicts: &mut Vec<Conflict>) -> (r: Vec<Task>)
    ensures
        tasks_v(r@) == lists_from(tasks_v(bs@), tasks_v(ws@), tasks_v(xs@), guard, 0).0,
        conflicts_v(final(conflicts)@) == conflicts_v(old(conflicts)@) + lists_from(
            tasks_v(bs@),
            tasks_v(ws@),
            tasks_v(xs@),
            guard,
            0,
        ).1,
    decreases size_from(tasks_v(ws@), 0) + size_from(tasks_v(xs@), 0), 2int, 0int,
{
    let ghost (bv, wv, xv) = (tasks_v(bs@), tasks_v(ws@), tasks_v(xs@));
    let be = list_entries_exec(bs);
    let oe = list_entries_exec(ws);
    let te = list_entries_exec(xs);
    let bk = entry_keys_exec(&be);
    let ok = entry_keys_exec(&oe);
    let tk = entry_keys_exec(&te);
    let keys = all_keys_exec(&bk, &ok, &tk);
    let ghost kv = strs_v(keys@);
    assert(kv == list_keys(bv, wv, xv));
    let ghost c0 = conflicts_v(conflicts@);
    let mut out: Vec<Task> = Vec::new();
    let mut j: usize = 0;
    while j < keys.len()
        invariant
            j <= keys@.len(),
            kv == strs_v(keys@),
            kv == list_keys(bv, wv, xv),
            entries_v(be@) == list_entries(bv),
            entries_v(oe@) == list_entries(wv),
            entries_v(te@) == list_entries(xv),
            strs_v(bk@) == entry_keys(entries_v(be@)),
            strs_v(ok@) == entry_keys(entries_v(oe@)),
            strs_v(tk@) == entry_keys(entries_v(te@)),
            bk@.len() == be@.len(),
            ok@.len() == oe@.len(),
            tk@.len() == te@.len(),
            bv == tasks_v(bs@),
            wv == tasks_v(ws@),
            xv == tasks_v(xs@),
            lists_from(bv, wv, xv, guard, 0).0 == tasks_v(out@) + lists_from(bv, wv, xv, guard, j as int).0,
            c0 + lists_from(bv, wv, xv, guard, 0).1 == conflicts_v(conflicts@) + lists_from(
                bv,
                wv,
                xv,
                guard,
                j as int,
            ).1,
        decreases keys.len() - j,
    {
        let k = keys[j].as_str();
        assert(k@ == kv[j as int]);
        let ghost step = list_step(bv, wv, xv, guard, k@);
        let ghost out0 = tasks_v(out@);
        let ghost cs0 = conflicts_v(conflicts@);
        list_step_exec(bs, ws, xs, &be, &oe, &te, &bk, &ok, &tk, guard, k, &mut out, conflicts);
        proof {
            assert(tasks_v(out@) =~= out0 + step.0);
            assert(conflicts_v(conflicts@) =~= cs0 + step.1);
            assert(lists_from(bv, wv, xv, guard, j as int) == (
                step.0 + lists_from(bv, wv, xv, guard, j + 1).0,
                step.1 + lists_from(bv, wv, xv, guard, j + 1).1,
            ));
            assert(tasks_v(out@) + lists_from(bv, wv, xv, guard, j + 1).0 =~= out0 + lists_from(bv, wv, xv, guard, j as int).0);
            assert(conflicts_v(conflicts@) + lists_from(bv, wv, xv, guard, j + 1).1 =~= cs0 + lists_from(bv, wv, xv, guard, j as int).1);
        }
        j += 1;
    }
    proof {
        assert(lists_from(bv, wv, xv, guard, j as int).0 =~= Seq::<TaskV>::empty());
        assert(lists_from(bv, wv, xv, guard, j as int).1 =~= Seq::<ConflictV>::empty());
        assert(tasks_v(out@) =~= tasks_v(out@) + lists_from(bv, wv, xv, guard, j as int).0);
        assert(conflicts_v(conflicts@) =~= conflicts_v(conflicts@) + lists_from(bv, wv, xv, guard, j as int).1);
    }
    out
}


/// What one key contributes to a list merge (see [`list_step`]).
fn list_step_exec(
    bs: &[Task],
    ws: &[Task],
    xs: &[Task],
    be: &Vec<(SectionKind, Task)>,
    oe: &Vec<(SectionKind, Task)>,
    te: &Vec<(SectionKind, Task)>,
    bk: &Vec<String>,
    ok: &Vec<String>,
    tk: &Vec<String>,
    guard: bool,
    k: &str,
    out: &mut Vec<Task>,
    conflicts: &mut Vec<Conflict>,
)
    requires
        entries_v(be@) == list_entries(tasks_v(bs@)),
        entries_v(oe@) == list_entries(tasks_v(ws@)),
        entries_v(te@) == list_entries(tasks_v(xs@)),
        strs_v(bk@) == entry_keys(entries_v(be@)),
        strs_v(ok@) == entry_keys(entries_v(oe@)),
        strs_v(tk@) == entry_keys(entries_v(te@)),
    ensures
        tasks_v(final(out)@) == tasks_v(old(out)@) + list_step(tasks_v(bs@), tasks_v(ws@), tasks_v(xs@), guard, k@).0,
        conflicts_v(final(conflicts)@) == conflicts_v(old(conflicts)@) + list_step(
            tasks_v(bs@),
            tasks_v(ws@),
            tasks_v(xs@),
            guard,
            k@,
        ).1,
    decreases size_from(tasks_v(ws@), 0) + size_from(tasks_v(xs@), 0), 1int, 0int,
{
    let ghost (bv, wv, xv) = (tasks_v(bs@), tasks_v(ws@), tasks_v(xs@));
    let bi = lookup_exec(be, bk, k);
    let oi = lookup_exec(oe, ok, k);
    let ti = lookup_exec(te, tk, k);
    let b = entry_at(be, bi);
    let o = entry_at(oe, oi);
    let t = entry_at(te, ti);
    assert(opt_entry_v(b) == lookup(list_entries(bv), k@));
    assert(opt_entry_v(o) == lookup(list_entries(wv), k@));
    assert(opt_entry_v(t) == lookup(list_entries(xv), k@));
    proof {
        lemma_lookup_size(wv, k@);
        lemma_lookup_size(xv, k@);
    }
    let ghost step = list_step(bv, wv, xv, guard, k@);
    let ghost out0 = tasks_v(out@);
    let ghost cs0 = conflicts_v(conflicts@);
    let amb = guard && {
        let cb = count_key(bk, bk.len(), k);
        let co = count_key(ok, ok.len(), k);
        let ct = count_key(tk, tk.len(), k);
        let kc = chars_of(k);
        kc.len() > 0 && kc[0] == '~' && (cb > 1 || co > 1 || ct > 1)
    };
    proof {
        assert(strs_v(bk@).take(bk@.len() as int) =~= strs_v(bk@));
        assert(strs_v(ok@).take(ok@.len() as int) =~= strs_v(ok@));
        assert(strs_v(tk@).take(tk@.len() as int) =~= strs_v(tk@));
    }
    assert(amb == (guard && ambiguous(k@, list_entries(bv), list_entries(wv), list_entries(xv))));
    if amb {
        match o {
            Some(oe2) => {
                out.push(oe2.1.duplicate());
                if t.is_some() {
                    conflicts.push(conflict_of(k, ConflictReason::AmbiguousTitle, task_at(t)));
                }
            },
            None => {},
        }
    } else {
        match decide_exec(b, o, t) {
            Verdict::Delete => {},
            Verdict::Ours => {
                match o {
                    Some(oe2) => {
                        let m = merged_task(&oe2.1, task_at(b), task_at(t), conflicts);
                        out.push(m);
                    },
                    None => {},
                }
            },
            Verdict::Theirs => {
                match t {
                    Some(te2) => {
                        let m = merged_task(&te2.1, task_at(b), task_at(o), conflicts);
                        out.push(m);
                    },
                    None => {},
                }
            },
            Verdict::Conflict(reason) => {
                match o {
                    Some(oe2) => {
                        conflicts.push(conflict_of(k, reason, task_at(t)));
                        let m = merged_task(&oe2.1, task_at(b), task_at(t), conflicts);
                        out.push(m);
                    },
                    None => match t {
                        Some(te2) => {
                            out.push(te2.1.duplicate());
                        },
                        None => {},
                    },
                }
            },
        }
    }
    assert(tasks_v(out@) =~= out0 + step.0);
    assert(conflicts_v(conflicts@) =~= cs0 + step.1);
}


// --- the track merge -----------------------------------------------------------

/// The whole track merge over every key: the entries placed, the conflicts,
/// how many came from theirs and how many were deleted.
pub open spec fn track_merge(b: Seq<EntryV>, o: Seq<EntryV>, t: Seq<EntryV>) -> (
    Seq<EntryV>,
    Seq<ConflictV>,
    nat,
    nat,
) {
    track_upto(b, o, t, all_keys(b, o, t), all_keys(b, o, t).len() as int)
}

fn track_step_exec(
    be: &Vec<(SectionKind, Task)>,
    oe: &Vec<(SectionKind, Task)>,
    te: &Vec<(SectionKind, Task)>,
    bk: &Vec<String>,
    ok: &Vec<String>,
    tk: &Vec<String>,
    k: &str,
    resolved: &mut Vec<(SectionKind, Task)>,
    conflicts: &mut Vec<Conflict>,
) -> (r: (bool, bool))
    requires
        strs_v(bk@) == entry_keys(entries_v(be@)),
        strs_v(ok@) == entry_keys(entries_v(oe@)),
        strs_v(tk@) == entry_keys(entries_v(te@)),
    ensures
        ({
            let s = track_step(entries_v(be@), entries_v(oe@), entries_v(te@), k@);
            &&& entries_v(final(resolved)@) == entries_v(old(resolved)@) + s.0
            &&& conflicts_v(final(conflicts)@) == conflicts_v(old(conflicts)@) + s.1
            &&& (if r.0 { 1nat } else { 0nat }) == s.2
            &&& (if r.1 { 1nat } else { 0nat }) == s.3
        }),
{
    let ghost (bv, ov, tv) = (entries_v(be@), entries_v(oe@), entries_v(te@));
    let bi = lookup_exec(be, bk, k);
    let oi = lookup_exec(oe, ok, k);
    let ti = lookup_exec(te, tk, k);
    let b = entry_at(be, bi);
    let o = entry_at(oe, oi);
    let t = entry_at(te, ti);
    let ghost step = track_step(bv, ov, tv, k@);
    let ghost r0 = entries_v(resolved@);
    let ghost cs0 = conflicts_v(conflicts@);
    let cb = count_key(bk, bk.len(), k);
    let co = count_key(ok, ok.len(), k);
    let ct = count_key(tk, tk.len(), k);
    let kc = chars_of(k);
    let amb = kc.len() > 0 && kc[0] == '~' && (cb > 1 || co > 1 || ct > 1);
    proof {
        assert(strs_v(bk@).take(bk@.len() as int) =~= strs_v(bk@));
        assert(strs_v(ok@).take(ok@.len() as int) =~= strs_v(ok@));
        assert(strs_v(tk@).take(tk@.len() as int) =~= strs_v(tk@));
    }
    assert(amb == ambiguous(k@, bv, ov, tv));
    let mut took = false;
    let mut deleted = false;
    if amb {
        assert(strs_v(ok@).len() == entry_keys(ov).len());
        let mut i: usize = 0;
        while i < oe.len()
            invariant
                i <= oe@.len(),
                ov == entries_v(oe@),
                strs_v(ok@) == entry_keys(ov),
                ok@.len() == oe@.len(),
                entries_v(resolved@) == r0 + with_key(ov.take(i as int), k@),
                conflicts_v(conflicts@) == cs0,
            decreases oe.len() - i,
        {
            assert(ov.take(i + 1).drop_last() =~= ov.take(i as int));
            assert(ov.take(i + 1).last() == ov[i as int]);
            assert(strs_v(ok@)[i as int] == key_of(ov[i as int].1));
            assert(strs_v(ok@)[i as int] == ok@[i as int]@);
            let ghost rb = entries_v(resolved@);
            if str_eq(ok[i].as_str(), k) {
                let e = (oe[i].0, oe[i].1.duplicate());
                assert((e.0, e.1@) == ov[i as int]);
                resolved.push(e);
                assert(entries_v(resolved@) =~= rb.push(ov[i as int]));
            }
            i += 1;
        }
        assert(ov.take(i as int) =~= ov);
        proof { lemma_with_key_lookup(ov, k@); }
        if o.is_some() && t.is_some() {
            conflicts.push(conflict_of(k, ConflictReason::AmbiguousTitle, task_at(t)));
        }
    } else {
        let (t1, d1) = decided_step_exec(b, o, t, k, resolved, conflicts);
        took = t1;
        deleted = d1;
    }
    assert(entries_v(resolved@) =~= r0 + step.0);
    assert(conflicts_v(conflicts@) =~= cs0 + step.1);
    (took, deleted)
}

fn decided_step_exec(
    b: Option<&(SectionKind, Task)>,
    o: Option<&(SectionKind, Task)>,
    t: Option<&(SectionKind, Task)>,
    k: &str,
    resolved: &mut Vec<(SectionKind, Task)>,
    conflicts: &mut Vec<Conflict>,
) -> (r: (bool, bool))
    ensures
        ({
            let s = decided_step(opt_entry_v(b), opt_entry_v(o), opt_entry_v(t), k@);
            &&& entries_v(final(resolved)@) == entries_v(old(resolved)@) + s.0
            &&& conflicts_v(final(conflicts)@) == conflicts_v(old(conflicts)@) + s.1
            &&& (if r.0 { 1nat } else { 0nat }) == s.2
            &&& (if r.1 { 1nat } else { 0nat }) == s.3
        }),
{
    let ghost step = decided_step(opt_entry_v(b), opt_entry_v(o), opt_entry_v(t), k@);
    let ghost r0 = entries_v(resolved@);
    let ghost cs0 = conflicts_v(conflicts@);
    let mut took = false;
    let mut deleted = false;
    let sec = section_for_exec(b, o, t);
    match decide_exec(b, o, t) {
        Verdict::Delete => {
            deleted = true;
        },
        Verdict::Ours => {
            match o {
                Some(oe2) => {
                    let m = merged_task(&oe2.1, task_at(b), task_at(t), conflicts);
                    resolved.push((sec, m));
                },
                None => {
                    assert(false);
                },
            }
        },
        Verdict::Theirs => {
            match t {
                Some(te2) => {
                    let m = merged_task(&te2.1, task_at(b), task_at(o), conflicts);
                    resolved.push((sec, m));
                    took = true;
                },
                None => {
                    assert(false);
                },
            }
        },
        Verdict::Conflict(reason) => {
            match (o, t) {
                (Some(oe2), Some(te2)) => {
                    conflicts.push(conflict_of(k, reason, Some(&te2.1)));
                    let m = merged_task(&oe2.1, task_at(b), Some(&te2.1), conflicts);
                    resolved.push((sec, m));
                },
                (Some(oe2), None) => {
                    conflicts.push(conflict_of(k, reason, None));
                    resolved.push((oe2.0, oe2.1.duplicate()));
                },
                (None, Some(te2)) => {
                    resolved.push((te2.0, te2.1.duplicate()));
                    took = true;
                },
                (None, None) => {},
            }
        },
    }
    assert(entries_v(resolved@) =~= r0 + step.0);
    assert(conflicts_v(conflicts@) =~= cs0 + step.1);
    (took, deleted)
}

fn dup_strings_node(n: &TrackNode) -> (r: TrackNode)
    ensures
        node_v(r) == node_v(*n),
{
    match n {
        TrackNode::Literal(l) => TrackNode::Literal(clone_strings(l)),
        TrackNode::Section { kind, header_lines, tasks } => {
            let mut ts: Vec<Task> = Vec::new();
            let mut i: usize = 0;
            while i < tasks.len()
                invariant
                    i <= tasks@.len(),
                    tasks_v(ts@) == tasks_v(tasks@).take(i as int),
                decreases tasks.len() - i,
            {
                let ghost before = tasks_v(ts@);
                ts.push(tasks[i].duplicate());
                assert(tasks_v(ts@) =~= before.push(tasks@[i as int]@));
                assert(tasks_v(ts@) =~= tasks_v(tasks@).take(i + 1));
                i += 1;
            }
            assert(tasks_v(tasks@).take(tasks@.len() as int) =~= tasks_v(tasks@));
            TrackNode::Section { kind: *kind, header_lines: clone_strings(header_lines), tasks: ts }
        },
    }
}

/// An independent copy of a track.
pub fn dup_track(t: &Track) -> (r: Track)
    ensures
        r@ == t@,
{
    let mut nodes: Vec<TrackNode> = Vec::new();
    let mut i: usize = 0;
    while i < t.nodes.len()
        invariant
            i <= t.nodes@.len(),
            nodes_v(nodes@) == t@.take(i as int),
        decreases t.nodes.len() - i,
    {
        let ghost before = nodes_v(nodes@);
        nodes.push(dup_strings_node(&t.nodes[i]));
        assert(nodes_v(nodes@) =~= before.push(node_v(t.nodes@[i as int])));
        assert(nodes_v(nodes@) =~= t@.take(i + 1));
        i += 1;
    }
    assert(t@.take(t.nodes@.len() as int) =~= t@);
    Track { nodes }
}

fn has_kind_exec(es: &Vec<(SectionKind, Task)>, kind: SectionKind) -> (r: bool)
    ensures
        r == has_kind(entries_v(es@), kind),
{
    let mut i: usize = 0;
    while i < es.len()
        invariant
            i <= es@.len(),
            forall|k: int| 0 <= k < i ==> (#[trigger] entries_v(es@)[k]).0 != kind,
        decreases es.len() - i,
    {
        if es[i].0 == kind {
            assert(entries_v(es@)[i as int].0 == kind);
            return true;
        }
        i += 1;
    }
    false
}

fn of_kind_exec(es: &Vec<(SectionKind, Task)>, kind: SectionKind) -> (r: Vec<Task>)
    ensures
        tasks_v(r@) == of_kind(entries_v(es@), kind),
{
    let ghost ev = entries_v(es@);
    let mut out: Vec<Task> = Vec::new();
    let mut i: usize = 0;
    while i < es.len()
        invariant
            i <= es@.len(),
            ev == entries_v(es@),
            tasks_v(out@) == of_kind(ev.take(i as int), kind),
        decreases es.len() - i,
    {
        assert(ev.take(i + 1).drop_last() =~= ev.take(i as int));
        assert(ev[i as int] == (es@[i as int].0, es@[i as int].1@));
        if es[i].0 == kind {
            let ghost before = tasks_v(out@);
            out.push(es[i].1.duplicate());
            assert(tasks_v(out@) =~= before.push(ev[i as int].1));
        }
        i += 1;
    }
    assert(ev.take(ev.len() as int) =~= ev);
    out
}

fn header_for(theirs: &Track, kind: SectionKind) -> (r: Vec<String>)
    ensures
        strs_v(r@) == match section_pos(theirs@, kind) {
            Some(i) => header_of(theirs@[i]),
            None => seq![section_heading(kind), Seq::<char>::empty()],
        },
{
    proof { lemma_section_from(theirs@, kind, 0); }
    match theirs.section_index(kind) {
        Some(i) => match &theirs.nodes[i] {
            TrackNode::Section { header_lines, .. } => clone_strings(header_lines),
            TrackNode::Literal(_) => {
                assert(false);
                Vec::new()
            },
        },
        None => {
            let mut h: Vec<String> = Vec::new();
            h.push(String::from_str(section_heading_str(kind)));
            h.push(String::new());
            assert(strs_v(h@) =~= seq![section_heading(kind), Seq::<char>::empty()]);
            h
        },
    }
}

fn add_missing(track: &mut Track, theirs: &Track, es: &Vec<(SectionKind, Task)>, kind: SectionKind)
    ensures
        final(track)@ == with_missing(old(track)@, theirs@, entries_v(es@), kind),
{
    proof { lemma_section_from(track@, kind, 0); }
    if has_kind_exec(es, kind) && !track.has_section(kind) {
        let header = header_for(theirs, kind);
        let pos = track.insert_pos(kind);
        let ghost hv = strs_v(header@);
        track.nodes.insert(pos, TrackNode::Section { kind, header_lines: header, tasks: Vec::new() });
        assert(tasks_v(Seq::<Task>::empty()) =~= Seq::empty());
        assert(track@ =~= old(track)@.insert(pos as int, NodeV::Section { kind, header_lines: hv, tasks: Seq::empty() }));
    }
}

/// Put the resolved tasks back into a track, using ours for structure.
fn rebuild(ours: &Track, theirs: &Track, es: &Vec<(SectionKind, Task)>) -> (r: Track)
    ensures
        r@ == rebuilt(ours@, theirs@, entries_v(es@)),
{
    let mut track = dup_track(ours);
    add_missing(&mut track, theirs, es, SectionKind::Backlog);
    add_missing(&mut track, theirs, es, SectionKind::Parked);
    add_missing(&mut track, theirs, es, SectionKind::Done);
    let ghost g = track@;
    assert(g == grown(ours@, theirs@, entries_v(es@)));
    let mut nodes: Vec<TrackNode> = Vec::new();
    let mut i: usize = 0;
    while i < track.nodes.len()
        invariant
            i <= track.nodes@.len(),
            g == track@,
            nodes_v(nodes@) == filled(g, entries_v(es@)).take(i as int),
        decreases track.nodes.len() - i,
    {
        let ghost before = nodes_v(nodes@);
        let n = match &track.nodes[i] {
            TrackNode::Literal(l) => TrackNode::Literal(clone_strings(l)),
            TrackNode::Section { kind, header_lines, .. } => {
                let first = match track.section_index(*kind) {
                    Some(j) => j == i,
                    None => false,
                };
                let tasks = if first {
                    of_kind_exec(es, *kind)
                } else {
                    let e: Vec<Task> = Vec::new();
                    assert(tasks_v(e@) =~= Seq::<TaskV>::empty());
                    e
                };
                TrackNode::Section { kind: *kind, header_lines: clone_strings(header_lines), tasks }
            },
        };
        assert(node_v(n) == filled(g, entries_v(es@))[i as int]);
        let ghost nn = node_v(n);
        nodes.push(n);
        assert(nodes_v(nodes@) =~= before.push(nn));
        assert(nodes_v(nodes@) =~= filled(g, entries_v(es@)).take(i + 1));
        i += 1;
    }
    assert(filled(g, entries_v(es@)).take(g.len() as int) =~= filled(g, entries_v(es@)));
    Track { nodes }
}

/// Merge `ours` and `theirs` over their common ancestor `base` (see
/// [`track_merge`] and [`rebuilt`]).
pub fn reconcile_track(base: &Track, ours: &Track, theirs: &Track) -> (r: Reconciled)
    ensures
        ({
            let m = track_merge(track_entries(base@), track_entries(ours@), track_entries(theirs@));
            &&& r.track@ == rebuilt(ours@, theirs@, m.0)
            &&& conflicts_v(r.conflicts@) == m.1
            &&& r.took_theirs as nat == m.2
            &&& r.deleted as nat == m.3
        }),
{
    let be = track_entries_exec(base);
    let oe = track_entries_exec(ours);
    let te = track_entries_exec(theirs);
    let ghost (bv, ov, tv) = (entries_v(be@), entries_v(oe@), entries_v(te@));
    let bk = entry_keys_exec(&be);
    let ok = entry_keys_exec(&oe);
    let tk = entry_keys_exec(&te);
    let keys = all_keys_exec(&bk, &ok, &tk);
    let ghost kv = strs_v(keys@);
    let mut resolved: Vec<(SectionKind, Task)> = Vec::new();
    let mut conflicts: Vec<Conflict> = Vec::new();
    let mut took: usize = 0;
    let mut deleted: usize = 0;
    let mut j: usize = 0;
    while j < keys.len()
        invariant
            j <= keys@.len(),
            kv == strs_v(keys@),
            kv == all_keys(bv, ov, tv),
            bv == entries_v(be@),
            ov == entries_v(oe@),
            tv == entries_v(te@),
            strs_v(bk@) == entry_keys(bv),
            strs_v(ok@) == entry_keys(ov),
            strs_v(tk@) == entry_keys(tv),
            took <= j,
            deleted <= j,
            ({
                let m = track_upto(bv, ov, tv, kv, j as int);
                &&& entries_v(resolved@) == m.0
                &&& conflicts_v(conflicts@) == m.1
                &&& took as nat == m.2
                &&& deleted as nat == m.3
            }),
        decreases keys.len() - j,
    {
        let k = keys[j].as_str();
        assert(k@ == kv[j as int]);
        let (t1, d1) = track_step_exec(&be, &oe, &te, &bk, &ok, &tk, k, &mut resolved, &mut conflicts);
        if t1 {
            took += 1;
        }
        if d1 {
            deleted += 1;
        }
        j += 1;
    }
    let track = rebuild(ours, theirs, &resolved);
    Reconciled { track, conflicts, took_theirs: took, deleted }
}


/// Merge three versions of a flat task list, as a done archive holds:
/// by task identity, declining a title that repeats (see [`lists_from`]).
pub fn reconcile_archive_tasks(base: &[Task], ours: &[Task], theirs: &[Task]) -> (r: (Vec<Task>, Vec<Conflict>))
    ensures
        tasks_v(r.0@) == lists_from(tasks_v(base@), tasks_v(ours@), tasks_v(theirs@), true, 0).0,
        conflicts_v(r.1@) == lists_from(tasks_v(base@), tasks_v(ours@), tasks_v(theirs@), true, 0).1,
{
    let mut conflicts: Vec<Conflict> = Vec::new();
    let merged = lists_exec(base, ours, theirs, true, &mut conflicts);
    assert(conflicts_v(Seq::<Conflict>::empty()) =~= Seq::<ConflictV>::empty());
    assert(Seq::<ConflictV>::empty() + lists_from(tasks_v(base@), tasks_v(ours@), tasks_v(theirs@), true, 0).1
        =~= lists_from(tasks_v(base@), tasks_v(ours@), tasks_v(theirs@), true, 0).1);
    (merged, conflicts)
}

// ---------------------------------------------------------------------------
// Merging a list with itself
// ---------------------------------------------------------------------------

/// No two tasks of the list share a key.
pub open spec fn sibling_keys_unique(ts: Seq<TaskV>) -> bool {
    forall|i: int, j: int| 0 <= i < j < ts.len() ==> key_of(#[trigger] ts[i]) != key_of(#[trigger] ts[j])
}

/// No two sibling tasks share a key anywhere under `t`.
pub open spec fn keys_unique_in(t: TaskV) -> bool
    decreases t, 0int,
{
    sibling_keys_unique(t.subtasks) && keys_unique_from(t.subtasks, 0)
}

/// No two sibling tasks share a key anywhere under `ts[i..]`.
pub open spec fn keys_unique_from(ts: Seq<TaskV>, i: int) -> bool
    decreases ts, ts.len() - i,
{
    if i < 0 || i >= ts.len() {
        true
    } else {
        keys_unique_in(ts[i]) && keys_unique_from(ts, i + 1)
    }
}

/// No two sibling tasks share a key, in the list or at any depth under it.
pub open spec fn list_keys_unique(ts: Seq<TaskV>) -> bool {
    sibling_keys_unique(ts) && keys_unique_from(ts, 0)
}

proof fn lemma_unique_elem(ts: Seq<TaskV>, i: int, k: int)
    requires
        0 <= i <= k < ts.len(),
        keys_unique_from(ts, i),
    ensures
        keys_unique_in(ts[k]),
    decreases k - i,
{
    if i < k {
        lemma_unique_elem(ts, i + 1, k);
    }
}

proof fn lemma_dedup_distinct(ks: Seq<Seq<char>>)
    requires
        forall|i: int, j: int| 0 <= i < j < ks.len() ==> ks[i] != ks[j],
    ensures
        dedup(ks) == ks,
    decreases ks.len(),
{
    if ks.len() > 0 {
        let p = ks.drop_last();
        assert forall|i: int, j: int| 0 <= i < j < p.len() implies p[i] != p[j] by {
            assert(p[i] == ks[i] && p[j] == ks[j]);
        }
        lemma_dedup_distinct(p);
        if p.contains(ks.last()) {
            let i = choose|i: int| 0 <= i < p.len() && p[i] == ks.last();
            assert(ks[i] == ks[ks.len() - 1]);
        }
        assert(p.push(ks.last()) =~= ks);
    }
}

proof fn lemma_dedup_known(ks: Seq<Seq<char>>, x: Seq<Seq<char>>)
    requires
        forall|i: int| 0 <= i < x.len() ==> ks.contains(#[trigger] x[i]),
        dedup(ks) == ks,
    ensures
        dedup(ks + x) == ks,
    decreases x.len(),
{
    if x.len() > 0 {
        let xp = x.drop_last();
        assert forall|i: int| 0 <= i < xp.len() implies ks.contains(#[trigger] xp[i]) by {
            assert(xp[i] == x[i]);
        }
        lemma_dedup_known(ks, xp);
        assert((ks + x).drop_last() =~= ks + xp);
        assert((ks + x).last() == x[x.len() - 1]);
    }
}

proof fn lemma_lookup_unique(es: Seq<EntryV>, j: int)
    requires
        0 <= j < es.len(),
        forall|a: int, b: int| 0 <= a < b < es.len() ==> key_of(#[trigger] es[a].1) != key_of(#[trigger] es[b].1),
    ensures
        lookup(es, key_of(es[j].1)) == Some(es[j]),
    decreases es.len(),
{
    if j < es.len() - 1 {
        let p = es.drop_last();
        assert(key_of(es[j].1) != key_of(es[es.len() - 1].1));
        assert forall|a: int, b: int| 0 <= a < b < p.len() implies key_of(#[trigger] p[a].1) != key_of(#[trigger] p[b].1) by {
            assert(p[a] == es[a] && p[b] == es[b]);
        }
        lemma_lookup_unique(p, j);
        assert(p[j] == es[j]);
    }
}

proof fn lemma_count_unique(ks: Seq<Seq<char>>, k: Seq<char>)
    requires
        forall|i: int, j: int| 0 <= i < j < ks.len() ==> ks[i] != ks[j],
    ensures
        count_in(ks, k) <= 1,
        !ks.contains(k) ==> count_in(ks, k) == 0,
    decreases ks.len(),
{
    if ks.len() > 0 {
        let p = ks.drop_last();
        assert forall|i: int, j: int| 0 <= i < j < p.len() implies p[i] != p[j] by {
            assert(p[i] == ks[i] && p[j] == ks[j]);
        }
        lemma_count_unique(p, k);
        if ks.last() == k {
            if p.contains(k) {
                let i = choose|i: int| 0 <= i < p.len() && p[i] == k;
                assert(ks[i] == ks[ks.len() - 1]);
            }
        }
        if !ks.contains(k) {
            assert(ks[ks.len() - 1] != k);
            if p.contains(k) {
                let i = choose|i: int| 0 <= i < p.len() && p[i] == k;
                assert(ks[i] == k);
            }
        }
    }
}

/// A task merged against itself on both sides comes back as it is, with
/// no conflict.
proof fn lemma_merged_itself(w: TaskV)
    requires
        keys_unique_in(w),
    ensures
        merged(w, Some(w), Some(w)) == (w, Seq::<ConflictV>::empty()),
    decreases size(w), 0int,
{
    lemma_lists_itself(w.subtasks, false, 0);
    assert(w.subtasks.subrange(0, w.subtasks.len() as int) =~= w.subtasks);
    let r = lists_from(w.subtasks, w.subtasks, w.subtasks, false, 0);
    assert(r.0 == w.subtasks);
    assert(merged(w, Some(w), Some(w)) == (TaskV { subtasks: r.0, ..w }, r.1));
    assert((TaskV { subtasks: w.subtasks, ..w }) == w);
}

/// The merge of a list with itself from key `j` on is the list from `j` on.
proof fn lemma_lists_itself(ts: Seq<TaskV>, guard: bool, j: int)
    requires
        list_keys_unique(ts),
        0 <= j <= ts.len(),
    ensures
        lists_from(ts, ts, ts, guard, j) == (ts.subrange(j, ts.len() as int), Seq::<ConflictV>::empty()),
    decreases size_from(ts, 0), ts.len() - j + 1,
{
    let es = list_entries(ts);
    let e = entry_keys(es);
    assert(e.len() == ts.len());
    assert forall|a: int| 0 <= a < ts.len() implies e[a] == key_of(#[trigger] ts[a]) by {
        assert(es[a] == (SectionKind::Backlog, ts[a]));
    }
    assert forall|a: int, b: int| 0 <= a < b < e.len() implies e[a] != e[b] by {
        assert(e[a] == key_of(ts[a]) && e[b] == key_of(ts[b]));
    }
    lemma_dedup_distinct(e);
    assert forall|i: int| 0 <= i < (e + e).len() implies e.contains(#[trigger] (e + e)[i]) by {
        if i < e.len() {
            assert((e + e)[i] == e[i]);
        } else {
            assert((e + e)[i] == e[i - e.len()]);
        }
    }
    lemma_dedup_known(e, e + e);
    assert(e + e + e =~= e + (e + e));
    assert(list_keys(ts, ts, ts) == e);
    if j < ts.len() {
        let k = key_of(ts[j]);
        assert(e[j] == k);
        assert forall|a: int, b: int| 0 <= a < b < es.len() implies key_of(#[trigger] es[a].1) != key_of(#[trigger] es[b].1) by {
            assert(es[a].1 == ts[a] && es[b].1 == ts[b]);
        }
        lemma_lookup_unique(es, j);
        assert(es[j] == (SectionKind::Backlog, ts[j]));
        lemma_count_unique(e, k);
        assert(!ambiguous(k, es, es, es));
        assert(same(es[j], es[j]));
        assert(decide(Some(es[j]), Some(es[j]), Some(es[j])) == Verdict::Ours);
        lemma_unique_elem(ts, 0, j);
        crate::reconcile::lemma_size_elem(ts, 0, j);
        lemma_merged_itself(ts[j]);
        assert(list_step(ts, ts, ts, guard, k) == (seq![ts[j]], Seq::<ConflictV>::empty()));
        lemma_lists_itself(ts, guard, j + 1);
        assert(seq![ts[j]] + ts.subrange(j + 1, ts.len() as int) =~= ts.subrange(j, ts.len() as int));
        assert(Seq::<ConflictV>::empty() + Seq::<ConflictV>::empty() =~= Seq::<ConflictV>::empty());
    } else {
        assert(ts.subrange(j, ts.len() as int) =~= Seq::<TaskV>::empty());
    }
}

/// The proof behind the list law of the laws module.
pub(crate) proof fn lemma_identical_lists(ts: Seq<TaskV>, guard: bool)
    requires
        list_keys_unique(ts),
    ensures
        lists_from(ts, ts, ts, guard, 0) == (ts, Seq::<ConflictV>::empty()),
{
    lemma_lists_itself(ts, guard, 0);
    assert(ts.subrange(0, ts.len() as int) =~= ts);
}

/// No two top-level tasks of the entries share a key, and no two sibling
/// tasks share one under any of them.
pub open spec fn entries_unique(es: Seq<EntryV>) -> bool {
    &&& forall|a: int, b: int| 0 <= a < b < es.len() ==> key_of(#[trigger] es[a].1) != key_of(#[trigger] es[b].1)
    &&& forall|a: int| 0 <= a < es.len() ==> keys_unique_in(#[trigger] es[a].1)
}

/// No section kind occurs twice among the nodes.
pub open spec fn one_section_per_kind(nodes: Seq<NodeV>) -> bool {
    forall|i: int, j: int, k: SectionKind|
        0 <= i < j < nodes.len() && #[trigger] crate::model::is_section_of(nodes[i], k)
            ==> !#[trigger] crate::model::is_section_of(nodes[j], k)
}

proof fn lemma_track_upto_itself(es: Seq<EntryV>, n: int)
    requires
        entries_unique(es),
        0 <= n <= es.len(),
    ensures
        track_upto(es, es, es, entry_keys(es), n) == (es.subrange(0, n), Seq::<ConflictV>::empty(), 0nat, 0nat),
    decreases n,
{
    if n > 0 {
        lemma_track_upto_itself(es, n - 1);
        let e = entry_keys(es);
        let j = n - 1;
        let k = e[j];
        assert(k == key_of(es[j].1));
        assert forall|a: int, b: int| 0 <= a < b < e.len() implies e[a] != e[b] by {
            assert(e[a] == key_of(es[a].1) && e[b] == key_of(es[b].1));
        }
        lemma_count_unique(e, k);
        assert(!ambiguous(k, es, es, es));
        lemma_lookup_unique(es, j);
        assert(same(es[j], es[j]));
        assert(decide(Some(es[j]), Some(es[j]), Some(es[j])) == Verdict::Ours);
        assert(section_for(Some(es[j]), Some(es[j]), Some(es[j])) == es[j].0);
        lemma_merged_itself(es[j].1);
        assert(track_step(es, es, es, k) == (seq![(es[j].0, es[j].1)], Seq::<ConflictV>::empty(), 0nat, 0nat));
        assert(seq![(es[j].0, es[j].1)] =~= seq![es[j]]);
        assert(es.subrange(0, n - 1) + seq![es[j]] =~= es.subrange(0, n));
        assert(Seq::<ConflictV>::empty() + Seq::<ConflictV>::empty() =~= Seq::<ConflictV>::empty());
    }
}

/// The track merge of three copies of the same entries places each entry as
/// it is, reports nothing, takes nothing from theirs and deletes nothing.
proof fn lemma_track_merge_itself(es: Seq<EntryV>)
    requires
        entries_unique(es),
    ensures
        track_merge(es, es, es) == (es, Seq::<ConflictV>::empty(), 0nat, 0nat),
{
    let e = entry_keys(es);
    assert forall|a: int, b: int| 0 <= a < b < e.len() implies e[a] != e[b] by {
        assert(e[a] == key_of(es[a].1) && e[b] == key_of(es[b].1));
    }
    lemma_dedup_distinct(e);
    assert forall|i: int| 0 <= i < (e + e).len() implies e.contains(#[trigger] (e + e)[i]) by {
        if i < e.len() {
            assert((e + e)[i] == e[i]);
        } else {
            assert((e + e)[i] == e[i - e.len()]);
        }
    }
    lemma_dedup_known(e, e + e);
    assert(e + e + e =~= e + (e + e));
    assert(all_keys(es, es, es) == e);
    lemma_track_upto_itself(es, es.len() as int);
    assert(es.subrange(0, es.len() as int) =~= es);
}

pub(crate) proof fn lemma_section_at(nodes: Seq<NodeV>, kind: SectionKind, i: int, p: int)
    requires
        0 <= i <= p < nodes.len(),
        crate::model::is_section_of(nodes[p], kind),
        one_section_per_kind(nodes),
    ensures
        crate::model::section_from(nodes, kind, i) == Some(p),
    decreases p - i,
{
    if i < p {
        assert(!crate::model::is_section_of(nodes[i], kind)) by {
            if crate::model::is_section_of(nodes[i], kind) {
                assert(!crate::model::is_section_of(nodes[p], kind));
            }
        }
        lemma_section_at(nodes, kind, i + 1, p);
    }
}

proof fn lemma_of_kind_app(a: Seq<EntryV>, b: Seq<EntryV>, kind: SectionKind)
    ensures
        of_kind(a + b, kind) == of_kind(a, kind) + of_kind(b, kind),
    decreases b.len(),
{
    if b.len() == 0 {
        assert(a + b =~= a);
    } else {
        lemma_of_kind_app(a, b.drop_last(), kind);
        assert((a + b).drop_last() =~= a + b.drop_last());
        assert((a + b).last() == b.last());
    }
}

proof fn lemma_of_kind_node(n: NodeV, kind: SectionKind)
    ensures
        of_kind(node_entries(n), kind) == if crate::model::is_section_of(n, kind) {
            crate::model::node_tasks(n)
        } else {
            Seq::<TaskV>::empty()
        },
{
    match n {
        NodeV::Section { kind: k, tasks, .. } => {
            lemma_of_kind_tagged(k, tasks, kind);
        },
        NodeV::Literal(_) => {},
    }
}

proof fn lemma_of_kind_tagged(k: SectionKind, ts: Seq<TaskV>, kind: SectionKind)
    ensures
        of_kind(ts.map_values(|t: TaskV| (k, t)), kind) == if k == kind { ts } else { Seq::<TaskV>::empty() },
    decreases ts.len(),
{
    let m = ts.map_values(|t: TaskV| (k, t));
    if ts.len() > 0 {
        lemma_of_kind_tagged(k, ts.drop_last(), kind);
        assert(m.drop_last() =~= ts.drop_last().map_values(|t: TaskV| (k, t)));
        assert(m.last() == (k, ts.last()));
        if k == kind {
            assert(ts.drop_last().push(ts.last()) =~= ts);
        }
    } else {
        assert(m =~= Seq::<EntryV>::empty());
        if k == kind {
            assert(ts =~= Seq::<TaskV>::empty());
        }
    }
}

proof fn lemma_of_kind_upto(nodes: Seq<NodeV>, kind: SectionKind, n: int)
    requires
        0 <= n <= nodes.len(),
        one_section_per_kind(nodes),
    ensures
        (forall|q: int| 0 <= q < n ==> !crate::model::is_section_of(#[trigger] nodes[q], kind))
            ==> of_kind(entries_upto(nodes, n), kind) == Seq::<TaskV>::empty(),
        forall|p: int| 0 <= p < n && crate::model::is_section_of(#[trigger] nodes[p], kind)
            ==> of_kind(entries_upto(nodes, n), kind) == crate::model::node_tasks(nodes[p]),
    decreases n,
{
    if n > 0 {
        lemma_of_kind_upto(nodes, kind, n - 1);
        lemma_of_kind_app(entries_upto(nodes, n - 1), node_entries(nodes[n - 1]), kind);
        lemma_of_kind_node(nodes[n - 1], kind);
        assert forall|p: int| 0 <= p < n && crate::model::is_section_of(#[trigger] nodes[p], kind)
            implies of_kind(entries_upto(nodes, n), kind) == crate::model::node_tasks(nodes[p]) by {
            if p < n - 1 {
                assert(!crate::model::is_section_of(nodes[n - 1], kind));
                assert(of_kind(entries_upto(nodes, n), kind) =~= of_kind(entries_upto(nodes, n - 1), kind));
            } else {
                assert forall|q: int| 0 <= q < n - 1 implies !crate::model::is_section_of(#[trigger] nodes[q], kind) by {
                    if crate::model::is_section_of(nodes[q], kind) {
                        assert(!crate::model::is_section_of(nodes[n - 1], kind));
                    }
                }
                assert(of_kind(entries_upto(nodes, n), kind) =~= crate::model::node_tasks(nodes[p]));
            }
        }
        if forall|q: int| 0 <= q < n ==> !crate::model::is_section_of(#[trigger] nodes[q], kind) {
            assert(!crate::model::is_section_of(nodes[n - 1], kind));
            assert(of_kind(entries_upto(nodes, n), kind) =~= Seq::<TaskV>::empty());
        }
    }
}

proof fn lemma_has_kind_nonempty(es: Seq<EntryV>, kind: SectionKind)
    requires
        has_kind(es, kind),
    ensures
        of_kind(es, kind).len() > 0,
    decreases es.len(),
{
    let i = choose|i: int| 0 <= i < es.len() && (#[trigger] es[i]).0 == kind;
    if es.last().0 != kind {
        assert(i < es.len() - 1);
        assert(es.drop_last()[i] == es[i]);
        lemma_has_kind_nonempty(es.drop_last(), kind);
    }
}

proof fn lemma_missing_none(nodes: Seq<NodeV>, kind: SectionKind)
    requires
        one_section_per_kind(nodes),
    ensures
        with_missing(nodes, nodes, track_entries(nodes), kind) == nodes,
{
    let es = track_entries(nodes);
    if has_kind(es, kind) {
        lemma_has_kind_nonempty(es, kind);
        lemma_of_kind_upto(nodes, kind, nodes.len() as int);
        let p = choose|p: int| 0 <= p < nodes.len() && crate::model::is_section_of(#[trigger] nodes[p], kind);
        lemma_section_at(nodes, kind, 0, p);
    }
}

/// A track rebuilt from its own entries is the track, when no section kind
/// occurs twice.
proof fn lemma_rebuilt_itself(nodes: Seq<NodeV>)
    requires
        one_section_per_kind(nodes),
    ensures
        rebuilt(nodes, nodes, track_entries(nodes)) == nodes,
{
    let es = track_entries(nodes);
    lemma_missing_none(nodes, SectionKind::Backlog);
    lemma_missing_none(nodes, SectionKind::Parked);
    lemma_missing_none(nodes, SectionKind::Done);
    assert(grown(nodes, nodes, es) == nodes);
    let f = filled(nodes, es);
    assert forall|i: int| 0 <= i < nodes.len() implies f[i] == nodes[i] by {
        match nodes[i] {
            NodeV::Section { kind, header_lines, tasks } => {
                assert(crate::model::is_section_of(nodes[i], kind));
                lemma_section_at(nodes, kind, 0, i);
                lemma_of_kind_upto(nodes, kind, nodes.len() as int);
                assert(of_kind(es, kind) == tasks);
            },
            NodeV::Literal(_) => {},
        }
    }
    assert(f =~= nodes);
}

/// The proof behind the track law of the laws module.
pub(crate) proof fn lemma_identical_tracks(nodes: Seq<NodeV>)
    requires
        entries_unique(track_entries(nodes)),
        one_section_per_kind(nodes),
    ensures
        ({
            let es = track_entries(nodes);
            let m = track_merge(es, es, es);
            &&& rebuilt(nodes, nodes, m.0) == nodes
            &&& m.1 == Seq::<ConflictV>::empty()
            &&& m.2 == 0
            &&& m.3 == 0
        }),
{
    lemma_track_merge_itself(track_entries(nodes));
    lemma_rebuilt_itself(nodes);
}

} // verus!
