//! Merging actor-token namespaces into one target namespace.
//!
//! The remap is per segment: merging tokens `{d, f}` into `b` rewrites only
//! the segments minted by `d` or `f` and keeps every other segment verbatim,
//! so `SEC-d1.a3` becomes `SEC-b2.a3`.

use vstd::prelude::*;
use crate::model::{strs_v, Task, Track, tasks_v, Metadata, MetaV, TaskV, NodeV, metas_v, meta_v, node_v, node_tasks, with_tasks,
    TrackNode};
use crate::clean::{ids_in_from, ids_in_nodes};
use crate::task_id::{Token, token_shape, tok_v, structured, letters_v, validate_token};
use crate::text::{chars_of, str_eq, push_str, string_of, substring, take_chars, find_char, find_char_from,
    lemma_find_char_from, value_v, is_digits, parse_decimal, dec_pad_v, decimal_padded_u64, trim_v, trim_chars};
use crate::refs::{split_v, split_chars, join_v};
use crate::project::{lookup_v, lookup_from, prefix_for, pairs_view};
use crate::reconcile::string_in;
use crate::fix::{str_lt, strictly_sorted, lemma_lt_total, lemma_lt_trans, insert_sorted};

verus! {

// ---------------------------------------------------------------------------
// Validating a request
// ---------------------------------------------------------------------------

/// The message a malformed token is refused with.
pub open spec fn token_msg(s: Seq<char>) -> Seq<char> {
    if s.len() == 0 {
        "a token cannot be empty"@
    } else {
        "invalid token '"@ + s + "': use lowercase letters only"@
    }
}

pub open spec fn null_tok() -> Seq<char> {
    "null"@
}

/// The first problem with the sources `from[i..]`.
pub open spec fn source_error(from: Seq<Seq<char>>, into: Seq<char>, i: int) -> Option<Seq<char>>
    decreases from.len() - i,
{
    if i < 0 || i >= from.len() {
        None
    } else {
        let t = from[i];
        if !token_shape(t) {
            Some(token_msg(t))
        } else if t == null_tok() {
            Some("cannot merge the null (primary) namespace away"@)
        } else if t == into {
            Some("token '"@ + t + "' is both a source and the target"@)
        } else if from.take(i).contains(t) {
            Some("token '"@ + t + "' listed more than once"@)
        } else {
            source_error(from, into, i + 1)
        }
    }
}

/// What is wrong with a merge request, if anything: a malformed or null
/// target, no sources, or a source that is malformed, null, the target
/// itself, or listed twice.
pub open spec fn request_error(from: Seq<Seq<char>>, into: Seq<char>) -> Option<Seq<char>> {
    if !token_shape(into) {
        Some(token_msg(into))
    } else if into == null_tok() {
        Some("cannot merge into the null (primary) namespace — pick a tokened target"@)
    } else if from.len() == 0 {
        Some("no source tokens given (usage: fr actor merge <from>... --into <token>)"@)
    } else {
        source_error(from, into, 0)
    }
}

fn checked_token(s: &str) -> (r: Result<(), String>)
    ensures
        match r {
            Ok(()) => token_shape(s@),
            Err(e) => !token_shape(s@) && e@ == token_msg(s@),
        },
{
    match validate_token(s) {
        Ok(()) => Ok(()),
        Err(_) => {
            let cs = chars_of(s);
            if cs.len() == 0 {
                Err(String::from_str("a token cannot be empty"))
            } else {
                let mut m = String::from_str("invalid token '");
                push_str(&mut m, s);
                push_str(&mut m, "': use lowercase letters only");
                assert(m@ =~= token_msg(s@));
                Err(m)
            }
        },
    }
}

fn quoted(head: &str, x: &str, tail: &str) -> (r: String)
    ensures
        r@ == head@ + x@ + tail@,
{
    let mut s = String::from_str(head);
    push_str(&mut s, x);
    push_str(&mut s, tail);
    assert(s@ =~= head@ + x@ + tail@);
    s
}

/// Check the shape of a merge request: well-formed tokens, at least one
/// source, no null namespace on either side, no self-merge, no source twice.
pub fn validate_merge_request(from: &Vec<String>, into: &str) -> (r: Result<(), String>)
    ensures
        match r {
            Ok(()) => request_error(strs_v(from@), into@) is None,
            Err(e) => request_error(strs_v(from@), into@) == Some(e@),
        },
{
    let ghost fv = strs_v(from@);
    checked_token(into)?;
    if str_eq(into, "null") {
        return Err(String::from_str("cannot merge into the null (primary) namespace — pick a tokened target"));
    }
    if from.len() == 0 {
        return Err(String::from_str("no source tokens given (usage: fr actor merge <from>... --into <token>)"));
    }
    let mut seen: Vec<String> = Vec::new();
    let mut i: usize = 0;
    while i < from.len()
        invariant
            i <= from@.len(),
            fv == strs_v(from@),
            strs_v(seen@) == fv.take(i as int),
            request_error(fv, into@) == source_error(fv, into@, i as int),
        decreases from.len() - i,
    {
        let t = from[i].as_str();
        assert(fv[i as int] == t@);
        checked_token(t)?;
        if str_eq(t, "null") {
            return Err(String::from_str("cannot merge the null (primary) namespace away"));
        }
        if str_eq(t, into) {
            return Err(quoted("token '", t, "' is both a source and the target"));
        }
        if string_in(&seen, t) {
            return Err(quoted("token '", t, "' listed more than once"));
        }
        let ghost sb = seen@;
        let x = from[i].clone();
        seen.push(x);
        assert(seen@ == sb.push(x));
        assert(strs_v(seen@) =~= strs_v(sb).push(x@));
        assert(fv.take(i + 1) =~= fv.take(i as int).push(fv[i as int]));
        i += 1;
    }
    Ok(())
}

// ---------------------------------------------------------------------------
// The parts of an ID
// ---------------------------------------------------------------------------

/// An ID's prefix: what stands before its first `-`.
pub open spec fn id_prefix(id: Seq<char>) -> Seq<char> {
    match find_char_from(id, '-', 0) {
        Some(d) => id.take(d),
        None => id,
    }
}

/// An ID's segments: the dot-separated pieces after its first `-`.
pub open spec fn id_segs(id: Seq<char>) -> Seq<Seq<char>> {
    match find_char_from(id, '-', 0) {
        Some(d) => split_v(id.subrange(d + 1, id.len() as int), '.'),
        None => Seq::empty(),
    }
}

/// A segment's token: its leading letters.
pub open spec fn seg_tok(s: Seq<char>) -> Seq<char> {
    s.take(letters_v(s) as int)
}

/// A segment's number: the value of the digits after its token.
pub open spec fn seg_num(s: Seq<char>) -> nat {
    value_v(s.subrange(letters_v(s) as int, s.len() as int))
}

/// Whether an ID takes part in a merge: structured, with every number
/// within `u32`.
#[verifier::opaque]
pub open spec fn mergeable(id: Seq<char>) -> bool {
    structured(id) && forall|k: int| 0 <= k < id_segs(id).len() ==> seg_num(#[trigger] id_segs(id)[k]) <= u32::MAX
}

/// The ID of an ID's parent, as written: its prefix and all but its last
/// segment.
pub open spec fn parent_text(id: Seq<char>) -> Seq<char> {
    id_prefix(id) + "-"@ + join_v(id_segs(id).drop_last(), '.')
}

/// An ID built from a prefix, an optional parent ID and a last segment.
pub open spec fn joined(prefix: Seq<char>, parent: Option<Seq<char>>, seg: Seq<char>) -> Seq<char> {
    match parent {
        None => prefix + "-"@ + seg,
        Some(p) => p + "."@ + seg,
    }
}

/// Whether an ID's last segment was minted by one of the merged tokens.
pub open spec fn last_in(id: Seq<char>, from: Seq<Seq<char>>) -> bool {
    seg_tok(id_segs(id).last()).len() > 0 && from.contains(seg_tok(id_segs(id).last()))
}

/// The parts of a mergeable ID: its prefix and its segments.
fn parse_id(id: &str) -> (r: Option<(String, Vec<String>)>)
    ensures
        match r {
            Some((p, segs)) => mergeable(id@) && p@ == id_prefix(id@) && strs_v(segs@) == id_segs(id@),
            None => !mergeable(id@),
        },
{
    reveal(mergeable);
    if !crate::task_id::is_structured(id) {
        return None;
    }
    let cs = chars_of(id);
    proof { lemma_find_char_from(cs@, '-', 0); }
    let d = match find_char(&cs, '-', 0) {
        Some(d) => d,
        None => {
            return None;
        },
    };
    assert(d < cs.len());
    let prefix = substring(&cs, 0, d);
    assert(prefix@ =~= id_prefix(id@));
    let rest = chars_of(substring(&cs, d + 1, cs.len()).as_str());
    assert(rest@ =~= id@.subrange(d + 1, id@.len() as int));
    let parts = split_chars(&rest, '.');
    let ghost pv = parts@.map_values(|x: Vec<char>| x@);
    let mut segs: Vec<String> = Vec::new();
    let mut k: usize = 0;
    while k < parts.len()
        invariant
            k <= parts@.len(),
            pv == parts@.map_values(|x: Vec<char>| x@),
            pv == id_segs(id@),
            structured(id@),
            find_char_from(id@, '-', 0) == Some(d as int),
            strs_v(segs@) == pv.take(k as int),
            forall|q: int| 0 <= q < k ==> seg_num(#[trigger] pv[q]) <= u32::MAX,
        decreases parts.len() - k,
    {
        reveal(mergeable);
        let seg = &parts[k];
        assert(seg@ == pv[k as int]);
        assert(pv[k as int] == split_v(id@.subrange(d + 1, id@.len() as int), '.')[k as int]);
        let n = crate::task_id::letters_count(seg.as_slice());
        match parse_decimal(seg.as_slice(), n, seg.len()) {
            Some(v) => {
                if v > 4294967295usize {
                    assert(seg_num(pv[k as int]) > u32::MAX);
                    return None;
                }
            },
            None => {
                assert(crate::task_id::seg_ok(pv[k as int]));
                assert(seg_num(pv[k as int]) > u32::MAX);
                return None;
            },
        }
        let ghost sb = segs@;
        let x = string_of(seg.as_slice());
        segs.push(x);
        assert(segs@ == sb.push(x));
        assert(strs_v(segs@) =~= strs_v(sb).push(x@));
        assert(pv.take(k + 1) =~= pv.take(k as int).push(pv[k as int]));
        k += 1;
    }
    assert(pv.take(k as int) =~= pv);
    Some((prefix, segs))
}

// ---------------------------------------------------------------------------
// The merge map
// ---------------------------------------------------------------------------

/// The IDs that take part in a merge, each once, in character order.
pub open spec fn merge_ids(all: Seq<Seq<char>>) -> Seq<Seq<char>> {
    choose|l: Seq<Seq<char>>| strictly_sorted(l) && forall|y: Seq<char>| #[trigger] l.contains(y) <==> (all.contains(y) && mergeable(y))
}

/// The state of a merge as it goes: each ID handled so far with its new ID,
/// and the highest number taken in each context of the target namespace.
pub type MergeState = (Seq<(Seq<char>, Seq<char>)>, Seq<(Seq<char>, nat)>);

/// The index of the context `key` in `cs[i..]`.
pub open spec fn key_pos(cs: Seq<(Seq<char>, nat)>, key: Seq<char>, i: int) -> Option<int>
    decreases cs.len() - i,
{
    if i < 0 || i >= cs.len() {
        None
    } else if cs[i].0 == key {
        Some(i)
    } else {
        key_pos(cs, key, i + 1)
    }
}

pub open spec fn set_count(cs: Seq<(Seq<char>, nat)>, key: Seq<char>, v: nat) -> Seq<(Seq<char>, nat)> {
    match key_pos(cs, key, 0) {
        Some(i) => cs.update(i, (key, v)),
        None => cs.push((key, v)),
    }
}

pub open spec fn count_of(cs: Seq<(Seq<char>, nat)>, key: Seq<char>) -> nat {
    match lookup_v(cs, key) {
        Some(c) => c,
        None => 0,
    }
}

/// The new ID of an ID's parent, `None` at top level; a parent that was not
/// handled keeps its ID.
pub open spec fn new_parent(memo: Seq<(Seq<char>, Seq<char>)>, id: Seq<char>) -> Option<Seq<char>> {
    if id_segs(id).len() <= 1 {
        None
    } else {
        Some(match lookup_v(memo, parent_text(id)) {
            Some(v) => v,
            None => parent_text(id),
        })
    }
}

/// The context a new number is counted in: the prefix for a top-level ID,
/// the new parent's ID otherwise.
pub open spec fn ctx_key(id: Seq<char>, parent: Option<Seq<char>>) -> Seq<char> {
    match parent {
        None => id_prefix(id),
        Some(p) => p,
    }
}

/// One ID handled: one whose last segment stays keeps it under its new
/// parent, and a target-namespace number there raises its context's count;
/// one whose last segment is merged takes the next number of its context,
/// in the target namespace.
pub open spec fn merge_step(st: MergeState, id: Seq<char>, from: Seq<Seq<char>>, tok: Seq<char>, width: nat) -> MergeState {
    let pn = new_parent(st.0, id);
    let key = ctx_key(id, pn);
    let cur = count_of(st.1, key);
    let last = id_segs(id).last();
    if !last_in(id, from) {
        (
            st.0.push((id, joined(id_prefix(id), pn, last))),
            if seg_tok(last) == tok {
                set_count(st.1, key, if seg_num(last) > cur { seg_num(last) } else { cur })
            } else {
                st.1
            },
        )
    } else {
        (st.0.push((id, joined(id_prefix(id), pn, tok + dec_pad_v(cur + 1, width)))), set_count(st.1, key, cur + 1))
    }
}

/// The IDs of `ids[..n]` with `t` segments whose last segment is merged
/// (`sub`) or stays (`!sub`), handled in order.
pub open spec fn merge_part(st: MergeState, ids: Seq<Seq<char>>, from: Seq<Seq<char>>, tok: Seq<char>, width: nat, t: nat, sub: bool, n: int)
    -> MergeState
    decreases n,
{
    if n <= 0 {
        st
    } else {
        let s1 = merge_part(st, ids, from, tok, width, t, sub, n - 1);
        let x = ids[n - 1];
        if id_segs(x).len() == t && last_in(x, from) == sub {
            merge_step(s1, x, from, tok, width)
        } else {
            s1
        }
    }
}

/// The IDs with one to `t` segments handled, tier by tier; in each tier
/// those whose last segment stays come first, so that they seed the counts.
pub open spec fn merge_tiers(ids: Seq<Seq<char>>, from: Seq<Seq<char>>, tok: Seq<char>, width: nat, t: nat) -> MergeState
    decreases t,
{
    if t == 0 {
        (Seq::empty(), Seq::empty())
    } else {
        let s = merge_tiers(ids, from, tok, width, (t - 1) as nat);
        let s2 = merge_part(s, ids, from, tok, width, t, false, ids.len() as int);
        merge_part(s2, ids, from, tok, width, t, true, ids.len() as int)
    }
}

/// The most segments any of `ids[..n]` has.
pub open spec fn max_tier(ids: Seq<Seq<char>>, n: int) -> nat
    decreases n,
{
    if n <= 0 {
        0
    } else {
        let m = max_tier(ids, n - 1);
        if id_segs(ids[n - 1]).len() > m { id_segs(ids[n - 1]).len() } else { m }
    }
}

/// The IDs of `ids[..n]` whose new ID differs, with it, in order.
pub open spec fn changed_pairs(ids: Seq<Seq<char>>, memo: Seq<(Seq<char>, Seq<char>)>, n: int) -> Seq<(Seq<char>, Seq<char>)>
    decreases n,
{
    if n <= 0 {
        Seq::empty()
    } else {
        changed_pairs(ids, memo, n - 1) + match lookup_v(memo, ids[n - 1]) {
            Some(v) => if v != ids[n - 1] { seq![(ids[n - 1], v)] } else { Seq::empty() },
            None => Seq::empty(),
        }
    }
}

/// The old-to-new map of a merge of the sorted IDs `ids`: the IDs that
/// change, in order.
pub open spec fn merge_map_v(ids: Seq<Seq<char>>, from: Seq<Seq<char>>, tok: Seq<char>, width: nat) -> Seq<(Seq<char>, Seq<char>)> {
    changed_pairs(ids, merge_tiers(ids, from, tok, width, max_tier(ids, ids.len() as int)).0, ids.len() as int)
}

/// Target numbers are padded to three digits in the null namespace.
pub open spec fn into_width(into: Option<&Token>) -> nat {
    if into is Some { 1 } else { 3 }
}

// ---------------------------------------------------------------------------
// Computing the merge map
// ---------------------------------------------------------------------------

proof fn lemma_changed_keys(ids: Seq<Seq<char>>, memo: Seq<(Seq<char>, Seq<char>)>, n: int, k: int)
    requires
        0 <= n <= ids.len(),
        0 <= k < changed_pairs(ids, memo, n).len(),
    ensures
        exists|m: int| 0 <= m < n && changed_pairs(ids, memo, n)[k].0 == #[trigger] ids[m],
        changed_pairs(ids, memo, n)[k].0 != changed_pairs(ids, memo, n)[k].1,
    decreases n,
{
    if n > 0 {
        let prev = changed_pairs(ids, memo, n - 1);
        if k < prev.len() {
            assert(changed_pairs(ids, memo, n)[k] == prev[k]);
            lemma_changed_keys(ids, memo, n - 1, k);
        } else {
            assert(changed_pairs(ids, memo, n)[k].0 == ids[n - 1]);
        }
    }
}

proof fn lemma_changed_sorted(ids: Seq<Seq<char>>, memo: Seq<(Seq<char>, Seq<char>)>, n: int)
    requires
        0 <= n <= ids.len(),
        strictly_sorted(ids),
    ensures
        forall|a: int, b: int| 0 <= a < b < changed_pairs(ids, memo, n).len()
            ==> str_lt(#[trigger] changed_pairs(ids, memo, n)[a].0, #[trigger] changed_pairs(ids, memo, n)[b].0),
    decreases n,
{
    if n > 0 {
        lemma_changed_sorted(ids, memo, n - 1);
        let prev = changed_pairs(ids, memo, n - 1);
        let cur = changed_pairs(ids, memo, n);
        assert forall|a: int, b: int| 0 <= a < b < cur.len() implies str_lt(#[trigger] cur[a].0, #[trigger] cur[b].0) by {
            if b < prev.len() {
                assert(cur[a] == prev[a] && cur[b] == prev[b]);
            } else {
                assert(cur[a] == prev[a]);
                lemma_changed_keys(ids, memo, n - 1, a);
                let m = choose|m: int| 0 <= m < n - 1 && prev[a].0 == #[trigger] ids[m];
                assert(cur[b].0 == ids[n - 1]);
            }
        }
    }
}

/// Two strictly sorted lists holding the same strings are the same list.
pub proof fn lemma_sorted_unique(a: Seq<Seq<char>>, b: Seq<Seq<char>>)
    requires
        strictly_sorted(a),
        strictly_sorted(b),
        forall|y: Seq<char>| a.contains(y) <==> b.contains(y),
    ensures
        a == b,
    decreases a.len(),
{
    if a.len() == 0 {
        if b.len() > 0 {
            assert(b.contains(b[0]));
        }
        assert(a =~= b);
    } else {
        assert(a.contains(a[0]));
        let j = choose|j: int| 0 <= j < b.len() && b[j] == a[0];
        assert(b.contains(b[0]));
        let i = choose|i: int| 0 <= i < a.len() && a[i] == b[0];
        if j > 0 {
            assert(str_lt(b[0], b[j]));
            if i > 0 {
                assert(str_lt(a[0], a[i]));
                lemma_lt_trans(a[0], b[0], a[0]);
                lemma_lt_total(a[0], a[0]);
            } else {
                lemma_lt_total(b[0], b[0]);
            }
        }
        assert(b[0] == a[0]);
        let a1 = a.drop_first();
        let b1 = b.drop_first();
        assert forall|y: Seq<char>| a1.contains(y) <==> b1.contains(y) by {
            if a1.contains(y) {
                let q = choose|q: int| 0 <= q < a1.len() && a1[q] == y;
                assert(a[q + 1] == y);
                assert(str_lt(a[0], a[q + 1]));
                lemma_lt_total(a[0], a[0]);
                assert(b.contains(y));
                let r = choose|r: int| 0 <= r < b.len() && b[r] == y;
                assert(r != 0);
                assert(b1[r - 1] == y);
            }
            if b1.contains(y) {
                let q = choose|q: int| 0 <= q < b1.len() && b1[q] == y;
                assert(b[q + 1] == y);
                assert(str_lt(b[0], b[q + 1]));
                lemma_lt_total(b[0], b[0]);
                assert(a.contains(y));
                let r = choose|r: int| 0 <= r < a.len() && a[r] == y;
                assert(r != 0);
                assert(a1[r - 1] == y);
            }
        }
        assert forall|p: int, q: int| 0 <= p < q < a1.len() implies str_lt(#[trigger] a1[p], #[trigger] a1[q]) by {
            assert(a1[p] == a[p + 1] && a1[q] == a[q + 1]);
        }
        assert forall|p: int, q: int| 0 <= p < q < b1.len() implies str_lt(#[trigger] b1[p], #[trigger] b1[q]) by {
            assert(b1[p] == b[p + 1] && b1[q] == b[q + 1]);
        }
        lemma_sorted_unique(a1, b1);
        assert(a =~= seq![a[0]] + a1);
        assert(b =~= seq![b[0]] + b1);
    }
}

fn sorted_merge_ids(all: &Vec<String>) -> (r: Vec<String>)
    ensures
        strs_v(r@) == merge_ids(strs_v(all@)),
        strictly_sorted(strs_v(r@)),
        forall|y: Seq<char>| #[trigger] strs_v(r@).contains(y) <==> (strs_v(all@).contains(y) && mergeable(y)),
        r@.len() <= all@.len(),
{
    let ghost av = strs_v(all@);
    let mut out: Vec<String> = Vec::new();
    let mut i: usize = 0;
    while i < all.len()
        invariant
            i <= all@.len(),
            av == strs_v(all@),
            out@.len() <= i,
            strictly_sorted(strs_v(out@)),
            forall|y: Seq<char>| #[trigger] strs_v(out@).contains(y) <==> (av.take(i as int).contains(y) && mergeable(y)),
        decreases all.len() - i,
    {
        let ghost before = strs_v(out@);
        assert(forall|y: Seq<char>| #[trigger] before.contains(y) <==> (av.take(i as int).contains(y) && mergeable(y)));
        let ghost x = av[i as int];
        assert(av.take(i + 1) =~= av.take(i as int).push(x));
        let ok = parse_id(all[i].as_str()).is_some();
        if ok {
            let c = all[i].clone();
            assert(c@ == x);
            insert_sorted(&mut out, c);
        }
        proof {
            let a = av.take(i as int);
            assert(forall|y: Seq<char>| before.contains(y) <==> (a.contains(y) && mergeable(y)));
            if ok {
                assert(forall|y: Seq<char>| strs_v(out@).contains(y) <==> (before.contains(y) || y == x));
            } else {
                assert(strs_v(out@) == before);
                assert(!mergeable(x));
            }
            assert forall|y: Seq<char>| strs_v(out@).contains(y) <==> (av.take(i + 1).contains(y) && mergeable(y)) by {
                if y == x {
                    assert(a.push(x)[a.len() as int] == y);
                }
                if a.push(x).contains(y) && y != x {
                    let q = choose|q: int| 0 <= q < a.push(x).len() && a.push(x)[q] == y;
                    assert(a[q] == y);
                }
                if a.contains(y) {
                    let q = choose|q: int| 0 <= q < a.len() && a[q] == y;
                    assert(a.push(x)[q] == y);
                }
            }
        }
        i += 1;
    }
    assert(av.take(i as int) =~= av);
    proof {
        let l = strs_v(out@);
        assert(forall|y: Seq<char>| #[trigger] l.contains(y) <==> (av.contains(y) && mergeable(y)));
        assert(exists|l2: Seq<Seq<char>>| strictly_sorted(l2)
            && forall|y: Seq<char>| #[trigger] l2.contains(y) <==> (av.contains(y) && mergeable(y)));
        let c = merge_ids(av);
        assert forall|y: Seq<char>| l.contains(y) <==> c.contains(y) by {
            assert(l.contains(y) <==> (av.contains(y) && mergeable(y)));
            assert(c.contains(y) <==> (av.contains(y) && mergeable(y)));
        }
        lemma_sorted_unique(l, c);
    }
    out
}

/// What a merge reads off one ID.
struct IdInfo {
    id: String,
    prefix: String,
    tier: usize,
    moved: bool,
    last: String,
    in_target: bool,
    num: u64,
    parent: String,
}

spec fn info_ok(i: IdInfo, from: Seq<Seq<char>>, tok: Seq<char>) -> bool {
    let segs = id_segs(i.id@);
    &&& mergeable(i.id@)
    &&& i.prefix@ == id_prefix(i.id@)
    &&& i.tier as nat == segs.len()
    &&& i.tier >= 1
    &&& i.moved == last_in(i.id@, from)
    &&& i.last@ == segs.last()
    &&& i.in_target == (seg_tok(segs.last()) == tok)
    &&& i.num as nat == seg_num(segs.last())
    &&& i.num <= u32::MAX
    &&& (i.tier > 1 ==> i.parent@ == parent_text(i.id@))
}

fn join_dots(segs: &Vec<String>, n: usize) -> (r: String)
    requires
        n <= segs@.len(),
    ensures
        r@ == join_v(strs_v(segs@).take(n as int), '.'),
{
    let ghost pv = strs_v(segs@);
    let mut out = String::new();
    let mut i: usize = 0;
    while i < n
        invariant
            i <= n,
            n <= segs@.len(),
            pv == strs_v(segs@),
            out@ == join_v(pv.take(i as int), '.'),
        decreases n - i,
    {
        assert(pv.take(i + 1).drop_last() =~= pv.take(i as int));
        if i > 0 {
            out.push('.');
        }
        push_str(&mut out, segs[i].as_str());
        i += 1;
        if i == 1 {
            assert(join_v(pv.take(0), '.') =~= Seq::<char>::empty());
        }
        assert(out@ =~= join_v(pv.take(i as int), '.'));
    }
    out
}

fn info_of(id: &String, from: &Vec<String>, tok: &str) -> (r: Option<IdInfo>)
    ensures
        match r {
            Some(i) => info_ok(i, strs_v(from@), tok@) && i.id@ == id@,
            None => !mergeable(id@),
        },
{
    let (prefix, segs) = match parse_id(id.as_str()) {
        Some(p) => p,
        None => {
            return None;
        },
    };
    let ghost sv = strs_v(segs@);
    reveal(mergeable);
    proof {
        let cs = id@;
        lemma_find_char_from(cs, '-', 0);
        let d = find_char_from(cs, '-', 0).unwrap();
        lemma_find_char_from(cs.subrange(d + 1, cs.len() as int), '.', 0);
    }
    assert(sv.len() > 0);
    let tier = segs.len();
    let last = segs[tier - 1].clone();
    assert(last@ == sv.last());
    let lc = chars_of(last.as_str());
    let n = crate::task_id::letters_count(lc.as_slice());
    let t = string_of(&take_chars(lc.as_slice(), n));
    assert(t@ =~= seg_tok(sv.last()));
    let moved = n > 0 && string_in(from, t.as_str());
    let in_target = str_eq(t.as_str(), tok);
    assert(crate::task_id::structured(id@));
    assert(crate::task_id::seg_ok(sv[tier - 1]));
    assert(seg_num(sv[tier - 1]) <= u32::MAX);
    let num = match parse_decimal(lc.as_slice(), n, lc.len()) {
        Some(v) => v as u64,
        None => 0,
    };
    proof { reveal_strlit("-"); }
    let mut parent = prefix.clone();
    parent.push('-');
    push_str(&mut parent, join_dots(&segs, tier - 1).as_str());
    assert(sv.take(tier - 1) =~= sv.drop_last());
    assert(parent@ =~= parent_text(id@));
    Some(IdInfo { id: id.clone(), prefix, tier, moved, last, in_target, num, parent })
}

pub open spec fn counts_view(v: Seq<(String, u64)>) -> Seq<(Seq<char>, nat)> {
    v.map_values(|p: (String, u64)| (p.0@, p.1 as nat))
}

fn count_in(cs: &Vec<(String, u64)>, key: &str) -> (r: u64)
    ensures
        r as nat == count_of(counts_view(cs@), key@),
{
    let ghost cv = counts_view(cs@);
    let mut i: usize = 0;
    while i < cs.len()
        invariant
            i <= cs@.len(),
            cv == counts_view(cs@),
            lookup_v(cv, key@) == lookup_from(cv, key@, i as int),
        decreases cs.len() - i,
    {
        if str_eq(cs[i].0.as_str(), key) {
            return cs[i].1;
        }
        i += 1;
    }
    0
}

fn set_count_in(cs: &mut Vec<(String, u64)>, key: &str, v: u64)
    ensures
        counts_view(final(cs)@) == set_count(counts_view(old(cs)@), key@, v as nat),
{
    let ghost cv = counts_view(cs@);
    let mut i: usize = 0;
    while i < cs.len()
        invariant
            i <= cs@.len(),
            cs@ == old(cs)@,
            cv == counts_view(cs@),
            key_pos(cv, key@, 0) == key_pos(cv, key@, i as int),
        decreases cs.len() - i,
    {
        if str_eq(cs[i].0.as_str(), key) {
            let e = (String::from_str(key), v);
            cs.set(i, e);
            assert(counts_view(cs@) =~= cv.update(i as int, (key@, v as nat)));
            return;
        }
        i += 1;
    }
    let e = (String::from_str(key), v);
    cs.push(e);
    assert(counts_view(cs@) =~= cv.push((key@, v as nat)));
}

proof fn lemma_key_pos(cs: Seq<(Seq<char>, nat)>, key: Seq<char>, i: int)
    requires
        0 <= i <= cs.len(),
    ensures
        match key_pos(cs, key, i) {
            Some(j) => i <= j < cs.len(),
            None => true,
        },
    decreases cs.len() - i,
{
    if i < cs.len() {
        lemma_key_pos(cs, key, i + 1);
    }
}

proof fn lemma_lookup_bound(cs: Seq<(Seq<char>, nat)>, key: Seq<char>, b: int, i: int)
    requires
        0 <= i <= cs.len(),
        forall|j: int| 0 <= j < cs.len() ==> (#[trigger] cs[j]).1 <= b,
    ensures
        match lookup_from(cs, key, i) {
            Some(c) => c <= b,
            None => true,
        },
    decreases cs.len() - i,
{
    if i < cs.len() {
        lemma_lookup_bound(cs, key, b, i + 1);
    }
}

/// Each count stays within the highest number an ID can carry plus the IDs
/// handled so far.
pub open spec fn counts_bounded(cs: Seq<(Seq<char>, nat)>, b: int) -> bool {
    forall|j: int| 0 <= j < cs.len() ==> (#[trigger] cs[j]).1 <= b
}

fn merge_one(
    info: &IdInfo,
    memo: &mut Vec<(String, String)>,
    counts: &mut Vec<(String, u64)>,
    tok: &str,
    width: usize,
    Ghost(from): Ghost<Seq<Seq<char>>>,
)
    requires
        info_ok(*info, from, tok@),
        old(memo)@.len() < u32::MAX,
        counts_bounded(counts_view(old(counts)@), u32::MAX + old(memo)@.len()),
    ensures
        (pairs_view(final(memo)@), counts_view(final(counts)@))
            == merge_step((pairs_view(old(memo)@), counts_view(old(counts)@)), info.id@, from, tok@, width as nat),
        final(memo)@.len() == old(memo)@.len() + 1,
        counts_bounded(counts_view(final(counts)@), u32::MAX + final(memo)@.len()),
{
    let ghost mv = pairs_view(memo@);
    let ghost cv = counts_view(counts@);
    let ghost b = u32::MAX + memo@.len();
    let pn: Option<String> = if info.tier <= 1 {
        None
    } else {
        Some(match prefix_for(memo, info.parent.as_str()) {
            Some(v) => v,
            None => info.parent.clone(),
        })
    };
    assert(match pn { Some(p) => Some(p@), None => None::<Seq<char>> } == new_parent(mv, info.id@));
    let key: String = match &pn {
        None => info.prefix.clone(),
        Some(p) => p.clone(),
    };
    assert(key@ == ctx_key(info.id@, new_parent(mv, info.id@)));
    let cur = count_in(counts, key.as_str());
    proof {
        lemma_lookup_bound(cv, key@, b, 0);
        lemma_key_pos(cv, key@, 0);
    }
    let seg: String = if !info.moved {
        info.last.clone()
    } else {
        let mut s = String::from_str(tok);
        push_str(&mut s, string_of(&decimal_padded_u64(cur + 1, width)).as_str());
        s
    };
    let mut nw: String = match &pn {
        None => {
            let mut s = info.prefix.clone();
            s.push('-');
            s
        },
        Some(p) => {
            let mut s = p.clone();
            s.push('.');
            s
        },
    };
    push_str(&mut nw, seg.as_str());
    proof {
        reveal_strlit("-");
        reveal_strlit(".");
    }
    assert(nw@ =~= joined(id_prefix(info.id@), new_parent(mv, info.id@), seg@));
    let ghost mb = memo@;
    memo.push((info.id.clone(), nw));
    assert(pairs_view(memo@) =~= mv.push((info.id@, nw@)));
    if !info.moved {
        if info.in_target {
            let v = if info.num > cur { info.num } else { cur };
            set_count_in(counts, key.as_str(), v);
        }
    } else {
        set_count_in(counts, key.as_str(), cur + 1);
    }
    proof {
        let nb = u32::MAX + memo@.len();
        let ncv = counts_view(counts@);
        assert forall|j: int| 0 <= j < ncv.len() implies (#[trigger] ncv[j]).1 <= nb by {
            match key_pos(cv, key@, 0) {
                Some(q) => {
                    if j != q {
                        assert(j < cv.len());
                    }
                },
                None => {
                    if j < cv.len() as int {
                        assert(ncv[j] == cv[j] || ncv[j] == cv[j]);
                    }
                },
            }
        }
    }
}

/// How many of `ids[..n]` have between one and `t - 1` segments.
pub open spec fn count_below(ids: Seq<Seq<char>>, t: nat, n: int) -> nat
    decreases n,
{
    if n <= 0 {
        0
    } else {
        count_below(ids, t, n - 1) + if 1 <= id_segs(ids[n - 1]).len() < t { 1nat } else { 0nat }
    }
}

/// How many of `ids[..n]` a part of tier `t` handles.
pub open spec fn count_part(ids: Seq<Seq<char>>, from: Seq<Seq<char>>, t: nat, sub: bool, n: int) -> nat
    decreases n,
{
    if n <= 0 {
        0
    } else {
        count_part(ids, from, t, sub, n - 1) + if id_segs(ids[n - 1]).len() == t && last_in(ids[n - 1], from) == sub { 1nat } else { 0nat }
    }
}

proof fn lemma_counts(ids: Seq<Seq<char>>, from: Seq<Seq<char>>, t: nat, n: int)
    requires
        t >= 1,
        0 <= n <= ids.len(),
    ensures
        count_below(ids, t + 1, n) == count_below(ids, t, n) + count_part(ids, from, t, false, n) + count_part(ids, from, t, true, n),
        count_below(ids, t + 1, n) <= n,
    decreases n,
{
    if n > 0 {
        lemma_counts(ids, from, t, n - 1);
    }
}

proof fn lemma_below_one(ids: Seq<Seq<char>>, n: int)
    ensures
        count_below(ids, 1, n) == 0,
    decreases n,
{
    if n > 0 {
        lemma_below_one(ids, n - 1);
    }
}

proof fn lemma_part_mono(ids: Seq<Seq<char>>, from: Seq<Seq<char>>, t: nat, sub: bool, m: int, n: int)
    requires
        0 <= m <= n,
    ensures
        count_part(ids, from, t, sub, m) <= count_part(ids, from, t, sub, n),
    decreases n - m,
{
    if m < n {
        lemma_part_mono(ids, from, t, sub, m, n - 1);
    }
}

fn run_part(
    infos: &Vec<IdInfo>,
    t: usize,
    sub: bool,
    memo: &mut Vec<(String, String)>,
    counts: &mut Vec<(String, u64)>,
    tok: &str,
    width: usize,
    Ghost(ids): Ghost<Seq<Seq<char>>>,
    Ghost(from): Ghost<Seq<Seq<char>>>,
)
    requires
        infos@.len() == ids.len(),
        ids.len() <= u32::MAX,
        forall|k: int| 0 <= k < infos@.len() ==> info_ok(#[trigger] infos@[k], from, tok@) && infos@[k].id@ == ids[k],
        old(memo)@.len() + count_part(ids, from, t as nat, sub, ids.len() as int) <= ids.len(),
        counts_bounded(counts_view(old(counts)@), u32::MAX + old(memo)@.len()),
    ensures
        (pairs_view(final(memo)@), counts_view(final(counts)@)) == merge_part(
            (pairs_view(old(memo)@), counts_view(old(counts)@)), ids, from, tok@, width as nat, t as nat, sub, ids.len() as int),
        final(memo)@.len() == old(memo)@.len() + count_part(ids, from, t as nat, sub, ids.len() as int),
        counts_bounded(counts_view(final(counts)@), u32::MAX + final(memo)@.len()),
{
    let ghost st0 = (pairs_view(memo@), counts_view(counts@));
    let ghost m0 = memo@.len();
    let mut n: usize = 0;
    while n < infos.len()
        invariant
            n <= infos@.len(),
            infos@.len() == ids.len(),
            ids.len() <= u32::MAX,
            forall|k: int| 0 <= k < infos@.len() ==> info_ok(#[trigger] infos@[k], from, tok@) && infos@[k].id@ == ids[k],
            m0 + count_part(ids, from, t as nat, sub, ids.len() as int) <= ids.len(),
            (pairs_view(memo@), counts_view(counts@)) == merge_part(st0, ids, from, tok@, width as nat, t as nat, sub, n as int),
            memo@.len() == m0 + count_part(ids, from, t as nat, sub, n as int),
            counts_bounded(counts_view(counts@), u32::MAX + memo@.len()),
        decreases infos.len() - n,
    {
        proof { lemma_part_mono(ids, from, t as nat, sub, n + 1, ids.len() as int); }
        let info = &infos[n];
        assert(info_ok(*info, from, tok@) && info.id@ == ids[n as int]);
        if info.tier == t && info.moved == sub {
            merge_one(info, memo, counts, tok, width, Ghost(from));
        }
        n += 1;
    }
}

/// Build the old-to-new ID map for merging every `from` namespace into
/// `into` (`None`: the null namespace). Only IDs that change are listed,
/// sorted by old ID. Tier by tier, fewest segments first, each ID keeps
/// every segment but the last under its parent's new ID; a last segment
/// minted by a merged token takes the next number of its context in the
/// target namespace, counted on from the highest target number already
/// there, so that a merged ID never collides with an existing one.
pub fn build_merge_map(all_ids: &Vec<String>, from: &Vec<String>, into: Option<&Token>) -> (r: Vec<(String, String)>)
    requires
        all_ids@.len() <= u32::MAX,
    ensures
        pairs_view(r@) == merge_map_v(merge_ids(strs_v(all_ids@)), strs_v(from@), tok_v(into), into_width(into)),
        forall|a: int, b: int| 0 <= a < b < r@.len() ==> str_lt(#[trigger] r@[a].0@, #[trigger] r@[b].0@),
        forall|k: int| 0 <= k < r@.len() ==> (#[trigger] r@[k]).0@ != r@[k].1@
            && strs_v(all_ids@).contains(r@[k].0@) && mergeable(r@[k].0@),
{
    let tok: String = match into {
        Some(t) => String::from_str(t.as_str()),
        None => String::new(),
    };
    assert(tok@ == tok_v(into));
    let width: usize = if into.is_some() { 1 } else { 3 };
    let ghost fv = strs_v(from@);
    let ids = sorted_merge_ids(all_ids);
    let ghost l = strs_v(ids@);
    let mut infos: Vec<IdInfo> = Vec::new();
    let mut maxt: usize = 0;
    let mut k: usize = 0;
    while k < ids.len()
        invariant
            k <= ids@.len(),
            l == strs_v(ids@),
            l == merge_ids(strs_v(all_ids@)),
            forall|y: Seq<char>| #[trigger] l.contains(y) <==> (strs_v(all_ids@).contains(y) && mergeable(y)),
            ids@.len() <= u32::MAX,
            infos@.len() == k,
            fv == strs_v(from@),
            forall|q: int| 0 <= q < k ==> info_ok(#[trigger] infos@[q], fv, tok@) && infos@[q].id@ == l[q],
            maxt as nat == max_tier(l, k as int),
        decreases ids.len() - k,
    {
        proof {
            assert(l.contains(l[k as int]));
        }
        assert(l[k as int] == ids@[k as int]@);
        match info_of(&ids[k], from, tok.as_str()) {
            Some(info) => {
                if info.tier > maxt {
                    maxt = info.tier;
                }
                let ghost ib = infos@;
                infos.push(info);
                assert(infos@ == ib.push(info));
            },
            None => {
                assert(false);
            },
        }
        k += 1;
    }
    let mut memo: Vec<(String, String)> = Vec::new();
    let mut counts: Vec<(String, u64)> = Vec::new();
    assert(pairs_view(memo@) =~= Seq::<(Seq<char>, Seq<char>)>::empty());
    assert(counts_view(counts@) =~= Seq::<(Seq<char>, nat)>::empty());
    proof { lemma_below_one(l, l.len() as int); }
    let mut t: usize = 0;
    while t < maxt
        invariant
            t <= maxt,
            maxt as nat == max_tier(l, l.len() as int),
            infos@.len() == l.len(),
            l.len() <= u32::MAX,
            forall|q: int| 0 <= q < infos@.len() ==> info_ok(#[trigger] infos@[q], fv, tok@) && infos@[q].id@ == l[q],
            (pairs_view(memo@), counts_view(counts@)) == merge_tiers(l, fv, tok@, width as nat, t as nat),
            memo@.len() == count_below(l, (t + 1) as nat, l.len() as int),
            counts_bounded(counts_view(counts@), u32::MAX + memo@.len()),
        decreases maxt - t,
    {
        let tier = t + 1;
        proof { lemma_counts(l, fv, tier as nat, l.len() as int); }
        run_part(&infos, tier, false, &mut memo, &mut counts, tok.as_str(), width, Ghost(l), Ghost(fv));
        run_part(&infos, tier, true, &mut memo, &mut counts, tok.as_str(), width, Ghost(l), Ghost(fv));
        t = tier;
    }
    let ghost memo_v = pairs_view(memo@);
    assert(memo_v == merge_tiers(l, fv, tok@, width as nat, max_tier(l, l.len() as int)).0);
    let mut out: Vec<(String, String)> = Vec::new();
    let mut j: usize = 0;
    while j < ids.len()
        invariant
            j <= ids@.len(),
            l == strs_v(ids@),
            memo_v == pairs_view(memo@),
            pairs_view(out@) == changed_pairs(l, memo_v, j as int),
        decreases ids.len() - j,
    {
        match prefix_for(&memo, ids[j].as_str()) {
            Some(v) => {
                if !str_eq(v.as_str(), ids[j].as_str()) {
                    let ghost ob = out@;
                    let e = (ids[j].clone(), v);
                    out.push(e);
                    assert(pairs_view(out@) =~= pairs_view(ob).push((l[j as int], e.1@)));
                }
            },
            None => {},
        }
        j += 1;
        assert(pairs_view(out@) =~= changed_pairs(l, memo_v, j as int));
    }
    proof {
        let n = l.len() as int;
        let c = changed_pairs(l, memo_v, n);
        lemma_changed_sorted(l, memo_v, n);
        assert forall|a: int, b: int| 0 <= a < b < out@.len() implies str_lt(#[trigger] out@[a].0@, #[trigger] out@[b].0@) by {
            assert(pairs_view(out@)[a] == (out@[a].0@, out@[a].1@));
            assert(pairs_view(out@)[b] == (out@[b].0@, out@[b].1@));
            assert(str_lt(c[a].0, c[b].0));
        }
        assert forall|k: int| 0 <= k < out@.len() implies (#[trigger] out@[k]).0@ != out@[k].1@
            && strs_v(all_ids@).contains(out@[k].0@) && mergeable(out@[k].0@) by {
            assert(pairs_view(out@)[k] == (out@[k].0@, out@[k].1@));
            lemma_changed_keys(l, memo_v, n, k);
            let m = choose|m: int| 0 <= m < n && c[k].0 == #[trigger] l[m];
            assert(l.contains(l[m]));
        }
    }
    out
}

// ---------------------------------------------------------------------------
// Collecting IDs
// ---------------------------------------------------------------------------

/// Collect every task ID of a list of tasks and their subtasks, in file
/// order.
pub fn collect_ids(tasks: &[Task], out: &mut Vec<String>)
    ensures
        strs_v(final(out)@) == strs_v(old(out)@) + ids_in_from(tasks_v(tasks@), 0),
{
    crate::clean::collect_ids_list(tasks, out);
}

/// Collect every task ID across a track's sections, in file order.
pub fn collect_ids_in_track(track: &Track, out: &mut Vec<String>)
    ensures
        strs_v(final(out)@) == strs_v(old(out)@) + ids_in_nodes(track@, 0),
{
    crate::clean::collect_ids_track(track, out);
}

// ---------------------------------------------------------------------------
// Mentions in prose
// ---------------------------------------------------------------------------

/// A prose (note, spec or ref text) occurrence of a remapped ID.
#[derive(Debug, Clone, PartialEq, Eq)]
pub struct ProseHit {
    pub old: String,
    pub new: String,
    /// The occurrence reads as a git citation and is only reported, never
    /// rewritten.
    pub is_citation: bool,
    /// A short snippet of the surrounding text, for the report.
    pub context: String,
}

pub type ProseV = (Seq<char>, Seq<char>, bool, Seq<char>);

pub open spec fn prose_view(v: Seq<ProseHit>) -> Seq<ProseV> {
    v.map_values(|h: ProseHit| (h.old@, h.new@, h.is_citation, h.context@))
}

pub open spec fn ascii_alnum(c: char) -> bool {
    ('0' <= c && c <= '9') || ('a' <= c && c <= 'z') || ('A' <= c && c <= 'Z')
}

pub open spec fn ascii_hex(c: char) -> bool {
    ('0' <= c && c <= '9') || ('a' <= c && c <= 'f') || ('A' <= c && c <= 'F')
}

/// The first place at or after `i` where `pat` occurs in `text`.
pub open spec fn find_at(text: Seq<char>, pat: Seq<char>, i: int) -> Option<int>
    decreases text.len() - i,
{
    if i < 0 || i >= text.len() || i + pat.len() > text.len() {
        None
    } else if text.subrange(i, i + pat.len()) == pat {
        Some(i)
    } else {
        find_at(text, pat, i + 1)
    }
}

pub proof fn lemma_find_at(text: Seq<char>, pat: Seq<char>, i: int)
    requires
        0 <= i,
    ensures
        match find_at(text, pat, i) {
            Some(k) => i <= k && k + pat.len() <= text.len() && text.subrange(k, k + pat.len()) == pat,
            None => true,
        },
    decreases text.len() - i,
{
    if i < text.len() && i + pat.len() <= text.len() && text.subrange(i, i + pat.len()) != pat {
        lemma_find_at(text, pat, i + 1);
    }
}

/// Whether the occurrence `start..end` stands on ID boundaries: no letter,
/// digit or `-` just before it; no letter or digit just after it, and no
/// `.` followed by a digit, which would continue it into a child ID.
pub open spec fn on_boundary(t: Seq<char>, start: int, end: int) -> bool {
    &&& (start == 0 || (!ascii_alnum(t[start - 1]) && t[start - 1] != '-'))
    &&& (end >= t.len() || (!ascii_alnum(t[end]) && (t[end] == '.' ==> !(end + 1 < t.len() && '0' <= t[end + 1] <= '9'))))
}

/// How many hex digits end at `w[..n]`.
pub open spec fn hex_tail(w: Seq<char>, n: int) -> nat
    decreases n,
{
    if n <= 0 {
        0
    } else if ascii_hex(w[n - 1]) {
        hex_tail(w, n - 1) + 1
    } else {
        0
    }
}

/// Whether `w` holds a run of seven or more hex digits.
pub open spec fn has_hex_run(w: Seq<char>) -> bool {
    exists|n: int| 0 < n <= w.len() && hex_tail(w, n) >= 7
}

/// Whether the occurrence `start..end` reads as a git citation: wrapped as
/// `fix(ID)`, or with a run of seven hex digits (a commit) within the
/// twenty characters before it.
pub open spec fn cited(t: Seq<char>, start: int, end: int) -> bool {
    (start > 0 && t[start - 1] == '(' && end < t.len() && t[end] == ')')
        || has_hex_run(t.subrange(if start >= 20 { start - 20 } else { 0 }, start))
}

/// The index just after the last newline before `i`, or 0.
pub open spec fn line_start(t: Seq<char>, i: int) -> int
    decreases i,
{
    if i <= 0 {
        0
    } else if t[i - 1] == '\n' {
        i
    } else {
        line_start(t, i - 1)
    }
}

/// The index of the first newline at or after `i`, or the end.
pub open spec fn line_end(t: Seq<char>, i: int) -> int
    decreases t.len() - i,
{
    if i < 0 || i >= t.len() {
        t.len() as int
    } else if t[i] == '\n' {
        i
    } else {
        line_end(t, i + 1)
    }
}

/// The trimmed text around `start..end`: at most forty characters on
/// either side, within the line.
pub open spec fn snippet_v(t: Seq<char>, start: int, end: int) -> Seq<char> {
    let a = line_start(t, start);
    let from = if start >= 40 && start - 40 > a { start - 40 } else { a };
    let b = line_end(t, end);
    let to = if end + 40 < b { end + 40 } else { b };
    trim_v(t.subrange(from, to))
}

/// One key scanned for from `from` on: each occurrence on ID boundaries is
/// a hit; when rewriting, those that are not citations are replaced and the
/// scan goes on after the replacement.
pub open spec fn scan_one(text: Seq<char>, old: Seq<char>, new: Seq<char>, rewrite: bool, from: int) -> (Seq<char>, Seq<ProseV>)
    decreases text.len() - from,
{
    if old.len() == 0 || from < 0 || from > text.len() {
        (text, Seq::empty())
    } else {
        match find_at(text, old, from) {
            None => (text, Seq::empty()),
            Some(start) => {
                proof { lemma_find_at(text, old, from); }
                let end = start + old.len();
                if on_boundary(text, start, end) {
                    let c = cited(text, start, end);
                    let hit = (old, new, c, snippet_v(text, start, end));
                    if rewrite && !c {
                        let t2 = text.subrange(0, start) + new + text.subrange(end, text.len() as int);
                        let r = scan_one(t2, old, new, rewrite, start + new.len());
                        (r.0, seq![hit] + r.1)
                    } else {
                        let r = scan_one(text, old, new, rewrite, end);
                        (r.0, seq![hit] + r.1)
                    }
                } else {
                    scan_one(text, old, new, rewrite, end)
                }
            },
        }
    }
}

/// Whether key `a` is tried before key `b`: longer keys first, so that a
/// longer ID wins over a prefix of it; then in character order.
pub open spec fn key_before(a: Seq<char>, b: Seq<char>) -> bool {
    a.len() > b.len() || (a.len() == b.len() && str_lt(a, b))
}

/// `x` put into the ordered keys `l`, from position `i` on, unless it is
/// there already.
pub open spec fn ins_key(l: Seq<Seq<char>>, x: Seq<char>, i: int) -> Seq<Seq<char>>
    decreases l.len() - i,
{
    if i < 0 || i >= l.len() {
        l.push(x)
    } else if l[i] == x {
        l
    } else if key_before(x, l[i]) {
        l.insert(i, x)
    } else {
        ins_key(l, x, i + 1)
    }
}

/// The keys of `pairs[..n]`, each once, in the order they are tried.
pub open spec fn key_order(pairs: Seq<(Seq<char>, Seq<char>)>, n: int) -> Seq<Seq<char>>
    decreases n,
{
    if n <= 0 {
        Seq::empty()
    } else {
        ins_key(key_order(pairs, n - 1), pairs[n - 1].0, 0)
    }
}

/// The keys `keys[..n]` scanned for in turn.
pub open spec fn scan_keys(text: Seq<char>, keys: Seq<Seq<char>>, pairs: Seq<(Seq<char>, Seq<char>)>, rewrite: bool, n: int)
    -> (Seq<char>, Seq<ProseV>)
    decreases n,
{
    if n <= 0 {
        (text, Seq::empty())
    } else {
        let a = scan_keys(text, keys, pairs, rewrite, n - 1);
        let new = match lookup_v(pairs, keys[n - 1]) {
            Some(v) => v,
            None => Seq::empty(),
        };
        let b = scan_one(a.0, keys[n - 1], new, rewrite, 0);
        (b.0, a.1 + b.1)
    }
}

/// What scanning a text for every key of `pairs` gives: the (possibly
/// rewritten) text and the hits, key by key in the order they are tried.
pub open spec fn scan_prose_v(text: Seq<char>, pairs: Seq<(Seq<char>, Seq<char>)>, rewrite: bool) -> (Seq<char>, Seq<ProseV>) {
    let keys = key_order(pairs, pairs.len() as int);
    scan_keys(text, keys, pairs, rewrite, keys.len() as int)
}

fn is_alnum(c: char) -> (r: bool)
    ensures
        r == ascii_alnum(c),
{
    ('0' <= c && c <= '9') || ('a' <= c && c <= 'z') || ('A' <= c && c <= 'Z')
}

fn is_hex(c: char) -> (r: bool)
    ensures
        r == ascii_hex(c),
{
    ('0' <= c && c <= '9') || ('a' <= c && c <= 'f') || ('A' <= c && c <= 'F')
}

fn find_in(text: &Vec<char>, pat: &Vec<char>, from: usize) -> (r: Option<usize>)
    ensures
        match r {
            Some(k) => find_at(text@, pat@, from as int) == Some(k as int),
            None => find_at(text@, pat@, from as int) is None,
        },
{
    let mut i = from;
    while i < text.len() && pat.len() <= text.len() - i
        invariant
            from <= i,
            find_at(text@, pat@, from as int) == find_at(text@, pat@, i as int),
        decreases text.len() - i,
    {
        let mut j: usize = 0;
        let mut same = true;
        while j < pat.len()
            invariant
                j <= pat@.len(),
                i + pat@.len() <= text@.len(),
                text@.len() <= usize::MAX,
                same == forall|q: int| 0 <= q < j ==> text@[i + q] == pat@[q],
            decreases pat.len() - j,
        {
            assert(i + j < text@.len());
            if text[i + j] != pat[j] {
                same = false;
            }
            j += 1;
        }
        if same {
            assert(text@.subrange(i as int, i + pat@.len()) =~= pat@);
            return Some(i);
        }
        proof {
            let q = choose|q: int| 0 <= q < pat@.len() && text@[i + q] != pat@[q];
            assert(text@.subrange(i as int, i + pat@.len())[q] != pat@[q]);
        }
        i += 1;
    }
    None
}

fn boundary(t: &Vec<char>, start: usize, end: usize) -> (r: bool)
    requires
        start <= end <= t@.len(),
    ensures
        r == on_boundary(t@, start as int, end as int),
{
    let before_ok = start == 0 || (!is_alnum(t[start - 1]) && t[start - 1] != '-');
    let after_ok = end >= t.len() || {
        let c = t[end];
        if is_alnum(c) {
            false
        } else if c == '.' {
            !(end + 1 < t.len() && '0' <= t[end + 1] && t[end + 1] <= '9')
        } else {
            true
        }
    };
    before_ok && after_ok
}

fn hex_run_in(t: &Vec<char>, from: usize, to: usize) -> (r: bool)
    requires
        from <= to <= t@.len(),
    ensures
        r == has_hex_run(t@.subrange(from as int, to as int)),
{
    let ghost w = t@.subrange(from as int, to as int);
    let mut run: usize = 0;
    let mut i: usize = from;
    while i < to
        invariant
            from <= i <= to,
            to <= t@.len(),
            w == t@.subrange(from as int, to as int),
            run as nat == hex_tail(w, (i - from) as int),
            run < 7,
            forall|n: int| 0 < n <= i - from ==> #[trigger] hex_tail(w, n) < 7,
        decreases to - i,
    {
        assert(w[(i - from) as int] == t@[i as int]);
        if is_hex(t[i]) {
            run += 1;
            if run >= 7 {
                assert(hex_tail(w, (i + 1 - from) as int) >= 7);
                return true;
            }
        } else {
            run = 0;
        }
        i += 1;
    }
    false
}

fn citation(t: &Vec<char>, start: usize, end: usize) -> (r: bool)
    requires
        start <= end <= t@.len(),
    ensures
        r == cited(t@, start as int, end as int),
{
    if start > 0 && t[start - 1] == '(' && end < t.len() && t[end] == ')' {
        return true;
    }
    let ws: usize = if start >= 20 { start - 20 } else { 0 };
    hex_run_in(t, ws, start)
}

fn snippet(t: &Vec<char>, start: usize, end: usize) -> (r: String)
    requires
        start <= end <= t@.len(),
    ensures
        r@ == snippet_v(t@, start as int, end as int),
{
    let mut a: usize = start;
    while a > 0 && t[a - 1] != '\n'
        invariant
            a <= start,
            start <= t@.len(),
            line_start(t@, start as int) == line_start(t@, a as int),
        decreases a,
    {
        a -= 1;
    }
    let from: usize = if start >= 40 && start - 40 > a { start - 40 } else { a };
    let mut b: usize = end;
    while b < t.len() && t[b] != '\n'
        invariant
            end <= b <= t@.len(),
            line_end(t@, end as int) == line_end(t@, b as int),
        decreases t.len() - b,
    {
        b += 1;
    }
    let to: usize = if b - end > 40 { end + 40 } else { b };
    proof {
        lemma_line_start(t@, start as int);
    }
    let piece = chars_of(substring(t.as_slice(), from, to).as_str());
    assert(piece@ =~= t@.subrange(from as int, to as int));
    string_of(&trim_chars(piece.as_slice()))
}

proof fn lemma_line_start(t: Seq<char>, i: int)
    requires
        0 <= i <= t.len(),
    ensures
        0 <= line_start(t, i) <= i,
    decreases i,
{
    if i > 0 && t[i - 1] != '\n' {
        lemma_line_start(t, i - 1);
    }
}

fn splice(t: &Vec<char>, start: usize, end: usize, new: &str) -> (r: Vec<char>)
    requires
        start <= end <= t@.len(),
    ensures
        r@ == t@.subrange(0, start as int) + new@ + t@.subrange(end as int, t@.len() as int),
{
    let mut s = substring(t.as_slice(), 0, start);
    push_str(&mut s, new);
    push_str(&mut s, substring(t.as_slice(), end, t.len()).as_str());
    let r = chars_of(s.as_str());
    assert(r@ =~= t@.subrange(0, start as int) + new@ + t@.subrange(end as int, t@.len() as int));
    r
}

fn scan_one_exec(text: Vec<char>, key: &String, new: &String, rewrite: bool, hits: &mut Vec<ProseHit>) -> (r: Vec<char>)
    ensures
        r@ == scan_one(text@, key@, new@, rewrite, 0).0,
        prose_view(final(hits)@) == prose_view(old(hits)@) + scan_one(text@, key@, new@, rewrite, 0).1,
{
    let oc = chars_of(key.as_str());
    let nc = chars_of(new.as_str());
    if oc.len() == 0 {
        assert(prose_view(hits@) =~= prose_view(hits@) + Seq::<ProseV>::empty());
        return text;
    }
    let ghost t0 = text@;
    let ghost h0 = prose_view(hits@);
    let mut t = text;
    let mut from: usize = 0;
    let mut done = false;
    while !done
        invariant
            oc@ == key@,
            nc@ == new@,
            oc@.len() > 0,
            from <= t@.len(),
            done ==> scan_one(t@, key@, new@, rewrite, from as int) == (t@, Seq::<ProseV>::empty()),
            scan_one(t0, key@, new@, rewrite, 0).0 == scan_one(t@, key@, new@, rewrite, from as int).0,
            prose_view(hits@) + scan_one(t@, key@, new@, rewrite, from as int).1 == h0 + scan_one(t0, key@, new@, rewrite, 0).1,
        decreases t@.len() - from + (if done { 0int } else { 1int }),
    {
        let ghost tb = t@;
        let ghost hb = prose_view(hits@);
        let ghost fb = from as int;
        match find_in(&t, &oc, from) {
            None => {
                assert(scan_one(tb, key@, new@, rewrite, fb) == (tb, Seq::<ProseV>::empty()));
                done = true;
            },
            Some(start) => {
                proof { lemma_find_at(tb, oc@, fb); }
                let tl = t.len();
                assert(start + oc@.len() <= tl);
                let end = start + oc.len();
                if boundary(&t, start, end) {
                    let c = citation(&t, start, end);
                    let ctx = snippet(&t, start, end);
                    let h = ProseHit { old: key.clone(), new: new.clone(), is_citation: c, context: ctx };
                    let ghost hv = (key@, new@, c, h.context@);
                    let ghost hs = hits@;
                    hits.push(h);
                    assert(hits@ == hs.push(h));
                    assert(prose_view(hits@) =~= hb.push(hv));
                    if rewrite && !c {
                        let t2 = splice(&t, start, end, new.as_str());
                        let t2l = t2.len();
                        assert(start + nc@.len() <= t2l);
                        from = start + nc.len();
                        t = t2;
                        assert(scan_one(tb, key@, new@, rewrite, fb)
                            == (scan_one(t@, key@, new@, rewrite, from as int).0,
                                seq![hv] + scan_one(t@, key@, new@, rewrite, from as int).1));
                    } else {
                        from = end;
                        assert(scan_one(tb, key@, new@, rewrite, fb)
                            == (scan_one(tb, key@, new@, rewrite, end as int).0,
                                seq![hv] + scan_one(tb, key@, new@, rewrite, end as int).1));
                    }
                    assert(prose_view(hits@) + scan_one(t@, key@, new@, rewrite, from as int).1
                        =~= hb + scan_one(tb, key@, new@, rewrite, fb).1);
                } else {
                    from = end;
                    assert(scan_one(tb, key@, new@, rewrite, fb) == scan_one(tb, key@, new@, rewrite, end as int));
                }
            },
        }
    }
    t
}

fn key_first(a: &String, b: &String) -> (r: bool)
    ensures
        r == key_before(a@, b@),
{
    let ac = chars_of(a.as_str());
    let bc = chars_of(b.as_str());
    ac.len() > bc.len() || (ac.len() == bc.len() && crate::fix::lt_exec(&ac, &bc))
}

fn key_order_of(map: &Vec<(String, String)>) -> (r: Vec<String>)
    ensures
        strs_v(r@) == key_order(pairs_view(map@), map@.len() as int),
{
    let ghost pv = pairs_view(map@);
    let mut keys: Vec<String> = Vec::new();
    let mut n: usize = 0;
    while n < map.len()
        invariant
            n <= map@.len(),
            pv == pairs_view(map@),
            strs_v(keys@) == key_order(pv, n as int),
        decreases map.len() - n,
    {
        let x = &map[n].0;
        assert(pv[n as int].0 == x@);
        let ghost kv = strs_v(keys@);
        let mut i: usize = 0;
        let mut placed = false;
        while i < keys.len() && !placed
            invariant
                i <= keys@.len(),
                !placed ==> strs_v(keys@) == kv,
                !placed ==> ins_key(kv, x@, 0) == ins_key(kv, x@, i as int),
                placed ==> strs_v(keys@) == ins_key(kv, x@, 0),
            decreases (if placed { 0int } else { keys@.len() - i + 1 }),
        {
            if str_eq(keys[i].as_str(), x.as_str()) {
                placed = true;
            } else if key_first(x, &keys[i]) {
                let ghost kb = keys@;
                let c = x.clone();
                keys.insert(i, c);
                assert(keys@ == kb.insert(i as int, c));
                assert(strs_v(keys@) =~= kv.insert(i as int, x@));
                placed = true;
            } else {
                i += 1;
            }
        }
        if !placed {
            let ghost kb = keys@;
            let c = x.clone();
            keys.push(c);
            assert(keys@ == kb.push(c));
            assert(strs_v(keys@) =~= kv.push(x@));
        }
        n += 1;
    }
    keys
}

/// Find remapped IDs mentioned in a text, key by key, longest first: each
/// occurrence on ID boundaries is a hit, and when `rewrite` holds those that
/// are not git citations are replaced by the new ID. Positions count
/// characters.
pub fn scan_prose(text: &str, map: &Vec<(String, String)>, rewrite: bool) -> (r: (String, Vec<ProseHit>))
    ensures
        (r.0@, prose_view(r.1@)) == scan_prose_v(text@, pairs_view(map@), rewrite),
{
    let ghost pv = pairs_view(map@);
    let keys = key_order_of(map);
    let ghost kv = strs_v(keys@);
    let mut t = chars_of(text);
    let mut hits: Vec<ProseHit> = Vec::new();
    assert(prose_view(hits@) =~= Seq::<ProseV>::empty());
    let mut n: usize = 0;
    while n < keys.len()
        invariant
            n <= keys@.len(),
            kv == strs_v(keys@),
            pv == pairs_view(map@),
            (t@, prose_view(hits@)) == scan_keys(text@, kv, pv, rewrite, n as int),
        decreases keys.len() - n,
    {
        let new = match prefix_for(map, keys[n].as_str()) {
            Some(v) => v,
            None => String::new(),
        };
        assert(kv[n as int] == keys@[n as int]@);
        let t2 = scan_one_exec(t, &keys[n], &new, rewrite, &mut hits);
        t = t2;
        n += 1;
    }
    (string_of(&t), hits)
}

// ---------------------------------------------------------------------------
// Applying a map to task trees
// ---------------------------------------------------------------------------

/// A text after a scan for the remapped IDs: the text (rewritten when
/// `rewrite` holds and the scan changed it), the hits, and whether it
/// changed.
pub open spec fn prose_step(s: Seq<char>, pairs: Seq<(Seq<char>, Seq<char>)>, rewrite: bool) -> (Seq<char>, Seq<ProseV>, bool) {
    let r = scan_prose_v(s, pairs, rewrite);
    if r.1.len() > 0 && rewrite && r.0 != s { (r.0, r.1, true) } else { (s, r.1, false) }
}

/// Each of the `ref:` paths `l` after a scan.
pub open spec fn refs_step(l: Seq<Seq<char>>, pairs: Seq<(Seq<char>, Seq<char>)>, rewrite: bool) -> (Seq<Seq<char>>, Seq<ProseV>, bool)
    decreases l.len(),
{
    if l.len() == 0 {
        (Seq::empty(), Seq::empty(), false)
    } else {
        let a = refs_step(l.drop_last(), pairs, rewrite);
        let b = prose_step(l.last(), pairs, rewrite);
        (a.0.push(b.0), a.1 + b.1, a.2 || b.2)
    }
}

/// A dep naming a remapped ID names the new one.
pub open spec fn dep_remap(d: Seq<char>, pairs: Seq<(Seq<char>, Seq<char>)>) -> Seq<char> {
    match lookup_v(pairs, d) {
        Some(v) => v,
        None => d,
    }
}

/// Whether one of the deps `l` names a remapped ID.
pub open spec fn deps_hit(l: Seq<Seq<char>>, pairs: Seq<(Seq<char>, Seq<char>)>) -> bool {
    exists|k: int| 0 <= k < l.len() && lookup_v(pairs, #[trigger] l[k]) is Some
}

/// One metadata line remapped: its new value, the prose hits, whether it
/// changed.
pub open spec fn meta_step(m: MetaV, pairs: Seq<(Seq<char>, Seq<char>)>, rewrite: bool) -> (MetaV, Seq<ProseV>, bool) {
    match m {
        MetaV::Dep(l) => (MetaV::Dep(l.map_values(|d: Seq<char>| dep_remap(d, pairs))), Seq::empty(), deps_hit(l, pairs)),
        MetaV::Note(s) => {
            let p = prose_step(s, pairs, rewrite);
            (MetaV::Note(p.0), p.1, p.2)
        },
        MetaV::Spec(s) => {
            let p = prose_step(s, pairs, rewrite);
            (MetaV::Spec(p.0), p.1, p.2)
        },
        MetaV::Ref(l) => {
            let r = refs_step(l, pairs, rewrite);
            (MetaV::Ref(r.0), r.1, r.2)
        },
        _ => (m, Seq::empty(), false),
    }
}

pub open spec fn metas_step(ms: Seq<MetaV>, pairs: Seq<(Seq<char>, Seq<char>)>, rewrite: bool, n: int) -> (Seq<MetaV>, Seq<ProseV>, bool)
    decreases n,
{
    if n <= 0 {
        (Seq::empty(), Seq::empty(), false)
    } else {
        let a = metas_step(ms, pairs, rewrite, n - 1);
        let b = meta_step(ms[n - 1], pairs, rewrite);
        (a.0.push(b.0), a.1 + b.1, a.2 || b.2)
    }
}

/// A task and its subtree with a map applied: its ID and deps renamed, its
/// notes, specs and refs scanned; the hits, in file order; and whether
/// anything changed. A task that changed is marked dirty.
pub open spec fn task_remap(t: TaskV, pairs: Seq<(Seq<char>, Seq<char>)>, rewrite: bool) -> (TaskV, Seq<ProseV>, bool)
    decreases t, 0int,
{
    let idr: (Option<Seq<char>>, bool) = match t.id {
        Some(x) => match lookup_v(pairs, x) {
            Some(v) => (Some(v), true),
            None => (t.id, false),
        },
        None => (t.id, false),
    };
    let m = metas_step(t.metadata, pairs, rewrite, t.metadata.len() as int);
    let own = idr.1 || m.2;
    let s = list_remap(t.subtasks, pairs, rewrite, t.subtasks.len() as int);
    (TaskV { id: idr.0, metadata: m.0, dirty: t.dirty || own, subtasks: s.0, ..t }, m.1 + s.1, own || s.2)
}

pub open spec fn list_remap(ts: Seq<TaskV>, pairs: Seq<(Seq<char>, Seq<char>)>, rewrite: bool, n: int) -> (Seq<TaskV>, Seq<ProseV>, bool)
    decreases ts, n,
{
    if n <= 0 || n > ts.len() {
        (Seq::empty(), Seq::empty(), false)
    } else {
        let a = list_remap(ts, pairs, rewrite, n - 1);
        let b = task_remap(ts[n - 1], pairs, rewrite);
        (a.0.push(b.0), a.1 + b.1, a.2 || b.2)
    }
}

fn append_hits(out: &mut Vec<ProseHit>, more: Vec<ProseHit>)
    ensures
        prose_view(final(out)@) == prose_view(old(out)@) + prose_view(more@),
{
    let ghost o0 = prose_view(out@);
    let ghost mv = prose_view(more@);
    let mut more = more;
    let mut rest: Vec<ProseHit> = Vec::new();
    while more.len() > 0
        invariant
            prose_view(rest@) + prose_view(more@) == mv,
            prose_view(out@) == o0,
        decreases more.len(),
    {
        let ghost mb = more@;
        let ghost rb = rest@;
        let h = more.remove(0);
        rest.push(h);
        assert(more@ == mb.subrange(1, mb.len() as int));
        assert(rest@ == rb.push(h));
        assert(prose_view(rest@) + prose_view(more@) =~= prose_view(rb) + prose_view(mb));
    }
    assert(prose_view(more@) =~= Seq::<ProseV>::empty());
    let mut j: usize = 0;
    let ghost rv = prose_view(rest@);
    while j < rest.len()
        invariant
            j <= rest@.len(),
            rv == prose_view(rest@),
            rv =~= mv,
            prose_view(out@) == o0 + rv.take(j as int),
        decreases rest.len() - j,
    {
        let ghost ob = out@;
        let h = ProseHit {
            old: rest[j].old.clone(),
            new: rest[j].new.clone(),
            is_citation: rest[j].is_citation,
            context: rest[j].context.clone(),
        };
        out.push(h);
        assert(out@ == ob.push(h));
        assert(rv.take(j + 1) =~= rv.take(j as int).push(rv[j as int]));
        assert(prose_view(out@) =~= prose_view(ob).push(rv[j as int]));
        j += 1;
    }
    assert(rv.take(j as int) =~= rv);
}

fn prose_exec(s: &String, map: &Vec<(String, String)>, rewrite: bool, hits: &mut Vec<ProseHit>) -> (r: (String, bool))
    ensures
        (r.0@, prose_view(final(hits)@).subrange(prose_view(old(hits)@).len() as int, prose_view(final(hits)@).len() as int), r.1)
            == prose_step(s@, pairs_view(map@), rewrite),
        prose_view(final(hits)@) == prose_view(old(hits)@) + prose_step(s@, pairs_view(map@), rewrite).1,
{
    let ghost h0 = prose_view(hits@);
    let (nt, found) = scan_prose(s.as_str(), map, rewrite);
    let n = found.len();
    append_hits(hits, found);
    if n > 0 && rewrite && !str_eq(nt.as_str(), s.as_str()) {
        assert(prose_view(hits@).subrange(h0.len() as int, prose_view(hits@).len() as int) =~= prose_step(s@, pairs_view(map@), rewrite).1);
        (nt, true)
    } else {
        assert(prose_view(hits@).subrange(h0.len() as int, prose_view(hits@).len() as int) =~= prose_step(s@, pairs_view(map@), rewrite).1);
        (s.clone(), false)
    }
}

fn refs_exec(l: &Vec<String>, map: &Vec<(String, String)>, rewrite: bool, hits: &mut Vec<ProseHit>) -> (r: (Vec<String>, bool))
    ensures
        strs_v(r.0@) == refs_step(strs_v(l@), pairs_view(map@), rewrite).0,
        r.1 == refs_step(strs_v(l@), pairs_view(map@), rewrite).2,
        prose_view(final(hits)@) == prose_view(old(hits)@) + refs_step(strs_v(l@), pairs_view(map@), rewrite).1,
{
    let ghost lv = strs_v(l@);
    let ghost pv = pairs_view(map@);
    let ghost h0 = prose_view(hits@);
    let mut out: Vec<String> = Vec::new();
    let mut any = false;
    let mut i: usize = 0;
    while i < l.len()
        invariant
            i <= l@.len(),
            lv == strs_v(l@),
            pv == pairs_view(map@),
            strs_v(out@) == refs_step(lv.take(i as int), pv, rewrite).0,
            any == refs_step(lv.take(i as int), pv, rewrite).2,
            prose_view(hits@) == h0 + refs_step(lv.take(i as int), pv, rewrite).1,
        decreases l.len() - i,
    {
        assert(lv.take(i + 1).drop_last() =~= lv.take(i as int));
        assert(lv.take(i + 1).last() == l@[i as int]@);
        let ghost hb = prose_view(hits@);
        let (x, ch) = prose_exec(&l[i], map, rewrite, hits);
        let ghost ob = out@;
        out.push(x);
        assert(out@ == ob.push(x));
        assert(strs_v(out@) =~= strs_v(ob).push(x@));
        any = any || ch;
        i += 1;
        assert(prose_view(hits@) =~= h0 + refs_step(lv.take(i as int), pv, rewrite).1);
    }
    assert(lv.take(i as int) =~= lv);
    (out, any)
}

fn deps_exec(l: &Vec<String>, map: &Vec<(String, String)>) -> (r: (Vec<String>, bool))
    ensures
        strs_v(r.0@) == strs_v(l@).map_values(|d: Seq<char>| dep_remap(d, pairs_view(map@))),
        r.1 == deps_hit(strs_v(l@), pairs_view(map@)),
{
    let ghost lv = strs_v(l@);
    let ghost pv = pairs_view(map@);
    let mut out: Vec<String> = Vec::new();
    let mut any = false;
    let mut i: usize = 0;
    while i < l.len()
        invariant
            i <= l@.len(),
            lv == strs_v(l@),
            pv == pairs_view(map@),
            strs_v(out@) == lv.take(i as int).map_values(|d: Seq<char>| dep_remap(d, pv)),
            any == exists|k: int| 0 <= k < i && lookup_v(pv, #[trigger] lv[k]) is Some,
        decreases l.len() - i,
    {
        assert(lv[i as int] == l@[i as int]@);
        let ghost ob = out@;
        let x = match prefix_for(map, l[i].as_str()) {
            Some(v) => {
                any = true;
                v
            },
            None => l[i].clone(),
        };
        assert(x@ == dep_remap(lv[i as int], pv));
        out.push(x);
        assert(out@ == ob.push(x));
        assert(strs_v(out@) =~= strs_v(ob).push(x@));
        assert(lv.take(i + 1).map_values(|d: Seq<char>| dep_remap(d, pv))
            =~= lv.take(i as int).map_values(|d: Seq<char>| dep_remap(d, pv)).push(dep_remap(lv[i as int], pv)));
        i += 1;
    }
    assert(lv.take(i as int) =~= lv);
    (out, any)
}

fn meta_exec(m: &Metadata, map: &Vec<(String, String)>, rewrite: bool, hits: &mut Vec<ProseHit>) -> (r: (Metadata, bool))
    ensures
        meta_v(r.0) == meta_step(meta_v(*m), pairs_view(map@), rewrite).0,
        r.1 == meta_step(meta_v(*m), pairs_view(map@), rewrite).2,
        prose_view(final(hits)@) == prose_view(old(hits)@) + meta_step(meta_v(*m), pairs_view(map@), rewrite).1,
{
    match m {
        Metadata::Dep(l) => {
            let (nl, ch) = deps_exec(l, map);
            assert(prose_view(hits@) =~= prose_view(hits@) + Seq::<ProseV>::empty());
            (Metadata::Dep(nl), ch)
        },
        Metadata::Note(x) => {
            let (nx, ch) = prose_exec(x, map, rewrite, hits);
            (Metadata::Note(nx), ch)
        },
        Metadata::Spec(x) => {
            let (nx, ch) = prose_exec(x, map, rewrite, hits);
            (Metadata::Spec(nx), ch)
        },
        Metadata::Ref(l) => {
            let (nl, ch) = refs_exec(l, map, rewrite, hits);
            (Metadata::Ref(nl), ch)
        },
        _ => {
            assert(prose_view(hits@) =~= prose_view(hits@) + Seq::<ProseV>::empty());
            (m.duplicate(), false)
        },
    }
}

fn remap_task(t: &mut Task, map: &Vec<(String, String)>, rewrite: bool, hits: &mut Vec<ProseHit>) -> (r: bool)
    ensures
        final(t)@ == task_remap(old(t)@, pairs_view(map@), rewrite).0,
        r == task_remap(old(t)@, pairs_view(map@), rewrite).2,
        prose_view(final(hits)@) == prose_view(old(hits)@) + task_remap(old(t)@, pairs_view(map@), rewrite).1,
    decreases old(t)@, 1int,
{
    let ghost tv = t@;
    let ghost pv = pairs_view(map@);
    let ghost h0 = prose_view(hits@);
    assert(tasks_v(t.subtasks@) =~= tv.subtasks);
    let mut dirty = false;
    let nid = match &t.id {
        Some(x) => prefix_for(map, x.as_str()),
        None => None,
    };
    match nid {
        Some(v) => {
            t.id = Some(v);
            dirty = true;
        },
        None => {},
    }
    let ghost mv = tv.metadata;
    let mut k: usize = 0;
    let mut mch = false;
    while k < t.metadata.len()
        invariant
            k <= t.metadata@.len(),
            t.metadata@.len() == mv.len(),
            mv == tv.metadata,
            pv == pairs_view(map@),
            metas_v(t.metadata@).take(k as int) == metas_step(mv, pv, rewrite, k as int).0,
            metas_v(t.metadata@).skip(k as int) == mv.skip(k as int),
            mch == metas_step(mv, pv, rewrite, k as int).2,
            prose_view(hits@) == h0 + metas_step(mv, pv, rewrite, k as int).1,
            t.subtasks == old(t).subtasks,
            t.id == (match nid { Some(v) => Some(v), None => old(t).id }),
            t.title == old(t).title,
            t.state == old(t).state,
            t.tags == old(t).tags,
            t.extra_lines == old(t).extra_lines,
            t.depth == old(t).depth,
            t.dirty == old(t).dirty,
        decreases t.metadata.len() - k,
    {
        let ghost before = metas_v(t.metadata@);
        assert(mv[k as int] == before[k as int]) by {
            assert(before.skip(k as int)[0] == mv.skip(k as int)[0]);
        }
        assert(before[k as int] == meta_v(t.metadata@[k as int]));
        let (nm, ch) = meta_exec(&t.metadata[k], map, rewrite, hits);
        t.metadata.set(k, nm);
        mch = mch || ch;
        proof {
            let after = metas_v(t.metadata@);
            assert(after =~= before.update(k as int, meta_v(nm)));
            assert(after.take(k + 1) =~= metas_step(mv, pv, rewrite, k + 1).0);
            assert forall|j: int| 0 <= j < mv.len() - (k + 1) implies #[trigger] after.skip(k + 1)[j] == mv.skip(k + 1)[j] by {
                assert(before.skip(k as int)[j + 1] == mv.skip(k as int)[j + 1]);
            }
            assert(after.skip(k + 1) =~= mv.skip(k + 1));
        }
        k += 1;
    }
    assert(metas_v(t.metadata@) =~= metas_v(t.metadata@).take(k as int));
    if dirty || mch {
        t.dirty = true;
    }
    let ghost mid = prose_view(hits@);
    let sub = apply_map_to_tasks(&mut t.subtasks, map, rewrite, hits);
    proof {
        assert(t@.subtasks =~= tasks_v(t.subtasks@));
        assert(t@ =~= task_remap(tv, pv, rewrite).0);
        assert(prose_view(hits@) =~= h0 + task_remap(tv, pv, rewrite).1);
    }
    dirty || mch || sub
}

/// Apply an ID map to a list of tasks and their subtrees: rename IDs and
/// deps, and scan notes, specs and refs for mentions, rewriting them when
/// `rewrite_notes` holds. Returns whether anything changed; the prose hits
/// are appended to `hits` in file order whether or not they are rewritten.
pub fn apply_map_to_tasks(tasks: &mut Vec<Task>, map: &Vec<(String, String)>, rewrite_notes: bool, hits: &mut Vec<ProseHit>) -> (r: bool)
    ensures
        tasks_v(final(tasks)@) == list_remap(tasks_v(old(tasks)@), pairs_view(map@), rewrite_notes, old(tasks)@.len() as int).0,
        r == list_remap(tasks_v(old(tasks)@), pairs_view(map@), rewrite_notes, old(tasks)@.len() as int).2,
        prose_view(final(hits)@) == prose_view(old(hits)@)
            + list_remap(tasks_v(old(tasks)@), pairs_view(map@), rewrite_notes, old(tasks)@.len() as int).1,
    decreases tasks_v(old(tasks)@),
{
    let ghost ts = tasks_v(tasks@);
    let ghost pv = pairs_view(map@);
    let ghost h0 = prose_view(hits@);
    let mut any = false;
    let mut i: usize = 0;
    while i < tasks.len()
        invariant
            i <= tasks@.len(),
            tasks@.len() == ts.len(),
            ts == tasks_v(old(tasks)@),
            pv == pairs_view(map@),
            tasks_v(tasks@).take(i as int) == list_remap(ts, pv, rewrite_notes, i as int).0,
            tasks_v(tasks@).skip(i as int) == ts.skip(i as int),
            any == list_remap(ts, pv, rewrite_notes, i as int).2,
            prose_view(hits@) == h0 + list_remap(ts, pv, rewrite_notes, i as int).1,
        decreases tasks@.len() - i,
    {
        let ghost before = tasks_v(tasks@);
        let mut t = tasks.remove(i);
        assert(t@ == ts[i as int]) by {
            assert(before.skip(i as int)[0] == ts.skip(i as int)[0]);
        }
        proof {
            assert(decreases_to!(ts => ts[i as int]));
        }
        let ch = remap_task(&mut t, map, rewrite_notes, hits);
        tasks.insert(i, t);
        any = any || ch;
        proof {
            let after = tasks_v(tasks@);
            assert(after =~= before.update(i as int, t@));
            assert(after.take(i + 1) =~= list_remap(ts, pv, rewrite_notes, i + 1).0);
            assert forall|j: int| 0 <= j < ts.len() - (i + 1) implies #[trigger] after.skip(i + 1)[j] == ts.skip(i + 1)[j] by {
                assert(before.skip(i as int)[j + 1] == ts.skip(i as int)[j + 1]);
            }
            assert(after.skip(i + 1) =~= ts.skip(i + 1));
        }
        i += 1;
    }
    assert(tasks_v(tasks@) =~= tasks_v(tasks@).take(i as int));
    any
}

/// A track's sections from node `i` on, with a map applied.
pub open spec fn nodes_remap(nodes: Seq<NodeV>, pairs: Seq<(Seq<char>, Seq<char>)>, rewrite: bool, n: int) -> (Seq<NodeV>, Seq<ProseV>, bool)
    decreases n,
{
    if n <= 0 {
        (Seq::empty(), Seq::empty(), false)
    } else {
        let a = nodes_remap(nodes, pairs, rewrite, n - 1);
        let ts = node_tasks(nodes[n - 1]);
        let b = list_remap(ts, pairs, rewrite, ts.len() as int);
        (a.0.push(with_tasks(nodes[n - 1], b.0)), a.1 + b.1, a.2 || b.2)
    }
}

/// Apply an ID map across a whole track (see [`apply_map_to_tasks`]).
pub fn apply_map_to_track(track: &mut Track, map: &Vec<(String, String)>, rewrite_notes: bool, hits: &mut Vec<ProseHit>) -> (r: bool)
    ensures
        final(track)@ == nodes_remap(old(track)@, pairs_view(map@), rewrite_notes, old(track)@.len() as int).0,
        r == nodes_remap(old(track)@, pairs_view(map@), rewrite_notes, old(track)@.len() as int).2,
        prose_view(final(hits)@) == prose_view(old(hits)@)
            + nodes_remap(old(track)@, pairs_view(map@), rewrite_notes, old(track)@.len() as int).1,
{
    let ghost nv = track@;
    let ghost pv = pairs_view(map@);
    let ghost h0 = prose_view(hits@);
    let mut any = false;
    let mut i: usize = 0;
    while i < track.nodes.len()
        invariant
            i <= track.nodes@.len(),
            track@.len() == nv.len(),
            nv == old(track)@,
            pv == pairs_view(map@),
            track@.take(i as int) == nodes_remap(nv, pv, rewrite_notes, i as int).0,
            track@.skip(i as int) == nv.skip(i as int),
            any == nodes_remap(nv, pv, rewrite_notes, i as int).2,
            prose_view(hits@) == h0 + nodes_remap(nv, pv, rewrite_notes, i as int).1,
        decreases track.nodes.len() - i,
    {
        let ghost before = track@;
        assert(before[i as int] == nv[i as int]) by {
            assert(before.skip(i as int)[0] == nv.skip(i as int)[0]);
        }
        assert(track@[i as int] == node_v(track.nodes@[i as int]));
        let is_section = match &track.nodes[i] {
            TrackNode::Section { .. } => true,
            TrackNode::Literal(_) => false,
        };
        if is_section {
            let mut tasks = track.swap_section_tasks(i, Vec::new());
            let ch = apply_map_to_tasks(&mut tasks, map, rewrite_notes, hits);
            assert(track@.len() == track.nodes@.len());
            let _ = track.swap_section_tasks(i, tasks);
            any = any || ch;
            proof {
                let n = nv[i as int];
                assert(with_tasks(with_tasks(n, Seq::empty()), tasks_v(tasks@)) == with_tasks(n, tasks_v(tasks@)));
                assert(track@ =~= before.update(i as int, with_tasks(n, tasks_v(tasks@))));
            }
        } else {
            proof {
                let n = nv[i as int];
                assert(list_remap(node_tasks(n), pv, rewrite_notes, 0) == (Seq::<TaskV>::empty(), Seq::<ProseV>::empty(), false));
                assert(with_tasks(n, Seq::empty()) == n);
                assert(prose_view(hits@) =~= prose_view(hits@) + Seq::<ProseV>::empty());
            }
        }
        proof {
            let after = track@;
            assert(after.take(i + 1) =~= nodes_remap(nv, pv, rewrite_notes, i + 1).0);
            assert forall|j: int| 0 <= j < nv.len() - (i + 1) implies #[trigger] after.skip(i + 1)[j] == nv.skip(i + 1)[j] by {
                assert(before.skip(i as int)[j + 1] == nv.skip(i as int)[j + 1]);
            }
            assert(after.skip(i + 1) =~= nv.skip(i + 1));
        }
        i += 1;
    }
    assert(track@ =~= track@.take(i as int));
    any
}

} // verus!
